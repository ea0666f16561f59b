//! The persistence decision: a structural hash of the whole ledger, taken
//! once after loading and once before saving.  When the two agree, the run
//! changed nothing and the snapshot file is left untouched.
//!
//! The hash folds every fund name, balance, action and fund value into a
//! 64-bit accumulator; it is a pure function of the ledger's contents, so
//! an unchanged ledger always hashes to the same value.

use vstd::prelude::*;
use vstd::wrapping::u64_specs;
use crate::ledger::{
    Action, Balance, BalanceRowModel, FundValue, FundValueRowModel, SeriesModel, Table,
    lemma_merge_balances_idempotent, lemma_merge_fund_values_idempotent, merge_balances_spec,
    merge_fund_values_spec,
};
use crate::reconcile::{ActionRowModel, actions_reconciled, lemma_reconcile_idempotent};

verus! {

/// One combining step: exclusive-or, then a multiplicative scramble.
pub open spec fn mix(h: u64, v: u64) -> u64 {
    u64_specs::wrapping_mul(h ^ v, 1099511628211)
}

fn mix_exec(h: u64, v: u64) -> (r: u64)
    ensures
        r == mix(h, v),
{
    (h ^ v).wrapping_mul(1099511628211u64)
}

/// A signed amount shifted into the unsigned range, losslessly.
pub open spec fn code_i64(x: i64) -> u64 {
    (x + 0x8000000000000000) as u64
}

fn code_i64_exec(x: i64) -> (r: u64)
    ensures
        r == code_i64(x),
{
    ((x as i128) + 0x8000000000000000i128) as u64
}

pub open spec fn code_date(d: crate::date::Date) -> u64 {
    (d.year * 10000 + d.month * 100 + d.day) as u64
}

pub open spec fn fold_chars(h: u64, s: Seq<char>) -> u64
    decreases s.len(),
{
    if s.len() == 0 {
        h
    } else {
        mix(fold_chars(h, s.drop_last()), s.last() as u64)
    }
}

pub open spec fn hash_balance(h: u64, b: Balance) -> u64 {
    mix(mix(h, code_date(b.date)), code_i64(b.balance))
}

pub open spec fn fold_balances(h: u64, s: Seq<Balance>) -> u64
    decreases s.len(),
{
    if s.len() == 0 {
        h
    } else {
        hash_balance(fold_balances(h, s.drop_last()), s.last())
    }
}

pub open spec fn hash_action(h: u64, a: Action) -> u64 {
    mix(mix(h, code_date(a.date)), code_i64(a.change))
}

pub open spec fn fold_actions(h: u64, s: Seq<Action>) -> u64
    decreases s.len(),
{
    if s.len() == 0 {
        h
    } else {
        hash_action(fold_actions(h, s.drop_last()), s.last())
    }
}

pub open spec fn hash_fund_value(h: u64, f: FundValue) -> u64 {
    mix(mix(mix(h, code_date(f.date)), code_i64(f.fund_value)), code_i64(f.unit_value))
}

pub open spec fn fold_fund_values(h: u64, s: Seq<FundValue>) -> u64
    decreases s.len(),
{
    if s.len() == 0 {
        h
    } else {
        hash_fund_value(fold_fund_values(h, s.drop_last()), s.last())
    }
}

pub open spec fn hash_series(h: u64, s: SeriesModel) -> u64 {
    let h1 = fold_chars(mix(h, s.fund.len() as u64), s.fund);
    let h2 = fold_balances(mix(h1, s.balance.len() as u64), s.balance);
    let h3 = fold_actions(mix(h2, s.action.len() as u64), s.action);
    fold_fund_values(mix(h3, s.fund_value.len() as u64), s.fund_value)
}

pub open spec fn fold_series(h: u64, t: Seq<SeriesModel>) -> u64
    decreases t.len(),
{
    if t.len() == 0 {
        h
    } else {
        hash_series(fold_series(h, t.drop_last()), t.last())
    }
}

/// The structural hash of the whole ledger.
pub open spec fn table_hash(t: Seq<SeriesModel>) -> u64 {
    fold_series(1469598103934665603, t)
}

fn fold_chars_exec(h0: u64, s: &str) -> (r: u64)
    ensures
        r == fold_chars(h0, s@),
{
    let n = s.unicode_len();
    let mut h = h0;
    let mut i: usize = 0;
    proof {
        assert(s@.take(0) =~= Seq::<char>::empty());
    }
    while i < n
        invariant
            0 <= i <= n,
            n == s@.len(),
            h == fold_chars(h0, s@.take(i as int)),
        decreases n - i,
    {
        proof {
            assert(s@.take(i + 1).drop_last() =~= s@.take(i as int));
            assert(s@.take(i + 1).last() == s@[i as int]);
        }
        h = mix_exec(h, s.get_char(i) as u64);
        i = i + 1;
    }
    proof {
        assert(s@.take(n as int) =~= s@);
    }
    h
}

fn date_code_exec(d: crate::date::Date) -> (r: u64)
    ensures
        r == code_date(d),
{
    d.year as u64 * 10000 + d.month as u64 * 100 + d.day as u64
}

/// Computes the ledger's structural hash.
pub fn calculate_hash(table: &Table) -> (r: u64)
    ensures
        r == table_hash(table@),
{
    let n = table.table.len();
    let mut h: u64 = 1469598103934665603;
    let mut i: usize = 0;
    proof {
        assert(table@.take(0) =~= Seq::<SeriesModel>::empty());
    }
    while i < n
        invariant
            0 <= i <= n,
            n == table@.len(),
            table@.len() == table.table@.len(),
            h == fold_series(1469598103934665603, table@.take(i as int)),
        decreases n - i,
    {
        proof {
            assert(table@.take(i + 1).drop_last() =~= table@.take(i as int));
            assert(table@.take(i + 1).last() == table@[i as int]);
            assert(table@[i as int] == table.table@[i as int]@);
        }
        let series = &table.table[i];
        h = mix_exec(h, series.fund.as_str().unicode_len() as u64);
        h = fold_chars_exec(h, series.fund.as_str());
        h = mix_exec(h, series.balance.len() as u64);
        let nb = series.balance.len();
        let mut q: usize = 0;
        let ghost hb0 = h;
        proof {
            assert(series@.balance.take(0) =~= Seq::<Balance>::empty());
        }
        while q < nb
            invariant
                0 <= q <= nb,
                nb == series@.balance.len(),
                h == fold_balances(hb0, series@.balance.take(q as int)),
            decreases nb - q,
        {
            proof {
                assert(series@.balance.take(q + 1).drop_last() =~= series@.balance.take(
                    q as int,
                ));
                assert(series@.balance.take(q + 1).last() == series@.balance[q as int]);
            }
            let b = series.balance[q];
            h = mix_exec(h, date_code_exec(b.date));
            h = mix_exec(h, code_i64_exec(b.balance));
            q = q + 1;
        }
        proof {
            assert(series@.balance.take(nb as int) =~= series@.balance);
        }
        h = mix_exec(h, series.action.len() as u64);
        let na = series.action.len();
        let mut q2: usize = 0;
        let ghost ha0 = h;
        proof {
            assert(series@.action.take(0) =~= Seq::<Action>::empty());
        }
        while q2 < na
            invariant
                0 <= q2 <= na,
                na == series@.action.len(),
                h == fold_actions(ha0, series@.action.take(q2 as int)),
            decreases na - q2,
        {
            proof {
                assert(series@.action.take(q2 + 1).drop_last() =~= series@.action.take(
                    q2 as int,
                ));
                assert(series@.action.take(q2 + 1).last() == series@.action[q2 as int]);
            }
            let a = series.action[q2];
            h = mix_exec(h, date_code_exec(a.date));
            h = mix_exec(h, code_i64_exec(a.change));
            q2 = q2 + 1;
        }
        proof {
            assert(series@.action.take(na as int) =~= series@.action);
        }
        h = mix_exec(h, series.fund_value.len() as u64);
        let nf = series.fund_value.len();
        let mut q3: usize = 0;
        let ghost hf0 = h;
        proof {
            assert(series@.fund_value.take(0) =~= Seq::<FundValue>::empty());
        }
        while q3 < nf
            invariant
                0 <= q3 <= nf,
                nf == series@.fund_value.len(),
                h == fold_fund_values(hf0, series@.fund_value.take(q3 as int)),
            decreases nf - q3,
        {
            proof {
                assert(series@.fund_value.take(q3 + 1).drop_last() =~= series@.fund_value.take(
                    q3 as int,
                ));
                assert(series@.fund_value.take(q3 + 1).last() == series@.fund_value[q3 as int]);
            }
            let f = series.fund_value[q3];
            h = mix_exec(h, date_code_exec(f.date));
            h = mix_exec(h, code_i64_exec(f.fund_value));
            h = mix_exec(h, code_i64_exec(f.unit_value));
            q3 = q3 + 1;
        }
        proof {
            assert(series@.fund_value.take(nf as int) =~= series@.fund_value);
        }
        i = i + 1;
    }
    proof {
        assert(table@.take(n as int) =~= table@);
    }
    h
}

/// Whether the ledger changed since `original_hash` was taken and so must
/// be written back; an unchanged ledger skips the file write.
pub fn needs_save(table: &Table, original_hash: u64) -> (r: bool)
    ensures
        r == (table_hash(table@) != original_hash),
{
    calculate_hash(table) != original_hash
}

/// Re-running action ingestion with a batch already reconciled changes
/// nothing, so the snapshot's structural hash stays identical and the save
/// is skipped.
pub proof fn lemma_reingest_keeps_hash(
    pre: Seq<SeriesModel>,
    mid: Seq<SeriesModel>,
    post: Seq<SeriesModel>,
    rows: Seq<ActionRowModel>,
)
    requires
        actions_reconciled(pre, mid, rows),
        actions_reconciled(mid, post, rows),
    ensures
        table_hash(post) == table_hash(mid),
{
    lemma_reconcile_idempotent(pre, mid, post, rows);
}

/// Re-merging an already-merged balance batch changes nothing, so the
/// snapshot's structural hash stays identical and the save is skipped.
pub proof fn lemma_remerge_balances_keeps_hash(
    t: Seq<SeriesModel>,
    date: crate::date::Date,
    rows: Seq<BalanceRowModel>,
)
    ensures
        table_hash(merge_balances_spec(merge_balances_spec(t, date, rows), date, rows))
            == table_hash(merge_balances_spec(t, date, rows)),
{
    lemma_merge_balances_idempotent(t, date, rows);
}

/// Re-merging an already-merged fund-value batch changes nothing either,
/// with the same consequence for the save decision.
pub proof fn lemma_remerge_fund_values_keeps_hash(
    t: Seq<SeriesModel>,
    rows: Seq<FundValueRowModel>,
)
    ensures
        table_hash(merge_fund_values_spec(merge_fund_values_spec(t, rows), rows))
            == table_hash(merge_fund_values_spec(t, rows)),
{
    lemma_merge_fund_values_idempotent(t, rows);
}

} // verus!
