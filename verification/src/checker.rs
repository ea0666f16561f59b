//! Cross-fund transfer consistency: every recent withdrawal should have a
//! matching deposit of the same date and opposite amount in some fund.  A
//! flow with no such counterpart is reported together with the fund whose
//! last balance sits closest to `balance - change`, the most likely
//! intended destination.  Purely diagnostic: nothing is changed.

use vstd::prelude::*;
use crate::date::Date;
use crate::ledger::{Action, SeriesModel, Table};

verus! {

/// One unmatched transfer leg and its best-guess counterpart fund.
pub struct TransferMismatch {
    /// The fund whose action has no opposite leg.
    pub fund: String,
    /// The unmatched action.
    pub action: Action,
    /// The fund whose last balance is closest to `balance - change`.
    pub nearest_fund: String,
    /// That fund's last balance.
    pub nearest_balance: i64,
}

pub ghost struct MismatchModel {
    pub fund: Seq<char>,
    pub action: Action,
    pub nearest_fund: Seq<char>,
    pub nearest_balance: i64,
}

impl View for TransferMismatch {
    type V = MismatchModel;

    open spec fn view(&self) -> MismatchModel {
        MismatchModel {
            fund: self.fund@,
            action: self.action,
            nearest_fund: self.nearest_fund@,
            nearest_balance: self.nearest_balance,
        }
    }
}

/// A fund that takes part in the check: it has balances and the latest is
/// not zero.
pub open spec fn eligible(s: SeriesModel) -> bool {
    s.balance.len() > 0 && s.balance.last().balance != 0
}

/// Whether any fund holds the exact opposite leg: same date, negated
/// amount.
pub open spec fn has_match(t: Seq<SeriesModel>, a: Action) -> bool {
    exists|i: int, j: int|
        0 <= i < t.len() && 0 <= j < t[i].action.len() && (#[trigger] t[i].action[j]).date
            == a.date && t[i].action[j].change == -(a.change as int)
}

pub open spec fn abs_int(x: int) -> int {
    if x >= 0 {
        x
    } else {
        -x
    }
}

/// How far fund `i`'s last balance is from the amount `c`.
pub open spec fn fund_distance(s: SeriesModel, c: i64) -> int {
    abs_int(s.balance.last().balance - c)
}

/// The first eligible fund whose last balance is nearest to `c`; -1 when
/// no fund is eligible.
pub open spec fn best_fund(t: Seq<SeriesModel>, c: i64) -> int
    decreases t.len(),
{
    if t.len() == 0 {
        -1
    } else {
        let b = best_fund(t.drop_last(), c);
        if !eligible(t.last()) {
            b
        } else if b < 0 {
            t.len() - 1
        } else if fund_distance(t.last(), c) < fund_distance(t[b], c) {
            t.len() - 1
        } else {
            b
        }
    }
}

pub proof fn lemma_best_fund_range(t: Seq<SeriesModel>, c: i64)
    ensures
        best_fund(t, c) == -1 || (0 <= best_fund(t, c) < t.len() && eligible(
            t[best_fund(t, c)],
        )),
    decreases t.len(),
{
    if t.len() > 0 {
        lemma_best_fund_range(t.drop_last(), c);
        let bd = best_fund(t.drop_last(), c);
        if bd >= 0 {
            assert(t.drop_last()[bd] == t[bd]);
        }
    }
}

pub proof fn lemma_best_fund_found(t: Seq<SeriesModel>, c: i64, i: int)
    requires
        0 <= i < t.len(),
        eligible(t[i]),
    ensures
        0 <= best_fund(t, c) < t.len(),
        eligible(t[best_fund(t, c)]),
    decreases t.len(),
{
    lemma_best_fund_range(t, c);
    if i < t.len() - 1 {
        lemma_best_fund_found(t.drop_last(), c, i);
        let bd = best_fund(t.drop_last(), c);
        assert(t.drop_last()[bd] == t[bd]);
    }
}

/// The report for one action.
pub open spec fn mismatch_for(t: Seq<SeriesModel>, i: int, a: Action) -> MismatchModel {
    let b = best_fund(t, a.change);
    MismatchModel {
        fund: t[i].fund,
        action: a,
        nearest_fund: t[b].fund,
        nearest_balance: t[b].balance.last().balance,
    }
}

/// Whether series `i`'s action `a` is reported: the fund takes part, the
/// action is recent, and no fund holds the opposite leg.
pub open spec fn reported(t: Seq<SeriesModel>, cutoff: Date, i: int, a: Action) -> bool {
    eligible(t[i]) && a.date.key() > cutoff.key() && !has_match(t, a)
}

/// The reports from the first `j` actions of series `i`.
pub open spec fn series_mismatches(t: Seq<SeriesModel>, cutoff: Date, i: int, j: int) -> Seq<
    MismatchModel,
>
    decreases j,
{
    if j <= 0 {
        Seq::empty()
    } else {
        let rest = series_mismatches(t, cutoff, i, j - 1);
        if reported(t, cutoff, i, t[i].action[j - 1]) {
            rest.push(mismatch_for(t, i, t[i].action[j - 1]))
        } else {
            rest
        }
    }
}

/// All reports from the first `upto` series, in ledger order.
pub open spec fn mismatches_spec(t: Seq<SeriesModel>, cutoff: Date, upto: int) -> Seq<
    MismatchModel,
>
    decreases upto,
{
    if upto <= 0 {
        Seq::empty()
    } else {
        mismatches_spec(t, cutoff, upto - 1) + series_mismatches(
            t,
            cutoff,
            upto - 1,
            t[upto - 1].action.len() as int,
        )
    }
}

fn date_key64(d: Date) -> (r: u64)
    ensures
        r == d.key(),
{
    d.year as u64 * 10000 + d.month as u64 * 100 + d.day as u64
}

fn find_match(table: &Table, a: Action) -> (r: bool)
    ensures
        r == has_match(table@, a),
{
    let n = table.table.len();
    let mut i: usize = 0;
    while i < n
        invariant
            0 <= i <= n,
            n == table@.len(),
            table@.len() == table.table@.len(),
            forall|p: int, q: int|
                0 <= p < i && 0 <= q < table@[p].action.len() ==> !((
                #[trigger] table@[p].action[q]).date == a.date && table@[p].action[q].change == -(
                a.change as int)),
        decreases n - i,
    {
        proof {
            assert(table@[i as int] == table.table@[i as int]@);
        }
        let series = &table.table[i];
        let m = series.action.len();
        let mut j: usize = 0;
        while j < m
            invariant
                0 <= j <= m,
                i < n,
                n == table@.len(),
                table@.len() == table.table@.len(),
                m == table@[i as int].action.len(),
                series@ == table@[i as int],
                forall|q: int|
                    0 <= q < j ==> !((#[trigger] table@[i as int].action[q]).date == a.date
                        && table@[i as int].action[q].change == -(a.change as int)),
            decreases m - j,
        {
            let b = series.action[j];
            if b.date == a.date && (b.change as i128) == -(a.change as i128) {
                proof {
                    assert(table@[i as int].action[j as int].change == -(a.change as int));
                }
                return true;
            }
            j = j + 1;
        }
        i = i + 1;
    }
    false
}

fn nearest_fund(table: &Table, c: i64) -> (r: usize)
    requires
        exists|i: int| 0 <= i < table@.len() && eligible(#[trigger] table@[i]),
    ensures
        r == best_fund(table@, c),
        0 <= r < table@.len(),
        eligible(table@[r as int]),
{
    let n = table.table.len();
    let mut best: usize = 0;
    let mut have: bool = false;
    let mut i: usize = 0;
    proof {
        assert(table@.take(0) =~= Seq::<SeriesModel>::empty());
    }
    while i < n
        invariant
            0 <= i <= n,
            n == table@.len(),
            table@.len() == table.table@.len(),
            !have ==> best_fund(table@.take(i as int), c) < 0,
            have ==> best as int == best_fund(table@.take(i as int), c) && best < i && eligible(
                table@[best as int],
            ),
        decreases n - i,
    {
        proof {
            assert(table@.take(i + 1).drop_last() =~= table@.take(i as int));
            assert(table@.take(i + 1).last() == table@[i as int]);
            assert(forall|q: int|
                0 <= q < i ==> #[trigger] table@.take(i + 1)[q] == table@[q]);
            assert(table@[i as int] == table.table@[i as int]@);
        }
        let series = &table.table[i];
        let nb = series.balance.len();
        if nb > 0 && series.balance[nb - 1].balance != 0 {
            proof {
                assert(series@.balance.last() == series@.balance[nb - 1]);
                assert(eligible(table@[i as int]));
            }
            if !have {
                best = i;
                have = true;
            } else {
                let db = distance_exec(&table.table[best], c);
                let di = distance_exec(&table.table[i], c);
                if di < db {
                    best = i;
                }
            }
        }
        i = i + 1;
    }
    proof {
        assert(table@.take(n as int) =~= table@);
        let w = choose|w: int| 0 <= w < table@.len() && eligible(#[trigger] table@[w]);
        lemma_best_fund_found(table@, c, w);
    }
    best
}

fn distance_exec(s: &crate::ledger::Series, c: i64) -> (r: i128)
    requires
        eligible(s@),
    ensures
        r == fund_distance(s@, c),
{
    let nb = s.balance.len();
    proof {
        assert(s@.balance.last() == s@.balance[nb - 1]);
    }
    let d = (s.balance[nb - 1].balance as i128) - (c as i128);
    if d >= 0 {
        d
    } else {
        -d
    }
}

/// Scans every participating fund's recent actions for unmatched transfer
/// legs and reports each with its most likely counterpart fund.
pub fn check_transfers(table: &Table, cutoff: Date) -> (r: Vec<TransferMismatch>)
    ensures
        r@.map_values(|m: TransferMismatch| m@) == mismatches_spec(
            table@,
            cutoff,
            table@.len() as int,
        ),
{
    let n = table.table.len();
    let mut out: Vec<TransferMismatch> = Vec::new();
    let mut i: usize = 0;
    proof {
        assert(out@.map_values(|m: TransferMismatch| m@) =~= mismatches_spec(table@, cutoff, 0));
    }
    while i < n
        invariant
            0 <= i <= n,
            n == table@.len(),
            table@.len() == table.table@.len(),
            out@.map_values(|m: TransferMismatch| m@) == mismatches_spec(
                table@,
                cutoff,
                i as int,
            ),
        decreases n - i,
    {
        proof {
            assert(table@[i as int] == table.table@[i as int]@);
        }
        let series = &table.table[i];
        let nb = series.balance.len();
        let el = nb > 0 && series.balance[nb - 1].balance != 0;
        proof {
            if nb > 0 {
                assert(series@.balance.last() == series@.balance[nb - 1]);
            }
            assert(el == eligible(table@[i as int]));
        }
        let m = series.action.len();
        let mut j: usize = 0;
        while j < m
            invariant
                0 <= j <= m,
                i < n,
                n == table@.len(),
                table@.len() == table.table@.len(),
                m == table@[i as int].action.len(),
                series@ == table@[i as int],
                el == eligible(table@[i as int]),
                out@.map_values(|m2: TransferMismatch| m2@) == mismatches_spec(
                    table@,
                    cutoff,
                    i as int,
                ) + series_mismatches(table@, cutoff, i as int, j as int),
            decreases m - j,
        {
            let a = series.action[j];
            let recent = date_key64(a.date) > date_key64(cutoff);
            if el && recent {
                if !find_match(table, a) {
                    proof {
                        assert(reported(table@, cutoff, i as int, a));
                    }
                    let b = nearest_fund(table, a.change);
                    let ghost old_out = out@.map_values(|m2: TransferMismatch| m2@);
                    let nbb = table.table[b].balance.len();
                    proof {
                        assert(table@[b as int] == table.table@[b as int]@);
                        assert(table@[b as int].balance.last() == table@[b as int].balance[nbb
                            - 1]);
                    }
                    let rec = TransferMismatch {
                        fund: series.fund.clone(),
                        action: a,
                        nearest_fund: table.table[b].fund.clone(),
                        nearest_balance: table.table[b].balance[nbb - 1].balance,
                    };
                    proof {
                        assert(rec@ == mismatch_for(table@, i as int, a));
                    }
                    out.push(rec);
                    proof {
                        assert(out@.map_values(|m2: TransferMismatch| m2@) =~= old_out.push(
                            mismatch_for(table@, i as int, a),
                        ));
                    }
                } else {
                    proof {
                        assert(!reported(table@, cutoff, i as int, a));
                    }
                }
            } else {
                proof {
                    assert(!reported(table@, cutoff, i as int, a));
                }
            }
            j = j + 1;
        }
        proof {
            assert(mismatches_spec(table@, cutoff, i + 1) == mismatches_spec(
                table@,
                cutoff,
                i as int,
            ) + series_mismatches(table@, cutoff, i as int, m as int));
        }
        i = i + 1;
    }
    out
}

} // verus!
