//! The action-adjusted return engine.
//!
//! For a lookback window starting at `start`, a fund's variation series
//! measures how much of each later balance is investment performance: the
//! first stored balance on or after `start` seeds a running balance, every
//! intervening cash flow is added verbatim, and the emitted value is the
//! balance net of flows minus that seed.  In exact integer arithmetic this
//! equals `balance - initial - (flows since the initial date and before
//! this record)`.  The implementation computes the flow adjustment from
//! both ends and keeps the variant smaller in magnitude — a numerical
//! robustness heuristic only, not a financial definition; in exact
//! integer arithmetic the two coincide, which the contract proves.

use vstd::prelude::*;
use crate::date::Date;
use crate::ledger::{Action, Balance, FundValue, Series, SeriesModel, Table};

verus! {

/// Balances in nondecreasing date order.
pub open spec fn sorted_balances(s: Seq<Balance>) -> bool {
    forall|i: int, j: int|
        0 <= i <= j < s.len() ==> (#[trigger] s[i]).date.key() <= (#[trigger] s[j]).date.key()
}

/// Actions in nondecreasing date order.
pub open spec fn sorted_actions(s: Seq<Action>) -> bool {
    forall|i: int, j: int|
        0 <= i <= j < s.len() ==> (#[trigger] s[i]).date.key() <= (#[trigger] s[j]).date.key()
}

/// Fund values in nondecreasing date order.
pub open spec fn sorted_fund_values(s: Seq<FundValue>) -> bool {
    forall|i: int, j: int|
        0 <= i <= j < s.len() ==> (#[trigger] s[i]).date.key() <= (#[trigger] s[j]).date.key()
}

/// Index of the first balance dated on or after `start`; the length when
/// there is none.
pub open spec fn first_bal_ge(s: Seq<Balance>, start: Date) -> int
    decreases s.len(),
{
    if s.len() == 0 {
        0
    } else if s[0].date.key() >= start.key() {
        0
    } else {
        1 + first_bal_ge(s.drop_first(), start)
    }
}

proof fn lemma_first_bal_ge_at(s: Seq<Balance>, start: Date, k: int)
    requires
        0 <= k <= s.len(),
        forall|i: int| 0 <= i < k ==> (#[trigger] s[i]).date.key() < start.key(),
        k < s.len() ==> s[k].date.key() >= start.key(),
    ensures
        first_bal_ge(s, start) == k,
    decreases k,
{
    if k > 0 {
        lemma_first_bal_ge_at(s.drop_first(), start, k - 1);
    }
}

/// Index of the first fund value dated on or after `start`.
pub open spec fn first_fv_ge(s: Seq<FundValue>, start: Date) -> int
    decreases s.len(),
{
    if s.len() == 0 {
        0
    } else if s[0].date.key() >= start.key() {
        0
    } else {
        1 + first_fv_ge(s.drop_first(), start)
    }
}

proof fn lemma_first_fv_ge_at(s: Seq<FundValue>, start: Date, k: int)
    requires
        0 <= k <= s.len(),
        forall|i: int| 0 <= i < k ==> (#[trigger] s[i]).date.key() < start.key(),
        k < s.len() ==> s[k].date.key() >= start.key(),
    ensures
        first_fv_ge(s, start) == k,
    decreases k,
{
    if k > 0 {
        lemma_first_fv_ge_at(s.drop_first(), start, k - 1);
    }
}

/// Sum of the flows dated in `[lo, hi)`.
pub open spec fn sum_flows(acts: Seq<Action>, lo: Date, hi: Date) -> int
    decreases acts.len(),
{
    if acts.len() == 0 {
        0
    } else {
        sum_flows(acts.drop_last(), lo, hi) + (if lo.key() <= acts.last().date.key()
            < hi.key() {
            acts.last().change as int
        } else {
            0
        })
    }
}

/// Sum of the flows dated on or after `lo`.
pub open spec fn sum_flows_from(acts: Seq<Action>, lo: Date) -> int
    decreases acts.len(),
{
    if acts.len() == 0 {
        0
    } else {
        sum_flows_from(acts.drop_last(), lo) + (if acts.last().date.key() >= lo.key() {
            acts.last().change as int
        } else {
            0
        })
    }
}

/// Sum of the changes of `acts[m..j]`.
pub open spec fn sum_range(acts: Seq<Action>, m: int, j: int) -> int
    decreases j - m,
{
    if m >= j {
        0
    } else {
        sum_range(acts, m, j - 1) + acts[j - 1].change as int
    }
}

proof fn lemma_sum_range_drop_last(acts: Seq<Action>, m: int, j: int)
    requires
        0 <= m,
        j <= acts.len() - 1,
    ensures
        sum_range(acts.drop_last(), m, j) == sum_range(acts, m, j),
    decreases j - m,
{
    if m < j {
        lemma_sum_range_drop_last(acts, m, j - 1);
    }
}

/// The flows in `[lo, hi)` are exactly the index range `[m, j)` when the
/// records are partitioned around it.
proof fn lemma_sum_flows_is_range(acts: Seq<Action>, lo: Date, hi: Date, m: int, j: int)
    requires
        0 <= m <= j <= acts.len(),
        forall|q: int| 0 <= q < m ==> (#[trigger] acts[q]).date.key() < lo.key(),
        forall|q: int|
            m <= q < j ==> lo.key() <= (#[trigger] acts[q]).date.key() < hi.key(),
        forall|q: int| j <= q < acts.len() ==> (#[trigger] acts[q]).date.key() >= hi.key(),
    ensures
        sum_flows(acts, lo, hi) == sum_range(acts, m, j),
    decreases acts.len(),
{
    if acts.len() == 0 {
    } else if j == acts.len() {
        if m == j {
            assert(acts[j - 1].date.key() < lo.key());
            lemma_sum_flows_is_range(acts.drop_last(), lo, hi, m - 1, j - 1);
            assert(sum_range(acts, m, j) == 0);
            assert(sum_flows(acts, lo, hi) == sum_flows(acts.drop_last(), lo, hi));
            assert(sum_range(acts.drop_last(), m - 1, j - 1) == 0);
        } else {
            lemma_sum_flows_is_range(acts.drop_last(), lo, hi, m, j - 1);
            assert(lo.key() <= acts.last().date.key() < hi.key());
            lemma_sum_range_drop_last(acts, m, j - 1);
        }
    } else {
        lemma_sum_flows_is_range(acts.drop_last(), lo, hi, m, j);
        assert(acts.last().date.key() >= hi.key());
        lemma_sum_range_drop_last(acts, m, j);
    }
}

proof fn lemma_sum_range_bound(acts: Seq<Action>, m: int, j: int)
    requires
        0 <= m <= j <= acts.len(),
    ensures
        -(j - m) * 0x8000000000000000 <= sum_range(acts, m, j) <= (j - m) * 0x8000000000000000,
    decreases j - m,
{
    if m < j {
        lemma_sum_range_bound(acts, m, j - 1);
        assert((j - m) * 0x8000000000000000 == (j - 1 - m) * 0x8000000000000000
            + 0x8000000000000000) by (nonlinear_arith);
    }
}

/// No window at all: a degenerate range holds no flow.
pub proof fn lemma_sum_flows_empty(acts: Seq<Action>, lo: Date, hi: Date)
    requires
        hi.key() <= lo.key(),
    ensures
        sum_flows(acts, lo, hi) == 0,
    decreases acts.len(),
{
    if acts.len() > 0 {
        lemma_sum_flows_empty(acts.drop_last(), lo, hi);
    }
}

/// The action-adjusted variation of record `q` of the window: the balance
/// net of the flows since the window's initial record, minus that initial
/// balance.
pub open spec fn variation_val(s: SeriesModel, start: Date, q: int) -> int {
    let k = first_bal_ge(s.balance, start);
    s.balance[k + q].balance - s.balance[k].balance - sum_flows(
        s.action,
        s.balance[k].date,
        s.balance[k + q].date,
    )
}

/// For a fund whose window holds a single balance record and no actions,
/// the action-adjusted variation is zero: with no flows there is no change
/// to detect.
pub proof fn lemma_single_balance_variation_zero(s: SeriesModel, start: Date)
    requires
        first_bal_ge(s.balance, start) == s.balance.len() - 1,
    ensures
        variation_val(s, start, 0) == 0,
{
    let k = first_bal_ge(s.balance, start);
    lemma_sum_flows_empty(s.action, s.balance[k].date, s.balance[k].date);
}

fn date_key64(d: Date) -> (r: u64)
    ensures
        r == d.key(),
{
    d.year as u64 * 10000 + d.month as u64 * 100 + d.day as u64
}

/// The per-fund variation series for the window starting at `start`:
/// one `(date, cents)` pair per balance record from the first one on or
/// after `start`, or nothing when the fund has no record in the window.
///
/// The record-count bound is far beyond what memory can hold; it keeps
/// every intermediate sum within the accumulator type.
pub fn fund_variation(series: &Series, start: Date) -> (r: Option<Vec<(Date, i128)>>)
    requires
        sorted_balances(series@.balance),
        sorted_actions(series@.action),
        series@.action.len() <= 0x1000000000000000,
    ensures
        r is Some <==> first_bal_ge(series@.balance, start) < series@.balance.len(),
        r matches Some(v) ==> {
            let k = first_bal_ge(series@.balance, start);
            &&& v@.len() == series@.balance.len() - k
            &&& forall|q: int|
                0 <= q < v@.len() ==> (#[trigger] v@[q]).0 == series@.balance[k + q].date
                    && v@[q].1 as int == variation_val(series@, start, q)
        },
{
    let nb = series.balance.len();
    let na = series.action.len();
    let start_key = date_key64(start);
    let mut k: usize = 0;
    while k < nb && date_key64(series.balance[k].date) < start_key
        invariant
            0 <= k <= nb,
            nb == series@.balance.len(),
            start_key == start.key(),
            forall|i: int|
                0 <= i < k ==> (#[trigger] series@.balance[i]).date.key() < start.key(),
        decreases nb - k,
    {
        k = k + 1;
    }
    proof {
        lemma_first_bal_ge_at(series@.balance, start, k as int);
    }
    if k == nb {
        return None;
    }
    let b0 = series.balance[k];
    let b0_key = date_key64(b0.date);
    let mut m: usize = 0;
    while m < na && date_key64(series.action[m].date) < b0_key
        invariant
            0 <= m <= na,
            na == series@.action.len(),
            b0_key == b0.date.key(),
            forall|i: int|
                0 <= i < m ==> (#[trigger] series@.action[i]).date.key() < b0.date.key(),
        decreases na - m,
    {
        m = m + 1;
    }
    proof {
        assert(m < na ==> series@.action[m as int].date.key() >= b0.date.key());
    }
    let ghost bal = series@.balance;
    let ghost acts = series@.action;
    let mut v: Vec<(Date, i128)> = Vec::new();
    let mut running: i128 = b0.balance as i128;
    let mut j: usize = m;
    let mut i: usize = k;
    while i < nb
        invariant
            k <= i <= nb,
            m <= j <= na,
            nb == bal.len(),
            na == acts.len(),
            bal == series@.balance,
            acts == series@.action,
            sorted_balances(bal),
            sorted_actions(acts),
            na <= 0x1000000000000000,
            k == first_bal_ge(bal, start),
            k < nb,
            b0 == bal[k as int],
            forall|q: int| 0 <= q < m ==> (#[trigger] acts[q]).date.key() < b0.date.key(),
            m < na ==> acts[m as int].date.key() >= b0.date.key(),
            i < nb ==> forall|q: int|
                m <= q < j ==> (#[trigger] acts[q]).date.key() < bal[i as int].date.key(),
            forall|q: int| m <= q < j ==> (#[trigger] acts[q]).date.key() >= b0.date.key(),
            running == b0.balance + sum_range(acts, m as int, j as int),
            v@.len() == i - k,
            forall|q: int|
                0 <= q < v@.len() ==> (#[trigger] v@[q]).0 == bal[k + q].date && v@[q].1 as int
                    == variation_val(series@, start, q),
        decreases nb - i,
    {
        let bi = series.balance[i];
        let bi_key = date_key64(bi.date);
        let mut adjusted: i128 = bi.balance as i128;
        let running_before = running;
        let ghost j_before = j;
        proof {
            lemma_sum_range_bound(acts, m as int, j as int);
        }
        while j < na && date_key64(series.action[j].date) < bi_key
            invariant
                m <= j_before <= j <= na,
                na == acts.len(),
                acts == series@.action,
                na <= 0x1000000000000000,
                bi_key == bi.date.key(),
                bi == bal[i as int],
                sorted_actions(acts),
                forall|q: int|
                    m <= q < j ==> (#[trigger] acts[q]).date.key() < bi.date.key(),
                forall|q: int| m <= q < j ==> (#[trigger] acts[q]).date.key() >= b0.date.key(),
                forall|q: int| 0 <= q < m ==> (#[trigger] acts[q]).date.key() < b0.date.key(),
                m < na ==> acts[m as int].date.key() >= b0.date.key(),
                b0 == bal[k as int],
                running == b0.balance + sum_range(acts, m as int, j as int),
                adjusted == bi.balance - sum_range(acts, j_before as int, j as int),
                running_before == b0.balance + sum_range(acts, m as int, j_before as int),
            decreases na - j,
        {
            let a = series.action[j];
            proof {
                lemma_sum_range_bound(acts, m as int, j as int);
                lemma_sum_range_bound(acts, j_before as int, j as int);
                assert(acts[j as int].date.key() >= acts[m as int].date.key());
                assert((j - m) * 0x8000000000000000 <= 0x1000000000000000
                    * 0x8000000000000000) by (nonlinear_arith)
                    requires
                        0 <= j - m <= 0x1000000000000000,
                ;
                assert((j - j_before) * 0x8000000000000000 <= 0x1000000000000000
                    * 0x8000000000000000) by (nonlinear_arith)
                    requires
                        0 <= j - j_before <= 0x1000000000000000,
                ;
            }
            running = running + a.change as i128;
            adjusted = adjusted - a.change as i128;
            j = j + 1;
        }
        proof {
            lemma_sum_range_bound(acts, m as int, j as int);
            lemma_sum_range_bound(acts, j_before as int, j as int);
            assert(forall|q: int|
                j <= q < na ==> (#[trigger] acts[q]).date.key() >= bi.date.key());
            lemma_sum_flows_is_range(acts, b0.date, bi.date, m as int, j as int);
            assert(sum_range(acts, m as int, j as int) == sum_range(acts, m as int, j_before as int)
                + sum_range(acts, j_before as int, j as int)) by {
                lemma_sum_range_split(acts, m as int, j_before as int, j as int);
            }
        }
        let variation1 = adjusted - running_before;
        let variation2 = bi.balance as i128 - running;
        let pick = if abs128(variation1) > abs128(variation2) {
            variation2
        } else {
            variation1
        };
        proof {
            assert(variation1 == variation2);
            assert(pick == bi.balance - b0.balance - sum_flows(acts, b0.date, bi.date));
        }
        let ghost vlen = v@.len();
        v.push((bi.date, pick));
        proof {
            assert(v@ =~= v@.take(vlen as int).push((bi.date, pick)));
            assert(v@[vlen as int].1 as int == variation_val(series@, start, vlen as int));
        }
        i = i + 1;
        proof {
            if i < nb {
                let ghost bik = bal[i as int].date.key();
                assert forall|q: int|
                    m <= q < j implies (#[trigger] acts[q]).date.key() < bik by {
                    assert(bal[i - 1].date.key() <= bal[i as int].date.key());
                }
            }
        }
    }
    Some(v)
}

proof fn lemma_sum_range_split(acts: Seq<Action>, m: int, mid: int, j: int)
    requires
        0 <= m <= mid <= j <= acts.len(),
    ensures
        sum_range(acts, m, j) == sum_range(acts, m, mid) + sum_range(acts, mid, j),
    decreases j - mid,
{
    if mid < j {
        lemma_sum_range_split(acts, m, mid, j - 1);
    }
}

fn abs128(x: i128) -> (r: i128)
    requires
        x > i128::MIN,
    ensures
        r == (if x >= 0 {
            x as int
        } else {
            -(x as int)
        }),
{
    if x >= 0 {
        x
    } else {
        -x
    }
}

/// Consolidated window figures across all funds with a balance in the
/// window.
pub struct Consolidated {
    /// Sum of the included funds' latest balances.
    pub balance: i128,
    /// Sum of initial balances plus all flows from each initial date on.
    pub investment: i128,
    /// `balance - investment`.
    pub profit: i128,
}

/// Per-series units that bound the consolidated sums.
pub open spec fn series_units(s: SeriesModel) -> nat {
    2 + s.action.len()
}

pub open spec fn table_units(t: Seq<SeriesModel>) -> nat
    decreases t.len(),
{
    if t.len() == 0 {
        0
    } else {
        table_units(t.drop_last()) + series_units(t.last())
    }
}

/// The pair (balance sum, investment sum) over a prefix of the ledger.
pub open spec fn consolidated_spec(t: Seq<SeriesModel>, start: Date) -> (int, int)
    decreases t.len(),
{
    if t.len() == 0 {
        (0, 0)
    } else {
        let (b, v) = consolidated_spec(t.drop_last(), start);
        let s = t.last();
        if first_bal_ge(s.balance, start) < s.balance.len() {
            let init = s.balance[first_bal_ge(s.balance, start)];
            (
                b + s.balance.last().balance,
                v + init.balance + sum_flows_from(s.action, init.date),
            )
        } else {
            (b, v)
        }
    }
}

proof fn lemma_sum_flows_from_bound(acts: Seq<Action>, lo: Date)
    ensures
        -(acts.len() as int) * 0x8000000000000000 <= sum_flows_from(acts, lo) <= (
        acts.len() as int) * 0x8000000000000000,
    decreases acts.len(),
{
    if acts.len() > 0 {
        lemma_sum_flows_from_bound(acts.drop_last(), lo);
        assert((acts.len() as int) * 0x8000000000000000 == (acts.len() - 1)
            * 0x8000000000000000 + 0x8000000000000000) by (nonlinear_arith);
    }
}

proof fn lemma_consolidated_bound(t: Seq<SeriesModel>, start: Date)
    ensures
        ({
            let (b, v) = consolidated_spec(t, start);
            -(table_units(t) as int) * 0x8000000000000000 <= b <= (table_units(t) as int)
                * 0x8000000000000000 && -(table_units(t) as int) * 0x8000000000000000 <= v <= (
            table_units(t) as int) * 0x8000000000000000
        }),
    decreases t.len(),
{
    if t.len() > 0 {
        lemma_consolidated_bound(t.drop_last(), start);
        let s = t.last();
        lemma_sum_flows_from_bound(s.action, s.balance[first_bal_ge(s.balance, start)].date);
        assert((table_units(t) as int) * 0x8000000000000000 == (table_units(
            t.drop_last(),
        ) as int) * 0x8000000000000000 + (series_units(s) as int) * 0x8000000000000000)
            by (nonlinear_arith)
            requires
                table_units(t) == table_units(t.drop_last()) + series_units(s),
        ;
        assert((series_units(s) as int) * 0x8000000000000000 == 2 * 0x8000000000000000 + (
        s.action.len() as int) * 0x8000000000000000) by (nonlinear_arith)
            requires
                series_units(s) == 2 + s.action.len(),
        ;
    }
}

/// Computes the window's consolidated figures: total latest balance,
/// total invested (initial balances plus later flows), and their
/// difference, the consolidated profit.
///
/// The unit bound is far beyond what memory can hold; it keeps the sums
/// within the accumulator type.
pub fn consolidated(table: &Table, start: Date) -> (r: Consolidated)
    requires
        table_units(table@) <= 0x1000000000000000,
    ensures
        r.balance == consolidated_spec(table@, start).0,
        r.investment == consolidated_spec(table@, start).1,
        r.profit == r.balance - r.investment,
{
    let n = table.table.len();
    let mut bal_sum: i128 = 0;
    let mut inv_sum: i128 = 0;
    let mut i: usize = 0;
    proof {
        assert(table@.take(0) =~= Seq::<SeriesModel>::empty());
    }
    while i < n
        invariant
            0 <= i <= n,
            n == table@.len(),
            table@.len() == table.table@.len(),
            table_units(table@) <= 0x1000000000000000,
            bal_sum == consolidated_spec(table@.take(i as int), start).0,
            inv_sum == consolidated_spec(table@.take(i as int), start).1,
        decreases n - i,
    {
        proof {
            assert(table@.take(i + 1).drop_last() =~= table@.take(i as int));
            assert(table@.take(i + 1).last() == table@[i as int]);
            lemma_consolidated_bound(table@.take(i as int), start);
            lemma_table_units_prefix(table@, i + 1);
            lemma_table_units_prefix_mono(table@, i as int, i + 1);
            assert(table@[i as int] == table.table@[i as int]@);
        }
        let series = &table.table[i];
        let nb = series.balance.len();
        let start_key = date_key64(start);
        let mut k: usize = 0;
        while k < nb && date_key64(series.balance[k].date) < start_key
            invariant
                0 <= k <= nb,
                nb == series@.balance.len(),
                start_key == start.key(),
                forall|q: int|
                    0 <= q < k ==> (#[trigger] series@.balance[q]).date.key() < start.key(),
            decreases nb - k,
        {
            k = k + 1;
        }
        proof {
            lemma_first_bal_ge_at(series@.balance, start, k as int);
        }
        if k < nb {
            let init = series.balance[k];
            let init_key = date_key64(init.date);
            let na = series.action.len();
            let mut flows: i128 = 0;
            let mut q: usize = 0;
            proof {
                assert(series@.action.take(0) =~= Seq::<Action>::empty());
            }
            while q < na
                invariant
                    0 <= q <= na,
                    na == series@.action.len(),
                    init_key == init.date.key(),
                    flows == sum_flows_from(series@.action.take(q as int), init.date),
                    -(q as int) * 0x8000000000000000 <= flows <= (q as int)
                        * 0x8000000000000000,
                decreases na - q,
            {
                proof {
                    assert(series@.action.take(q + 1).drop_last() =~= series@.action.take(
                        q as int,
                    ));
                    assert(series@.action.take(q + 1).last() == series@.action[q as int]);
                    assert((q + 1) * 0x8000000000000000 == q * 0x8000000000000000
                        + 0x8000000000000000) by (nonlinear_arith);
                }
                let a = series.action[q];
                if date_key64(a.date) >= init_key {
                    flows = flows + a.change as i128;
                }
                q = q + 1;
            }
            proof {
                assert(series@.action.take(na as int) =~= series@.action);
                assert(series_units(table@[i as int]) <= table_units(table@.take(i + 1)))
                    by {
                    lemma_table_units_last(table@.take(i + 1));
                }
                lemma_consolidated_bound(table@.take(i + 1), start);
            }
            let last = series.balance[nb - 1];
            bal_sum = bal_sum + last.balance as i128;
            inv_sum = inv_sum + init.balance as i128 + flows;
            proof {
                assert(series@.balance.last() == series@.balance[nb - 1]);
            }
        }
        i = i + 1;
    }
    proof {
        assert(table@.take(n as int) =~= table@);
        lemma_consolidated_bound(table@, start);
        assert((table_units(table@) as int) * 0x8000000000000000 <= 0x1000000000000000
            * 0x8000000000000000) by (nonlinear_arith)
            requires
                table_units(table@) <= 0x1000000000000000,
        ;
    }
    Consolidated { balance: bal_sum, investment: inv_sum, profit: bal_sum - inv_sum }
}

proof fn lemma_table_units_last(t: Seq<SeriesModel>)
    requires
        t.len() > 0,
    ensures
        series_units(t.last()) <= table_units(t),
{
}

proof fn lemma_table_units_prefix(t: Seq<SeriesModel>, i: int)
    requires
        0 <= i <= t.len(),
    ensures
        table_units(t.take(i)) <= table_units(t),
    decreases t.len(),
{
    if i < t.len() {
        lemma_table_units_prefix(t.drop_last(), i);
        assert(t.drop_last().take(i) =~= t.take(i));
    } else {
        assert(t.take(i) =~= t);
    }
}

proof fn lemma_table_units_prefix_mono(t: Seq<SeriesModel>, i: int, j: int)
    requires
        0 <= i <= j <= t.len(),
    ensures
        table_units(t.take(i)) <= table_units(t.take(j)),
{
    lemma_table_units_prefix(t.take(j), i);
    assert(t.take(j).take(i) =~= t.take(i));
}

/// The unit-value series of the window: each published unit value from the
/// first record on or after `start`, or nothing when there is none.  The
/// series is not flow-adjusted: unit pricing already excludes flows.
pub fn unit_series(series: &Series, start: Date) -> (r: Option<Vec<(Date, i64)>>)
    ensures
        r is Some <==> first_fv_ge(series@.fund_value, start) < series@.fund_value.len(),
        r matches Some(v) ==> {
            let k = first_fv_ge(series@.fund_value, start);
            &&& v@.len() == series@.fund_value.len() - k
            &&& forall|q: int|
                0 <= q < v@.len() ==> (#[trigger] v@[q]).0 == series@.fund_value[k + q].date
                    && v@[q].1 == series@.fund_value[k + q].unit_value
        },
{
    let nf = series.fund_value.len();
    let start_key = date_key64(start);
    let mut k: usize = 0;
    while k < nf && date_key64(series.fund_value[k].date) < start_key
        invariant
            0 <= k <= nf,
            nf == series@.fund_value.len(),
            start_key == start.key(),
            forall|i: int|
                0 <= i < k ==> (#[trigger] series@.fund_value[i]).date.key() < start.key(),
        decreases nf - k,
    {
        k = k + 1;
    }
    proof {
        lemma_first_fv_ge_at(series@.fund_value, start, k as int);
    }
    if k == nf {
        return None;
    }
    let mut v: Vec<(Date, i64)> = Vec::new();
    let mut i: usize = k;
    while i < nf
        invariant
            k <= i <= nf,
            nf == series@.fund_value.len(),
            k == first_fv_ge(series@.fund_value, start),
            v@.len() == i - k,
            forall|q: int|
                0 <= q < v@.len() ==> (#[trigger] v@[q]).0 == series@.fund_value[k + q].date
                    && v@[q].1 == series@.fund_value[k + q].unit_value,
        decreases nf - i,
    {
        let fv = series.fund_value[i];
        v.push((fv.date, fv.unit_value));
        i = i + 1;
    }
    Some(v)
}

/// How many chart columns a row of lookback windows needs: half their
/// count, rounded up.
pub fn columns(n_durations: usize) -> (r: usize)
    ensures
        r == n_durations / 2 + n_durations % 2,
{
    n_durations / 2 + n_durations % 2
}

} // verus!
