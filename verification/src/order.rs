//! Keeping each fund's records in date order, and trimming the ledger to
//! a recent window before plotting.

use vstd::prelude::*;
use crate::date::Date;
use crate::ledger::{Action, Balance, FundValue, Series, SeriesModel, Table};

verus! {

/// Full ordering of balance records: by date, then by the remaining
/// fields, so equal-dated records sort deterministically.
pub open spec fn balance_le(a: Balance, b: Balance) -> bool {
    a.date.key() < b.date.key() || (a.date.key() == b.date.key() && (a.balance <= b.balance))
}

fn balance_le_exec(a: &Balance, b: &Balance) -> (r: bool)
    ensures
        r == balance_le(*a, *b),
{
    let ka = a.date.year as u64 * 10000 + a.date.month as u64 * 100 + a.date.day as u64;
    let kb = b.date.year as u64 * 10000 + b.date.month as u64 * 100 + b.date.day as u64;
    ka < kb || (ka == kb && (a.balance <= b.balance))
}

proof fn lemma_balance_le_total(a: Balance, b: Balance)
    ensures
        balance_le(a, b) || balance_le(b, a),
{
}

proof fn lemma_balance_le_trans(a: Balance, b: Balance, c: Balance)
    requires
        balance_le(a, b),
        balance_le(b, c),
    ensures
        balance_le(a, c),
{
}

/// Nondecreasing in the full record order.
pub open spec fn balances_sorted(s: Seq<Balance>) -> bool {
    forall|i: int, j: int| 0 <= i <= j < s.len() ==> balance_le(#[trigger] s[i], #[trigger] s[j])
}

/// Sorts the records by date (ties broken by the other fields), keeping
/// exactly the same multiset of records.
pub fn sort_balances(v: &mut Vec<Balance>)
    ensures
        balances_sorted(final(v)@),
        final(v)@.to_multiset() == old(v)@.to_multiset(),
        final(v)@.len() == old(v)@.len(),
{
    broadcast use vstd::seq_lib::group_to_multiset_ensures;
    broadcast use vstd::multiset::group_multiset_axioms;

    let ghost orig = v@;
    let mut out: Vec<Balance> = Vec::new();
    proof {
        assert(out@.to_multiset().add(v@.to_multiset()) =~= orig.to_multiset());
    }
    while v.len() > 0
        invariant
            out@.to_multiset().add(v@.to_multiset()) =~= orig.to_multiset(),
            out@.len() + v@.len() == orig.len(),
            balances_sorted(out@),
            forall|p: int, q: int|
                0 <= p < out@.len() && 0 <= q < v@.len() ==> balance_le(
                    #[trigger] out@[p],
                    #[trigger] v@[q],
                ),
        decreases v.len(),
    {
        let n = v.len();
        let mut best: usize = 0;
        let mut q: usize = 1;
        while q < n
            invariant
                0 <= best < q <= n,
                n == v@.len(),
                forall|p: int| 0 <= p < q ==> balance_le(v@[best as int], #[trigger] v@[p]),
            decreases n - q,
        {
            if balance_le_exec(&v[q], &v[best]) {
                proof {
                    assert forall|p: int|
                        0 <= p < q + 1 implies balance_le(v@[q as int], #[trigger] v@[p]) by {
                        if p < q {
                            lemma_balance_le_trans(v@[q as int], v@[best as int], v@[p]);
                        }
                    }
                }
                best = q;
            } else {
                proof {
                    lemma_balance_le_total(v@[q as int], v@[best as int]);
                }
            }
            q = q + 1;
        }
        let ghost vpre = v@;
        let ghost outpre = out@;
        let x = v.remove(best);
        out.push(x);
        proof {
            broadcast use vstd::seq_lib::group_to_multiset_ensures;
            broadcast use vstd::multiset::group_multiset_axioms;

            assert(vpre[best as int] == x);
            assert(vpre.contains(x));
            assert(vpre.to_multiset().count(x) > 0);
            assert(out@.to_multiset() =~= outpre.to_multiset().insert(x));
            assert(v@.to_multiset() =~= vpre.to_multiset().remove(x));
            assert(outpre.to_multiset().insert(x).add(vpre.to_multiset().remove(x))
                =~= outpre.to_multiset().add(vpre.to_multiset()));
            assert(out@.to_multiset().add(v@.to_multiset()) =~= orig.to_multiset());
            assert forall|p: int, q2: int|
                0 <= p < out@.len() && 0 <= q2 < v@.len() implies balance_le(
                #[trigger] out@[p],
                #[trigger] v@[q2],
            ) by {
                if p < outpre.len() {
                    if q2 < best {
                        assert(v@[q2] == vpre[q2]);
                    } else {
                        assert(v@[q2] == vpre[q2 + 1]);
                    }
                } else {
                    assert(out@[p] == x);
                    if q2 < best {
                        assert(v@[q2] == vpre[q2]);
                    } else {
                        assert(v@[q2] == vpre[q2 + 1]);
                    }
                }
            }
            assert forall|i: int, j: int|
                0 <= i <= j < out@.len() implies balance_le(
                #[trigger] out@[i],
                #[trigger] out@[j],
            ) by {
                if j < outpre.len() {
                } else {
                    if i < outpre.len() {
                        assert(balance_le(outpre[i], vpre[best as int]));
                    } else {
                        lemma_balance_le_total(x, x);
                    }
                }
            }
        }
    }
    *v = out;
}

/// Full ordering of action records: by date, then by the remaining
/// fields, so equal-dated records sort deterministically.
pub open spec fn action_le(a: Action, b: Action) -> bool {
    a.date.key() < b.date.key() || (a.date.key() == b.date.key() && (a.change <= b.change))
}

fn action_le_exec(a: &Action, b: &Action) -> (r: bool)
    ensures
        r == action_le(*a, *b),
{
    let ka = a.date.year as u64 * 10000 + a.date.month as u64 * 100 + a.date.day as u64;
    let kb = b.date.year as u64 * 10000 + b.date.month as u64 * 100 + b.date.day as u64;
    ka < kb || (ka == kb && (a.change <= b.change))
}

proof fn lemma_action_le_total(a: Action, b: Action)
    ensures
        action_le(a, b) || action_le(b, a),
{
}

proof fn lemma_action_le_trans(a: Action, b: Action, c: Action)
    requires
        action_le(a, b),
        action_le(b, c),
    ensures
        action_le(a, c),
{
}

/// Nondecreasing in the full record order.
pub open spec fn actions_sorted(s: Seq<Action>) -> bool {
    forall|i: int, j: int| 0 <= i <= j < s.len() ==> action_le(#[trigger] s[i], #[trigger] s[j])
}

/// Sorts the records by date (ties broken by the other fields), keeping
/// exactly the same multiset of records.
pub fn sort_actions(v: &mut Vec<Action>)
    ensures
        actions_sorted(final(v)@),
        final(v)@.to_multiset() == old(v)@.to_multiset(),
        final(v)@.len() == old(v)@.len(),
{
    broadcast use vstd::seq_lib::group_to_multiset_ensures;
    broadcast use vstd::multiset::group_multiset_axioms;

    let ghost orig = v@;
    let mut out: Vec<Action> = Vec::new();
    proof {
        assert(out@.to_multiset().add(v@.to_multiset()) =~= orig.to_multiset());
    }
    while v.len() > 0
        invariant
            out@.to_multiset().add(v@.to_multiset()) =~= orig.to_multiset(),
            out@.len() + v@.len() == orig.len(),
            actions_sorted(out@),
            forall|p: int, q: int|
                0 <= p < out@.len() && 0 <= q < v@.len() ==> action_le(
                    #[trigger] out@[p],
                    #[trigger] v@[q],
                ),
        decreases v.len(),
    {
        let n = v.len();
        let mut best: usize = 0;
        let mut q: usize = 1;
        while q < n
            invariant
                0 <= best < q <= n,
                n == v@.len(),
                forall|p: int| 0 <= p < q ==> action_le(v@[best as int], #[trigger] v@[p]),
            decreases n - q,
        {
            if action_le_exec(&v[q], &v[best]) {
                proof {
                    assert forall|p: int|
                        0 <= p < q + 1 implies action_le(v@[q as int], #[trigger] v@[p]) by {
                        if p < q {
                            lemma_action_le_trans(v@[q as int], v@[best as int], v@[p]);
                        }
                    }
                }
                best = q;
            } else {
                proof {
                    lemma_action_le_total(v@[q as int], v@[best as int]);
                }
            }
            q = q + 1;
        }
        let ghost vpre = v@;
        let ghost outpre = out@;
        let x = v.remove(best);
        out.push(x);
        proof {
            broadcast use vstd::seq_lib::group_to_multiset_ensures;
            broadcast use vstd::multiset::group_multiset_axioms;

            assert(vpre[best as int] == x);
            assert(vpre.contains(x));
            assert(vpre.to_multiset().count(x) > 0);
            assert(out@.to_multiset() =~= outpre.to_multiset().insert(x));
            assert(v@.to_multiset() =~= vpre.to_multiset().remove(x));
            assert(outpre.to_multiset().insert(x).add(vpre.to_multiset().remove(x))
                =~= outpre.to_multiset().add(vpre.to_multiset()));
            assert(out@.to_multiset().add(v@.to_multiset()) =~= orig.to_multiset());
            assert forall|p: int, q2: int|
                0 <= p < out@.len() && 0 <= q2 < v@.len() implies action_le(
                #[trigger] out@[p],
                #[trigger] v@[q2],
            ) by {
                if p < outpre.len() {
                    if q2 < best {
                        assert(v@[q2] == vpre[q2]);
                    } else {
                        assert(v@[q2] == vpre[q2 + 1]);
                    }
                } else {
                    assert(out@[p] == x);
                    if q2 < best {
                        assert(v@[q2] == vpre[q2]);
                    } else {
                        assert(v@[q2] == vpre[q2 + 1]);
                    }
                }
            }
            assert forall|i: int, j: int|
                0 <= i <= j < out@.len() implies action_le(
                #[trigger] out@[i],
                #[trigger] out@[j],
            ) by {
                if j < outpre.len() {
                } else {
                    if i < outpre.len() {
                        assert(action_le(outpre[i], vpre[best as int]));
                    } else {
                        lemma_action_le_total(x, x);
                    }
                }
            }
        }
    }
    *v = out;
}

/// Full ordering of fund-value records: by date, then by the remaining
/// fields, so equal-dated records sort deterministically.
pub open spec fn fund_value_le(a: FundValue, b: FundValue) -> bool {
    a.date.key() < b.date.key() || (a.date.key() == b.date.key() && (a.fund_value < b.fund_value || (a.fund_value == b.fund_value && a.unit_value <= b.unit_value)))
}

fn fund_value_le_exec(a: &FundValue, b: &FundValue) -> (r: bool)
    ensures
        r == fund_value_le(*a, *b),
{
    let ka = a.date.year as u64 * 10000 + a.date.month as u64 * 100 + a.date.day as u64;
    let kb = b.date.year as u64 * 10000 + b.date.month as u64 * 100 + b.date.day as u64;
    ka < kb || (ka == kb && (a.fund_value < b.fund_value || (a.fund_value == b.fund_value && a.unit_value <= b.unit_value)))
}

proof fn lemma_fund_value_le_total(a: FundValue, b: FundValue)
    ensures
        fund_value_le(a, b) || fund_value_le(b, a),
{
}

proof fn lemma_fund_value_le_trans(a: FundValue, b: FundValue, c: FundValue)
    requires
        fund_value_le(a, b),
        fund_value_le(b, c),
    ensures
        fund_value_le(a, c),
{
}

/// Nondecreasing in the full record order.
pub open spec fn fund_values_sorted(s: Seq<FundValue>) -> bool {
    forall|i: int, j: int| 0 <= i <= j < s.len() ==> fund_value_le(#[trigger] s[i], #[trigger] s[j])
}

/// Sorts the records by date (ties broken by the other fields), keeping
/// exactly the same multiset of records.
pub fn sort_fund_values(v: &mut Vec<FundValue>)
    ensures
        fund_values_sorted(final(v)@),
        final(v)@.to_multiset() == old(v)@.to_multiset(),
        final(v)@.len() == old(v)@.len(),
{
    broadcast use vstd::seq_lib::group_to_multiset_ensures;
    broadcast use vstd::multiset::group_multiset_axioms;

    let ghost orig = v@;
    let mut out: Vec<FundValue> = Vec::new();
    proof {
        assert(out@.to_multiset().add(v@.to_multiset()) =~= orig.to_multiset());
    }
    while v.len() > 0
        invariant
            out@.to_multiset().add(v@.to_multiset()) =~= orig.to_multiset(),
            out@.len() + v@.len() == orig.len(),
            fund_values_sorted(out@),
            forall|p: int, q: int|
                0 <= p < out@.len() && 0 <= q < v@.len() ==> fund_value_le(
                    #[trigger] out@[p],
                    #[trigger] v@[q],
                ),
        decreases v.len(),
    {
        let n = v.len();
        let mut best: usize = 0;
        let mut q: usize = 1;
        while q < n
            invariant
                0 <= best < q <= n,
                n == v@.len(),
                forall|p: int| 0 <= p < q ==> fund_value_le(v@[best as int], #[trigger] v@[p]),
            decreases n - q,
        {
            if fund_value_le_exec(&v[q], &v[best]) {
                proof {
                    assert forall|p: int|
                        0 <= p < q + 1 implies fund_value_le(v@[q as int], #[trigger] v@[p]) by {
                        if p < q {
                            lemma_fund_value_le_trans(v@[q as int], v@[best as int], v@[p]);
                        }
                    }
                }
                best = q;
            } else {
                proof {
                    lemma_fund_value_le_total(v@[q as int], v@[best as int]);
                }
            }
            q = q + 1;
        }
        let ghost vpre = v@;
        let ghost outpre = out@;
        let x = v.remove(best);
        out.push(x);
        proof {
            broadcast use vstd::seq_lib::group_to_multiset_ensures;
            broadcast use vstd::multiset::group_multiset_axioms;

            assert(vpre[best as int] == x);
            assert(vpre.contains(x));
            assert(vpre.to_multiset().count(x) > 0);
            assert(out@.to_multiset() =~= outpre.to_multiset().insert(x));
            assert(v@.to_multiset() =~= vpre.to_multiset().remove(x));
            assert(outpre.to_multiset().insert(x).add(vpre.to_multiset().remove(x))
                =~= outpre.to_multiset().add(vpre.to_multiset()));
            assert(out@.to_multiset().add(v@.to_multiset()) =~= orig.to_multiset());
            assert forall|p: int, q2: int|
                0 <= p < out@.len() && 0 <= q2 < v@.len() implies fund_value_le(
                #[trigger] out@[p],
                #[trigger] v@[q2],
            ) by {
                if p < outpre.len() {
                    if q2 < best {
                        assert(v@[q2] == vpre[q2]);
                    } else {
                        assert(v@[q2] == vpre[q2 + 1]);
                    }
                } else {
                    assert(out@[p] == x);
                    if q2 < best {
                        assert(v@[q2] == vpre[q2]);
                    } else {
                        assert(v@[q2] == vpre[q2 + 1]);
                    }
                }
            }
            assert forall|i: int, j: int|
                0 <= i <= j < out@.len() implies fund_value_le(
                #[trigger] out@[i],
                #[trigger] out@[j],
            ) by {
                if j < outpre.len() {
                } else {
                    if i < outpre.len() {
                        assert(fund_value_le(outpre[i], vpre[best as int]));
                    } else {
                        lemma_fund_value_le_total(x, x);
                    }
                }
            }
        }
    }
    *v = out;
}

/// A full-order sorted balance list is in particular date-sorted, as the
/// return engine requires.
pub proof fn lemma_balances_sorted_dates(s: Seq<Balance>)
    requires
        balances_sorted(s),
    ensures
        crate::engine::sorted_balances(s),
{
}

pub proof fn lemma_actions_sorted_dates(s: Seq<Action>)
    requires
        actions_sorted(s),
    ensures
        crate::engine::sorted_actions(s),
{
}

pub proof fn lemma_fund_values_sorted_dates(s: Seq<FundValue>)
    requires
        fund_values_sorted(s),
    ensures
        crate::engine::sorted_fund_values(s),
{
}

/// Sorts every series' record lists by date, leaving names and the record
/// multisets untouched.
pub fn sort_table(table: &mut Table)
    ensures
        final(table)@.len() == old(table)@.len(),
        forall|i: int|
            0 <= i < old(table)@.len() ==> {
                &&& (#[trigger] final(table)@[i]).fund == old(table)@[i].fund
                &&& balances_sorted(final(table)@[i].balance)
                &&& actions_sorted(final(table)@[i].action)
                &&& fund_values_sorted(final(table)@[i].fund_value)
                &&& final(table)@[i].balance.to_multiset() == old(
                    table,
                )@[i].balance.to_multiset()
                &&& final(table)@[i].action.to_multiset() == old(table)@[i].action.to_multiset()
                &&& final(table)@[i].fund_value.to_multiset() == old(
                    table,
                )@[i].fund_value.to_multiset()
            },
{
    let n = table.table.len();
    let ghost pre = table@;
    let mut i: usize = 0;
    while i < n
        invariant
            0 <= i <= n,
            n == table@.len(),
            table@.len() == table.table@.len(),
            pre.len() == n,
            forall|k: int| i <= k < n ==> #[trigger] table@[k] == pre[k],
            forall|k: int|
                0 <= k < i ==> {
                    &&& (#[trigger] table@[k]).fund == pre[k].fund
                    &&& balances_sorted(table@[k].balance)
                    &&& actions_sorted(table@[k].action)
                    &&& fund_values_sorted(table@[k].fund_value)
                    &&& table@[k].balance.to_multiset() == pre[k].balance.to_multiset()
                    &&& table@[k].action.to_multiset() == pre[k].action.to_multiset()
                    &&& table@[k].fund_value.to_multiset() == pre[k].fund_value.to_multiset()
                },
        decreases n - i,
    {
        let ghost before = table@;
        let series = &mut table.table[i];
        sort_balances(&mut series.balance);
        sort_actions(&mut series.action);
        sort_fund_values(&mut series.fund_value);
        proof {
            assert(table@ =~= before.update(
                i as int,
                SeriesModel {
                    fund: before[i as int].fund,
                    balance: series.balance@,
                    action: series.action@,
                    fund_value: series.fund_value@,
                },
            ));
        }
        i = i + 1;
    }
}

/// The record-retention predicates of the recent window.
pub open spec fn keeps_balance(min_date: Date) -> spec_fn(Balance) -> bool {
    |b: Balance| b.date.key() >= min_date.key()
}

pub open spec fn keeps_action(min_date: Date) -> spec_fn(Action) -> bool {
    |a: Action| a.date.key() >= min_date.key()
}

pub open spec fn keeps_fund_value(min_date: Date) -> spec_fn(FundValue) -> bool {
    |f: FundValue| f.date.key() >= min_date.key()
}

/// Drops every record older than `min_date` from every series, as the
/// plotting stage wants only the recent window.
pub fn retain_recent(table: &mut Table, min_date: Date)
    ensures
        final(table)@.len() == old(table)@.len(),
        forall|i: int|
            0 <= i < old(table)@.len() ==> {
                &&& (#[trigger] final(table)@[i]).fund == old(table)@[i].fund
                &&& final(table)@[i].balance == old(table)@[i].balance.filter(
                    keeps_balance(min_date),
                )
                &&& final(table)@[i].action == old(table)@[i].action.filter(
                    keeps_action(min_date),
                )
                &&& final(table)@[i].fund_value == old(table)@[i].fund_value.filter(
                    keeps_fund_value(min_date),
                )
            },
{
    let n = table.table.len();
    let ghost pre = table@;
    let mut i: usize = 0;
    while i < n
        invariant
            0 <= i <= n,
            n == table@.len(),
            table@.len() == table.table@.len(),
            pre.len() == n,
            forall|k: int| i <= k < n ==> #[trigger] table@[k] == pre[k],
            forall|k: int|
                0 <= k < i ==> {
                    &&& (#[trigger] table@[k]).fund == pre[k].fund
                    &&& table@[k].balance == pre[k].balance.filter(keeps_balance(min_date))
                    &&& table@[k].action == pre[k].action.filter(keeps_action(min_date))
                    &&& table@[k].fund_value == pre[k].fund_value.filter(
                        keeps_fund_value(min_date),
                    )
                },
        decreases n - i,
    {
        let ghost before = table@;
        let series = &mut table.table[i];
        retain_balances(&mut series.balance, min_date);
        retain_actions(&mut series.action, min_date);
        retain_fund_values(&mut series.fund_value, min_date);
        proof {
            assert(table@ =~= before.update(
                i as int,
                SeriesModel {
                    fund: before[i as int].fund,
                    balance: series.balance@,
                    action: series.action@,
                    fund_value: series.fund_value@,
                },
            ));
        }
        i = i + 1;
    }
}

fn retain_balances(v: &mut Vec<Balance>, min_date: Date)
    ensures
        final(v)@ == old(v)@.filter(keeps_balance(min_date)),
{
    let n = v.len();
    let mut out: Vec<Balance> = Vec::new();
    let mut i: usize = 0;
    proof {
        reveal_with_fuel(Seq::<_>::filter, 2);
        assert(out@ =~= v@.take(0).filter(keeps_balance(min_date)));
    }
    while i < n
        invariant
            0 <= i <= n,
            n == v@.len(),
            out@ == v@.take(i as int).filter(keeps_balance(min_date)),
        decreases n - i,
    {
        proof {
            reveal_with_fuel(Seq::<_>::filter, 2);
            assert(v@.take(i + 1).drop_last() =~= v@.take(i as int));
            assert(v@.take(i + 1).last() == v@[i as int]);
        }
        let b = v[i];
        let k = b.date.year as u64 * 10000 + b.date.month as u64 * 100 + b.date.day as u64;
        let km = min_date.year as u64 * 10000 + min_date.month as u64 * 100
            + min_date.day as u64;
        if k >= km {
            out.push(b);
        }
        i = i + 1;
    }
    proof {
        assert(v@.take(n as int) =~= v@);
    }
    *v = out;
}

fn retain_actions(v: &mut Vec<Action>, min_date: Date)
    ensures
        final(v)@ == old(v)@.filter(keeps_action(min_date)),
{
    let n = v.len();
    let mut out: Vec<Action> = Vec::new();
    let mut i: usize = 0;
    proof {
        reveal_with_fuel(Seq::<_>::filter, 2);
        assert(out@ =~= v@.take(0).filter(keeps_action(min_date)));
    }
    while i < n
        invariant
            0 <= i <= n,
            n == v@.len(),
            out@ == v@.take(i as int).filter(keeps_action(min_date)),
        decreases n - i,
    {
        proof {
            reveal_with_fuel(Seq::<_>::filter, 2);
            assert(v@.take(i + 1).drop_last() =~= v@.take(i as int));
            assert(v@.take(i + 1).last() == v@[i as int]);
        }
        let a = v[i];
        let k = a.date.year as u64 * 10000 + a.date.month as u64 * 100 + a.date.day as u64;
        let km = min_date.year as u64 * 10000 + min_date.month as u64 * 100
            + min_date.day as u64;
        if k >= km {
            out.push(a);
        }
        i = i + 1;
    }
    proof {
        assert(v@.take(n as int) =~= v@);
    }
    *v = out;
}

fn retain_fund_values(v: &mut Vec<FundValue>, min_date: Date)
    ensures
        final(v)@ == old(v)@.filter(keeps_fund_value(min_date)),
{
    let n = v.len();
    let mut out: Vec<FundValue> = Vec::new();
    let mut i: usize = 0;
    proof {
        reveal_with_fuel(Seq::<_>::filter, 2);
        assert(out@ =~= v@.take(0).filter(keeps_fund_value(min_date)));
    }
    while i < n
        invariant
            0 <= i <= n,
            n == v@.len(),
            out@ == v@.take(i as int).filter(keeps_fund_value(min_date)),
        decreases n - i,
    {
        proof {
            reveal_with_fuel(Seq::<_>::filter, 2);
            assert(v@.take(i + 1).drop_last() =~= v@.take(i as int));
            assert(v@.take(i + 1).last() == v@[i as int]);
        }
        let f = v[i];
        let k = f.date.year as u64 * 10000 + f.date.month as u64 * 100 + f.date.day as u64;
        let km = min_date.year as u64 * 10000 + min_date.month as u64 * 100
            + min_date.day as u64;
        if k >= km {
            out.push(f);
        }
        i = i + 1;
    }
    proof {
        assert(v@.take(n as int) =~= v@);
    }
    *v = out;
}

} // verus!
