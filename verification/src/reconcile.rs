//! Reconciliation of transaction rows into the ledger's action multisets.
//!
//! Pasted report pages may overlap, and one fund may genuinely receive two
//! identical cash flows on one day, so neither "append always" nor "insert
//! if absent" is right.  The rule here: group the incoming batch by (fund,
//! date, change) signature, compare each signature's batch multiplicity
//! with what the ledger already stores for that fund, and append exactly
//! the shortfall.  The stored multiplicity of every signature thus becomes
//! the maximum of what was stored and what this batch shows — never less,
//! never inflated by re-pasting the same page.

use vstd::prelude::*;
use crate::date::Date;
use crate::ledger::{Action, Balance, FundValue, Series, SeriesModel, Table, find_fund};
use crate::text::str_eq;

verus! {

/// One parsed transaction row: the fund it belongs to and the signed flow.
pub struct ActionRow {
    /// Normalised fund name.
    pub fund: String,
    pub action: Action,
}

pub ghost struct ActionRowModel {
    pub fund: Seq<char>,
    pub action: Action,
}

impl View for ActionRow {
    type V = ActionRowModel;

    open spec fn view(&self) -> ActionRowModel {
        ActionRowModel { fund: self.fund@, action: self.action }
    }
}

pub open spec fn nat_max(a: nat, b: nat) -> nat {
    if a >= b {
        a
    } else {
        b
    }
}

/// How many times `a` occurs in `s`.
pub open spec fn count_in(s: Seq<Action>, a: Action) -> nat
    decreases s.len(),
{
    if s.len() == 0 {
        0
    } else {
        count_in(s.drop_last(), a) + (if s.last() == a {
            1nat
        } else {
            0nat
        })
    }
}

/// How many rows of the batch carry this fund and action signature.
pub open spec fn batch_count(rows: Seq<ActionRowModel>, fund: Seq<char>, a: Action) -> nat
    decreases rows.len(),
{
    if rows.len() == 0 {
        0
    } else {
        batch_count(rows.drop_last(), fund, a) + (if rows.last().fund == fund
            && rows.last().action == a {
            1nat
        } else {
            0nat
        })
    }
}

/// Whether any name in `ns` equals `n`.
pub open spec fn contains_name(ns: Seq<Seq<char>>, n: Seq<char>) -> bool {
    exists|i: int| 0 <= i < ns.len() && ns[i] == n
}

pub open spec fn names_of(t: Seq<SeriesModel>) -> Seq<Seq<char>> {
    t.map_values(|s: SeriesModel| s.fund)
}

/// The batch's fund names not yet in the ledger, in first-appearance order.
pub open spec fn new_funds(ns: Seq<Seq<char>>, rows: Seq<ActionRowModel>) -> Seq<Seq<char>>
    decreases rows.len(),
{
    if rows.len() == 0 {
        Seq::empty()
    } else if contains_name(ns, rows[0].fund) {
        new_funds(ns, rows.drop_first())
    } else {
        seq![rows[0].fund] + new_funds(ns.push(rows[0].fund), rows.drop_first())
    }
}

/// Whether series `i` is the first with its name; rows always land on the
/// first series of their fund.
pub open spec fn is_first_occ(t: Seq<SeriesModel>, i: int) -> bool {
    forall|k: int| 0 <= k < i ==> t[k].fund != t[i].fund
}

/// Multiplicity stored for `(i, a)` before the batch; new series start
/// empty.
pub open spec fn pre_count(pre: Seq<SeriesModel>, i: int, a: Action) -> nat {
    if i < pre.len() {
        count_in(pre[i].action, a)
    } else {
        0
    }
}

/// How a batch of action rows reconciles a ledger `pre` into `post`:
/// unknown funds appear as fresh series in first-appearance order; nothing
/// else about balances or fund values moves; existing action records stay
/// in place; and for every signature, the stored multiplicity on the
/// fund's (first) series becomes the maximum of the stored and the batch
/// multiplicity.
pub open spec fn actions_reconciled(
    pre: Seq<SeriesModel>,
    post: Seq<SeriesModel>,
    rows: Seq<ActionRowModel>,
) -> bool {
    let nf = new_funds(names_of(pre), rows);
    &&& post.len() == pre.len() + nf.len()
    &&& forall|i: int|
        0 <= i < pre.len() ==> {
            &&& (#[trigger] post[i]).fund == pre[i].fund
            &&& post[i].balance == pre[i].balance
            &&& post[i].fund_value == pre[i].fund_value
            &&& pre[i].action.len() <= post[i].action.len()
            &&& post[i].action.take(pre[i].action.len() as int) == pre[i].action
        }
    &&& forall|i: int|
        pre.len() <= i < post.len() ==> {
            &&& (#[trigger] post[i]).fund == nf[i - pre.len()]
            &&& post[i].balance == Seq::<Balance>::empty()
            &&& post[i].fund_value == Seq::<FundValue>::empty()
        }
    &&& forall|i: int, a: Action|
        0 <= i < post.len() ==> #[trigger] count_in(post[i].action, a) == (if is_first_occ(
            post,
            i,
        ) {
            nat_max(pre_count(pre, i, a), batch_count(rows, post[i].fund, a))
        } else {
            pre_count(pre, i, a)
        })
}

/// Counts the action records equal to `a`.
fn count_actions(s: &Vec<Action>, a: Action) -> (r: usize)
    ensures
        r == count_in(s@, a),
{
    let n = s.len();
    let mut r: usize = 0;
    let mut i: usize = 0;
    while i < n
        invariant
            0 <= i <= n,
            n == s@.len(),
            r == count_in(s@.take(i as int), a),
            r <= i,
        decreases n - i,
    {
        proof {
            assert(s@.take(i + 1).drop_last() =~= s@.take(i as int));
            assert(s@.take(i + 1).last() == s@[i as int]);
        }
        if s[i] == a {
            r = r + 1;
        }
        i = i + 1;
    }
    proof {
        assert(s@.take(n as int) =~= s@);
    }
    r
}

/// One distinct batch signature: a representative row and how many rows of
/// the batch share its fund and action.
struct BatchEntry {
    row: usize,
    count: usize,
}

/// Whether a signature equals the signature of entry `e`.
spec fn entry_sig_is(
    rows: Seq<ActionRowModel>,
    e: BatchEntry,
    fund: Seq<char>,
    a: Action,
) -> bool {
    rows[e.row as int].fund == fund && rows[e.row as int].action == a
}

/// Whether one of the first `upto` entries carries this signature.
spec fn sig_processed(
    es: Seq<BatchEntry>,
    upto: int,
    rows: Seq<ActionRowModel>,
    fund: Seq<char>,
    a: Action,
) -> bool {
    exists|x: int| 0 <= x < upto && x < es.len() && entry_sig_is(rows, es[x], fund, a)
}

/// Ingests a batch of transaction rows, reconciling repeated signatures as
/// the module description says.
pub fn ingest_actions(table: &mut Table, rows: &Vec<ActionRow>)
    ensures
        actions_reconciled(
            old(table)@,
            final(table)@,
            rows@.map_values(|r: ActionRow| r@),
        ),
{
    let ghost rms = rows@.map_values(|r: ActionRow| r@);
    let ghost pre = table@;
    let n = rows.len();
    // First pass: make sure every fund named by the batch has a series,
    // creating empty ones in first-appearance order.
    let mut k: usize = 0;
    proof {
        assert(rms.skip(0) =~= rms);
        assert(names_of(pre) + Seq::<Seq<char>>::empty() =~= names_of(pre));
    }
    while k < n
        invariant
            0 <= k <= n,
            n == rows@.len(),
            rms == rows@.map_values(|r: ActionRow| r@),
            table@.len() >= pre.len(),
            forall|i: int|
                0 <= i < pre.len() ==> #[trigger] table@[i].fund == pre[i].fund && table@[i].balance
                    == pre[i].balance && table@[i].fund_value == pre[i].fund_value
                    && table@[i].action == pre[i].action,
            forall|i: int|
                pre.len() <= i < table@.len() ==> (#[trigger] table@[i]).balance == Seq::<
                    Balance,
                >::empty() && table@[i].fund_value == Seq::<FundValue>::empty() && table@[i].action
                    == Seq::<Action>::empty(),
            names_of(table@) =~= names_of(pre) + new_funds_so_far(pre, table@),
            new_funds(names_of(pre), rms) =~= new_funds_so_far(pre, table@) + new_funds(
                names_of(table@),
                rms.skip(k as int),
            ),
            forall|j: int|
                0 <= j < k ==> contains_name(names_of(table@), #[trigger] rms[j].fund),
        decreases n - k,
    {
        proof {
            assert(rms.skip(k as int)[0] == rms[k as int]);
            assert(rms.skip(k as int).drop_first() =~= rms.skip(k + 1));
        }
        let ghost before = table@;
        match find_fund(table, rows[k].fund.as_str()) {
            Some(i) => {
                proof {
                    assert(names_of(before)[i as int] == before[i as int].fund);
                    assert(contains_name(names_of(before), rms[k as int].fund));
                    assert(forall|j: int|
                        0 <= j < k + 1 ==> contains_name(
                            names_of(table@),
                            #[trigger] rms[j].fund,
                        ));
                }
            },
            None => {
                proof {
                    crate::ledger::lemma_first_fund_props(before, rms[k as int].fund);
                    assert(!contains_name(names_of(before), rms[k as int].fund));
                }
                let s = Series {
                    fund: rows[k].fund.clone(),
                    balance: Vec::new(),
                    action: Vec::new(),
                    fund_value: Vec::new(),
                };
                table.table.push(s);
                proof {
                    assert(table@ =~= before.push(
                        SeriesModel {
                            fund: rms[k as int].fund,
                            balance: Seq::empty(),
                            action: Seq::empty(),
                            fund_value: Seq::empty(),
                        },
                    ));
                    assert(names_of(table@) =~= names_of(before).push(rms[k as int].fund));
                    assert(new_funds_so_far(pre, table@) =~= new_funds_so_far(pre, before).push(
                        rms[k as int].fund,
                    ));
                    assert(names_of(pre) + new_funds_so_far(pre, table@) =~= (names_of(pre)
                        + new_funds_so_far(pre, before)).push(rms[k as int].fund));
                    assert(new_funds(names_of(before), rms.skip(k as int)) == seq![
                        rms[k as int].fund,
                    ] + new_funds(names_of(before).push(rms[k as int].fund), rms.skip(k + 1)));
                    assert(new_funds(names_of(table@), rms.skip(k + 1)) == new_funds(
                        names_of(before).push(rms[k as int].fund),
                        rms.skip(k + 1),
                    ));
                    assert(new_funds_so_far(pre, table@) + new_funds(
                        names_of(table@),
                        rms.skip(k + 1),
                    ) =~= new_funds_so_far(pre, before) + (seq![rms[k as int].fund] + new_funds(
                        names_of(before).push(rms[k as int].fund),
                        rms.skip(k + 1),
                    )));
                    assert forall|j: int| 0 <= j < k + 1 implies contains_name(
                        names_of(table@),
                        #[trigger] rms[j].fund,
                    ) by {
                        if j < k {
                            lemma_contains_push(names_of(before), rms[k as int].fund, rms[j].fund);
                            assert(names_of(table@) =~= names_of(before).push(rms[k as int].fund));
                        } else {
                            assert(names_of(table@)[table@.len() - 1] == rms[k as int].fund);
                        }
                    }
                }
            },
        }
        k = k + 1;
    }
    proof {
        assert(rms.skip(n as int) =~= Seq::<ActionRowModel>::empty());
        assert(new_funds(names_of(table@), rms.skip(n as int)) =~= Seq::<Seq<char>>::empty());
        assert(new_funds_so_far(pre, table@) + Seq::<Seq<char>>::empty() =~= new_funds_so_far(
            pre,
            table@,
        ));
        assert(new_funds(names_of(pre), rms) =~= new_funds_so_far(pre, table@));
    }
    let ghost mid = table@;
    // Second pass: group the batch by signature, counting multiplicities.
    let mut entries: Vec<BatchEntry> = Vec::new();
    let mut k2: usize = 0;
    while k2 < n
        invariant
            0 <= k2 <= n,
            n == rows@.len(),
            rms == rows@.map_values(|r: ActionRow| r@),
            forall|x: int|
                0 <= x < entries@.len() ==> (#[trigger] entries@[x]).row < k2 && entries@[x].count
                    == batch_count(
                    rms.take(k2 as int),
                    rms[entries@[x].row as int].fund,
                    rms[entries@[x].row as int].action,
                ) && entries@[x].count >= 1,
            forall|x: int, y: int|
                0 <= x < y < entries@.len() ==> !entry_sig_is(
                    rms,
                    #[trigger] entries@[y],
                    rms[(#[trigger] entries@[x]).row as int].fund,
                    rms[entries@[x].row as int].action,
                ),
            forall|j: int|
                0 <= j < k2 ==> sig_processed(
                    entries@,
                    entries@.len() as int,
                    rms,
                    (#[trigger] rms[j]).fund,
                    rms[j].action,
                ),
        decreases n - k2,
    {
        let mut e: usize = 0;
        let ne = entries.len();
        let mut found: bool = false;
        while e < ne && !found
            invariant
                0 <= e <= ne,
                ne == entries@.len(),
                n == rows@.len(),
                k2 < n,
                rms == rows@.map_values(|r: ActionRow| r@),
                forall|x: int| 0 <= x < entries@.len() ==> (#[trigger] entries@[x]).row < k2,
                !found ==> forall|x: int|
                    0 <= x < e ==> !entry_sig_is(
                        rms,
                        #[trigger] entries@[x],
                        rms[k2 as int].fund,
                        rms[k2 as int].action,
                    ),
                found ==> e < ne && entry_sig_is(
                    rms,
                    entries@[e as int],
                    rms[k2 as int].fund,
                    rms[k2 as int].action,
                ),
            decreases ne - e + (if found { 0int } else { 1int }),
        {
            let er = entries[e].row;
            if str_eq(rows[er].fund.as_str(), rows[k2].fund.as_str()) && rows[er].action
                == rows[k2].action {
                found = true;
            } else {
                e = e + 1;
            }
        }
        proof {
            assert(rms.take(k2 + 1).drop_last() =~= rms.take(k2 as int));
            assert(rms.take(k2 + 1).last() == rms[k2 as int]);
        }
        if found {
            let c = entries[e].count;
            proof {
                lemma_batch_count_len(
                    rms.take(k2 as int),
                    rms[entries@[e as int].row as int].fund,
                    rms[entries@[e as int].row as int].action,
                );
            }
            let ghost old_entries = entries@;
            let entry = &mut entries[e];
            entry.count = c + 1;
            proof {
                assert(entries@ =~= old_entries.update(
                    e as int,
                    BatchEntry { row: old_entries[e as int].row, count: (c + 1) as usize },
                ));
                assert forall|j: int| 0 <= j < k2 + 1 implies sig_processed(
                    entries@,
                    entries@.len() as int,
                    rms,
                    (#[trigger] rms[j]).fund,
                    rms[j].action,
                ) by {
                    if j < k2 {
                        let x = choose|x: int|
                            0 <= x < old_entries.len() && entry_sig_is(
                                rms,
                                old_entries[x],
                                rms[j].fund,
                                rms[j].action,
                            );
                        assert(entries@[x].row == old_entries[x].row);
                        assert(entry_sig_is(rms, entries@[x], rms[j].fund, rms[j].action));
                    } else {
                        assert(entry_sig_is(rms, entries@[e as int], rms[j].fund, rms[j].action));
                    }
                }
            }
        } else {
            proof {
                lemma_batch_count_unseen(
                    rms,
                    k2 as int,
                    rms[k2 as int].fund,
                    rms[k2 as int].action,
                );
            }
            let ghost old_entries = entries@;
            entries.push(BatchEntry { row: k2, count: 1 });
            proof {
                assert(entries@ =~= old_entries.push(BatchEntry { row: k2, count: 1 }));
                assert forall|j: int| 0 <= j < k2 + 1 implies sig_processed(
                    entries@,
                    entries@.len() as int,
                    rms,
                    (#[trigger] rms[j]).fund,
                    rms[j].action,
                ) by {
                    if j < k2 {
                        let x = choose|x: int|
                            0 <= x < old_entries.len() && entry_sig_is(
                                rms,
                                old_entries[x],
                                rms[j].fund,
                                rms[j].action,
                            );
                        assert(entries@[x].row == old_entries[x].row);
                        assert(entry_sig_is(rms, entries@[x], rms[j].fund, rms[j].action));
                    } else {
                        assert(entry_sig_is(
                            rms,
                            entries@[entries@.len() - 1],
                            rms[j].fund,
                            rms[j].action,
                        ));
                    }
                }
            }
        }
        k2 = k2 + 1;
    }
    proof {
        assert(rms.take(n as int) =~= rms);
    }
    // Third pass: append each signature's shortfall to its fund's series.
    let ne = entries.len();
    let mut e: usize = 0;
    while e < ne
        invariant
            0 <= e <= ne,
            ne == entries@.len(),
            n == rows@.len(),
            rms == rows@.map_values(|r: ActionRow| r@),
            mid.len() == table@.len(),
            forall|x: int|
                0 <= x < entries@.len() ==> (#[trigger] entries@[x]).row < n && entries@[x].count
                    == batch_count(
                    rms,
                    rms[entries@[x].row as int].fund,
                    rms[entries@[x].row as int].action,
                ),
            forall|x: int, y: int|
                0 <= x < y < entries@.len() ==> !entry_sig_is(
                    rms,
                    #[trigger] entries@[y],
                    rms[(#[trigger] entries@[x]).row as int].fund,
                    rms[entries@[x].row as int].action,
                ),
            forall|j: int|
                0 <= j < n ==> sig_processed(
                    entries@,
                    entries@.len() as int,
                    rms,
                    (#[trigger] rms[j]).fund,
                    rms[j].action,
                ),
            forall|j: int|
                0 <= j < n ==> contains_name(names_of(table@), #[trigger] rms[j].fund),
            forall|i: int|
                0 <= i < mid.len() ==> {
                    &&& (#[trigger] table@[i]).fund == mid[i].fund
                    &&& table@[i].balance == mid[i].balance
                    &&& table@[i].fund_value == mid[i].fund_value
                    &&& mid[i].action.len() <= table@[i].action.len()
                    &&& table@[i].action.take(mid[i].action.len() as int) == mid[i].action
                },
            forall|i: int, a: Action|
                0 <= i < mid.len() ==> #[trigger] count_in(table@[i].action, a) == (if is_first_occ(
                    table@,
                    i,
                ) && sig_processed(entries@, e as int, rms, table@[i].fund, a) {
                    nat_max(count_in(mid[i].action, a), batch_count(rms, table@[i].fund, a))
                } else {
                    count_in(mid[i].action, a)
                }),
        decreases ne - e,
    {
        let er = entries[e].row;
        let batch = entries[e].count;
        let ghost fund_name = rms[er as int].fund;
        let act = rows[er].action;
        let ghost before = table@;
        match find_fund(table, rows[er].fund.as_str()) {
            None => {
                proof {
                    crate::ledger::lemma_first_fund_props(table@, fund_name);
                    assert(contains_name(names_of(table@), fund_name));
                    let i = choose|i: int|
                        0 <= i < names_of(table@).len() && names_of(table@)[i] == fund_name;
                    assert(table@[i].fund == fund_name);
                    assert(false);
                }
            },
            Some(i) => {
                let series = &mut table.table[i];
                let stored = count_actions(&series.action, act);
                proof {
                    assert(!sig_processed(entries@, e as int, rms, fund_name, act)) by {
                        if sig_processed(entries@, e as int, rms, fund_name, act) {
                            let x = choose|x: int|
                                0 <= x < e && x < entries@.len() && entry_sig_is(
                                    rms,
                                    entries@[x],
                                    fund_name,
                                    act,
                                );
                            assert(entry_sig_is(rms, entries@[e as int], rms[entries@[x].row as int].fund, rms[entries@[x].row as int].action));
                        }
                    }
                }
                let mut add: usize = 0;
                if batch > stored {
                    add = batch - stored;
                }
                let ghost start_actions = series.action@;
                let mut p: usize = 0;
                while p < add
                    invariant
                        0 <= p <= add,
                        0 <= i < before.len(),
                        series.fund@ == before[i as int].fund,
                        series.balance@ == before[i as int].balance,
                        series.fund_value@ == before[i as int].fund_value,
                        series.action@ =~= start_actions + Seq::new(
                            p as nat,
                            |q: int| act,
                        ),
                    decreases add - p,
                {
                    let ghost prev = series.action@;
                    series.action.push(act);
                    proof {
                        assert(series.action@ =~= start_actions + Seq::new(
                            (p + 1) as nat,
                            |q: int| act,
                        ));
                    }
                    p = p + 1;
                }
                proof {
                    lemma_count_repeat(start_actions, act, add as nat);
                    assert(table@ =~= before.update(
                        i as int,
                        SeriesModel { action: series.action@, ..before[i as int] },
                    ));
                    assert(names_of(table@) =~= names_of(before));
                    lemma_third_pass_step(
                        before,
                        table@,
                        mid,
                        rms,
                        entries@,
                        e as int,
                        i as int,
                        act,
                        add as nat,
                        stored as nat,
                        batch as nat,
                    );
                }
            },
        }
        e = e + 1;
    }
    proof {
        lemma_final_counts(table@, mid, pre, rms, entries@);
    }
}

proof fn lemma_contains_push(ns: Seq<Seq<char>>, x: Seq<char>, n: Seq<char>)
    requires
        contains_name(ns, n),
    ensures
        contains_name(ns.push(x), n),
{
    let i = choose|i: int| 0 <= i < ns.len() && ns[i] == n;
    assert(ns.push(x)[i] == n);
}

/// The ledger names that were appended past `pre`.
pub open spec fn new_funds_so_far(pre: Seq<SeriesModel>, cur: Seq<SeriesModel>) -> Seq<Seq<char>> {
    names_of(cur).skip(pre.len() as int)
}

proof fn lemma_batch_count_len(rows: Seq<ActionRowModel>, f: Seq<char>, a: Action)
    ensures
        batch_count(rows, f, a) <= rows.len(),
    decreases rows.len(),
{
    if rows.len() > 0 {
        lemma_batch_count_len(rows.drop_last(), f, a);
    }
}

proof fn lemma_batch_count_unseen(rows: Seq<ActionRowModel>, k: int, f: Seq<char>, a: Action)
    requires
        0 <= k <= rows.len(),
        forall|j: int| 0 <= j < k ==> !(rows[j].fund == f && rows[j].action == a),
    ensures
        batch_count(rows.take(k), f, a) == 0,
    decreases k,
{
    if k > 0 {
        lemma_batch_count_unseen(rows, k - 1, f, a);
        assert(rows.take(k).drop_last() =~= rows.take(k - 1));
        assert(rows.take(k).last() == rows[k - 1]);
    }
}

proof fn lemma_count_concat(s1: Seq<Action>, s2: Seq<Action>, a: Action)
    ensures
        count_in(s1 + s2, a) == count_in(s1, a) + count_in(s2, a),
    decreases s2.len(),
{
    if s2.len() == 0 {
        assert(s1 + s2 =~= s1);
    } else {
        lemma_count_concat(s1, s2.drop_last(), a);
        assert((s1 + s2).drop_last() =~= s1 + s2.drop_last());
        assert((s1 + s2).last() == s2.last());
    }
}

proof fn lemma_count_repeat(s: Seq<Action>, act: Action, m: nat)
    ensures
        count_in(s + Seq::new(m, |q: int| act), act) == count_in(s, act) + m,
    decreases m,
{
    let rep = Seq::new(m, |q: int| act);
    if m == 0 {
        assert(s + rep =~= s);
    } else {
        lemma_count_repeat(s, act, (m - 1) as nat);
        assert((s + rep).drop_last() =~= s + Seq::new((m - 1) as nat, |q: int| act));
        assert((s + rep).last() == act);
    }
}

proof fn lemma_count_repeat_other(s: Seq<Action>, act: Action, m: nat, b: Action)
    requires
        b != act,
    ensures
        count_in(s + Seq::new(m, |q: int| act), b) == count_in(s, b),
    decreases m,
{
    let rep = Seq::new(m, |q: int| act);
    if m == 0 {
        assert(s + rep =~= s);
    } else {
        lemma_count_repeat_other(s, act, (m - 1) as nat, b);
        assert((s + rep).drop_last() =~= s + Seq::new((m - 1) as nat, |q: int| act));
        assert((s + rep).last() == act);
    }
}

#[verifier::rlimit(60)]
proof fn lemma_third_pass_step(
    before: Seq<SeriesModel>,
    cur: Seq<SeriesModel>,
    mid: Seq<SeriesModel>,
    rms: Seq<ActionRowModel>,
    es: Seq<BatchEntry>,
    e: int,
    i: int,
    act: Action,
    add: nat,
    stored: nat,
    batch: nat,
)
    requires
        0 <= e < es.len(),
        es[e].row < rms.len(),
        rms[es[e].row as int].fund == before[i].fund,
        rms[es[e].row as int].action == act,
        batch == es[e].count,
        batch == batch_count(rms, before[i].fund, act),
        forall|x: int, y: int|
            0 <= x < y < es.len() ==> !entry_sig_is(
                rms,
                #[trigger] es[y],
                rms[(#[trigger] es[x]).row as int].fund,
                rms[es[x].row as int].action,
            ),
        mid.len() == before.len(),
        0 <= i < before.len(),
        is_first_occ(before, i) || i == 0,
        forall|k: int| 0 <= k < i ==> before[k].fund != before[i].fund,
        stored == count_in(before[i].action, act),
        add == (if batch > stored {
            batch - stored
        } else {
            0
        }),
        cur =~= before.update(
            i,
            SeriesModel {
                action: before[i].action + Seq::new(add, |q: int| act),
                ..before[i]
            },
        ),
        forall|x: int|
            0 <= x < mid.len() ==> {
                &&& (#[trigger] before[x]).fund == mid[x].fund
                &&& before[x].balance == mid[x].balance
                &&& before[x].fund_value == mid[x].fund_value
                &&& mid[x].action.len() <= before[x].action.len()
                &&& before[x].action.take(mid[x].action.len() as int) == mid[x].action
            },
        forall|x: int, a: Action|
            0 <= x < mid.len() ==> #[trigger] count_in(before[x].action, a) == (if is_first_occ(
                before,
                x,
            ) && sig_processed(es, e, rms, before[x].fund, a) {
                nat_max(count_in(mid[x].action, a), batch_count(rms, before[x].fund, a))
            } else {
                count_in(mid[x].action, a)
            }),
        !sig_processed(es, e, rms, before[i].fund, act),
    ensures
        cur.len() == mid.len(),
        forall|x: int|
            0 <= x < mid.len() ==> {
                &&& (#[trigger] cur[x]).fund == mid[x].fund
                &&& cur[x].balance == mid[x].balance
                &&& cur[x].fund_value == mid[x].fund_value
                &&& mid[x].action.len() <= cur[x].action.len()
                &&& cur[x].action.take(mid[x].action.len() as int) == mid[x].action
            },
        forall|x: int, a: Action|
            0 <= x < mid.len() ==> #[trigger] count_in(cur[x].action, a) == (if is_first_occ(
                cur,
                x,
            ) && sig_processed(es, e + 1, rms, cur[x].fund, a) {
                nat_max(count_in(mid[x].action, a), batch_count(rms, cur[x].fund, a))
            } else {
                count_in(mid[x].action, a)
            }),
{
    let rep = Seq::new(add, |q: int| act);
    lemma_count_repeat(before[i].action, act, add);
    assert(cur[i].action =~= before[i].action + rep);
    assert(cur[i].action.take(mid[i].action.len() as int) =~= before[i].action.take(
        mid[i].action.len() as int,
    ));
    assert(forall|x: int| 0 <= x < cur.len() && x != i ==> cur[x] == before[x]);
    assert(forall|x: int| 0 <= x < cur.len() ==> (#[trigger] cur[x]).fund == before[x].fund);
    assert(forall|x: int|
        0 <= x < cur.len() ==> (is_first_occ(cur, x) <==> is_first_occ(before, x)));
    assert forall|x: int, a: Action|
        0 <= x < mid.len() implies #[trigger] count_in(cur[x].action, a) == (if is_first_occ(
        cur,
        x,
    ) && sig_processed(es, e + 1, rms, cur[x].fund, a) {
        nat_max(count_in(mid[x].action, a), batch_count(rms, cur[x].fund, a))
    } else {
        count_in(mid[x].action, a)
    }) by {
        if x == i {
            if sig_processed(es, e, rms, before[i].fund, act) {
                assert(false);
            }
            assert(count_in(cur[i].action, act) == stored + add);
            assert(count_in(mid[i].action, act) == stored) by {
                if is_first_occ(before, i) && sig_processed(es, e, rms, before[i].fund, act) {
                    assert(false);
                }
            }
            if a == act {
                assert(sig_processed(es, e + 1, rms, cur[i].fund, act)) by {
                    assert(entry_sig_is(rms, es[e], cur[i].fund, act));
                }
                assert(count_in(cur[i].action, act) == nat_max(stored, batch));
            } else {
                lemma_count_repeat_other(before[i].action, act, add, a);
                assert(count_in(cur[i].action, a) == count_in(before[i].action, a));
                if sig_processed(es, e + 1, rms, cur[i].fund, a) {
                    let x0 = choose|x0: int|
                        0 <= x0 < e + 1 && x0 < es.len() && entry_sig_is(
                            rms,
                            es[x0],
                            cur[i].fund,
                            a,
                        );
                    if x0 == e {
                        assert(rms[es[e].row as int].action == act);
                        assert(false);
                    }
                    assert(sig_processed(es, e, rms, before[i].fund, a));
                }
            }
        } else {
            assert(cur[x].action == before[x].action);
            if sig_processed(es, e + 1, rms, cur[x].fund, a) != sig_processed(
                es,
                e,
                rms,
                before[x].fund,
                a,
            ) {
                // the new entry e carries this signature
                assert(sig_processed(es, e + 1, rms, cur[x].fund, a));
                let x0 = choose|x0: int|
                    0 <= x0 < e + 1 && x0 < es.len() && entry_sig_is(rms, es[x0], cur[x].fund, a);
                assert(x0 == e);
                assert(cur[x].fund == before[i].fund);
                // same fund name at two indices: only the first is first-occ
                if is_first_occ(cur, x) {
                    if x < i {
                        assert(before[x].fund != before[i].fund);
                        assert(false);
                    } else {
                        assert(cur[i].fund == cur[x].fund);
                        assert(false);
                    }
                }
            }
        }
    }
}

#[verifier::rlimit(60)]
proof fn lemma_final_counts(
    cur: Seq<SeriesModel>,
    mid: Seq<SeriesModel>,
    pre: Seq<SeriesModel>,
    rms: Seq<ActionRowModel>,
    es: Seq<BatchEntry>,
)
    requires
        mid.len() == cur.len(),
        forall|x: int|
            0 <= x < es.len() ==> (#[trigger] es[x]).row < rms.len(),
        forall|j: int|
            0 <= j < rms.len() ==> sig_processed(
                es,
                es.len() as int,
                rms,
                (#[trigger] rms[j]).fund,
                rms[j].action,
            ),
        forall|x: int|
            0 <= x < mid.len() ==> {
                &&& (#[trigger] cur[x]).fund == mid[x].fund
                &&& cur[x].balance == mid[x].balance
                &&& cur[x].fund_value == mid[x].fund_value
                &&& mid[x].action.len() <= cur[x].action.len()
                &&& cur[x].action.take(mid[x].action.len() as int) == mid[x].action
            },
        forall|x: int, a: Action|
            0 <= x < mid.len() ==> #[trigger] count_in(cur[x].action, a) == (if is_first_occ(
                cur,
                x,
            ) && sig_processed(es, es.len() as int, rms, cur[x].fund, a) {
                nat_max(count_in(mid[x].action, a), batch_count(rms, cur[x].fund, a))
            } else {
                count_in(mid[x].action, a)
            }),
        // phase-one facts relating mid to pre
        mid.len() >= pre.len(),
        forall|i: int|
            0 <= i < pre.len() ==> #[trigger] mid[i].fund == pre[i].fund && mid[i].balance
                == pre[i].balance && mid[i].fund_value == pre[i].fund_value && mid[i].action
                == pre[i].action,
        forall|i: int|
            pre.len() <= i < mid.len() ==> (#[trigger] mid[i]).balance == Seq::<Balance>::empty()
                && mid[i].fund_value == Seq::<FundValue>::empty() && mid[i].action == Seq::<
                Action,
            >::empty(),
        names_of(mid) =~= names_of(pre) + new_funds(names_of(pre), rms),
    ensures
        actions_reconciled(pre, cur, rms),
{
    let nf = new_funds(names_of(pre), rms);
    assert(names_of(mid).len() == mid.len());
    assert(names_of(pre).len() == pre.len());
    assert(cur.len() == pre.len() + nf.len());
    assert forall|i: int|
        pre.len() <= i < cur.len() implies {
        &&& (#[trigger] cur[i]).fund == nf[i - pre.len()]
        &&& cur[i].balance == Seq::<Balance>::empty()
        &&& cur[i].fund_value == Seq::<FundValue>::empty()
    } by {
        assert(names_of(mid)[i] == mid[i].fund);
        assert((names_of(pre) + nf)[i] == nf[i - pre.len()]);
    }
    assert forall|i: int, a: Action|
        0 <= i < cur.len() implies #[trigger] count_in(cur[i].action, a) == (if is_first_occ(
        cur,
        i,
    ) {
        nat_max(pre_count(pre, i, a), batch_count(rms, cur[i].fund, a))
    } else {
        pre_count(pre, i, a)
    }) by {
        assert(count_in(Seq::<Action>::empty(), a) == 0);
        if is_first_occ(cur, i) {
            if sig_processed(es, es.len() as int, rms, cur[i].fund, a) {
                assert(count_in(cur[i].action, a) == nat_max(
                    count_in(mid[i].action, a),
                    batch_count(rms, cur[i].fund, a),
                ));
            } else {
                // no entry for this signature: the batch has no such row
                lemma_no_sig_no_rows(rms, es, cur[i].fund, a);
                assert(batch_count(rms, cur[i].fund, a) == 0);
                assert(count_in(cur[i].action, a) == count_in(mid[i].action, a));
            }
            if i < pre.len() {
                assert(count_in(mid[i].action, a) == pre_count(pre, i, a));
            } else {
                assert(count_in(mid[i].action, a) == 0);
            }
        } else {
            assert(count_in(cur[i].action, a) == count_in(mid[i].action, a));
        }
    }
}

proof fn lemma_batch_pos_exists(rms: Seq<ActionRowModel>, f: Seq<char>, a: Action)
    ensures
        batch_count(rms, f, a) > 0 ==> exists|j: int|
            0 <= j < rms.len() && (#[trigger] rms[j]).fund == f && rms[j].action == a,
    decreases rms.len(),
{
    if rms.len() > 0 {
        lemma_batch_pos_exists(rms.drop_last(), f, a);
        if batch_count(rms, f, a) > 0 {
            if rms.last().fund == f && rms.last().action == a {
                assert(rms[rms.len() - 1].fund == f && rms[rms.len() - 1].action == a);
            } else {
                let j = choose|j: int|
                    0 <= j < rms.len() - 1 && (#[trigger] rms.drop_last()[j]).fund == f
                        && rms.drop_last()[j].action == a;
                assert(rms[j].fund == f && rms[j].action == a);
            }
        }
    }
}

proof fn lemma_no_sig_no_rows(
    rms: Seq<ActionRowModel>,
    es: Seq<BatchEntry>,
    f: Seq<char>,
    a: Action,
)
    requires
        forall|j: int|
            0 <= j < rms.len() ==> sig_processed(
                es,
                es.len() as int,
                rms,
                (#[trigger] rms[j]).fund,
                rms[j].action,
            ),
        !sig_processed(es, es.len() as int, rms, f, a),
    ensures
        batch_count(rms, f, a) == 0,
{
    lemma_batch_pos_exists(rms, f, a);
    if batch_count(rms, f, a) > 0 {
        let j = choose|j: int|
            0 <= j < rms.len() && (#[trigger] rms[j]).fund == f && rms[j].action == a;
        assert(sig_processed(es, es.len() as int, rms, rms[j].fund, rms[j].action));
        assert(false);
    }
}


proof fn lemma_rows_contained(ns: Seq<Seq<char>>, rows: Seq<ActionRowModel>)
    ensures
        forall|j: int|
            0 <= j < rows.len() ==> contains_name(
                ns + new_funds(ns, rows),
                (#[trigger] rows[j]).fund,
            ),
    decreases rows.len(),
{
    if rows.len() > 0 {
        let f0 = rows[0].fund;
        if contains_name(ns, f0) {
            lemma_rows_contained(ns, rows.drop_first());
            assert forall|j: int|
                0 <= j < rows.len() implies contains_name(
                ns + new_funds(ns, rows),
                (#[trigger] rows[j]).fund,
            ) by {
                if j == 0 {
                    let i = choose|i: int| 0 <= i < ns.len() && ns[i] == f0;
                    assert((ns + new_funds(ns, rows))[i] == f0);
                } else {
                    assert(rows.drop_first()[j - 1] == rows[j]);
                    let i = choose|i: int|
                        0 <= i < (ns + new_funds(ns, rows.drop_first())).len() && (ns + new_funds(
                            ns,
                            rows.drop_first(),
                        ))[i] == rows[j].fund;
                    assert((ns + new_funds(ns, rows))[i] == rows[j].fund);
                }
            }
        } else {
            lemma_rows_contained(ns.push(f0), rows.drop_first());
            let nf2 = new_funds(ns.push(f0), rows.drop_first());
            assert(ns + new_funds(ns, rows) =~= ns.push(f0) + nf2);
            assert forall|j: int|
                0 <= j < rows.len() implies contains_name(
                ns + new_funds(ns, rows),
                (#[trigger] rows[j]).fund,
            ) by {
                if j == 0 {
                    assert((ns.push(f0) + nf2)[ns.len() as int] == f0);
                } else {
                    assert(rows.drop_first()[j - 1] == rows[j]);
                }
            }
        }
    }
}

proof fn lemma_nf_empty(ns: Seq<Seq<char>>, rows: Seq<ActionRowModel>)
    requires
        forall|j: int| 0 <= j < rows.len() ==> contains_name(ns, (#[trigger] rows[j]).fund),
    ensures
        new_funds(ns, rows) == Seq::<Seq<char>>::empty(),
    decreases rows.len(),
{
    if rows.len() > 0 {
        assert(forall|j: int|
            0 <= j < rows.len() - 1 ==> rows.drop_first()[j] == #[trigger] rows[j + 1]);
        assert forall|j: int|
            0 <= j < rows.drop_first().len() implies contains_name(
            ns,
            (#[trigger] rows.drop_first()[j]).fund,
        ) by {
            assert(rows.drop_first()[j] == rows[j + 1]);
        }
        lemma_nf_empty(ns, rows.drop_first());
    }
}

proof fn lemma_nf_fresh(ns: Seq<Seq<char>>, rows: Seq<ActionRowModel>)
    ensures
        forall|q: int|
            0 <= q < new_funds(ns, rows).len() ==> !contains_name(
                ns,
                #[trigger] new_funds(ns, rows)[q],
            ),
    decreases rows.len(),
{
    if rows.len() > 0 {
        let f0 = rows[0].fund;
        if contains_name(ns, f0) {
            lemma_nf_fresh(ns, rows.drop_first());
            assert(new_funds(ns, rows) == new_funds(ns, rows.drop_first()));
            assert forall|q: int|
                0 <= q < new_funds(ns, rows).len() implies !contains_name(
                ns,
                #[trigger] new_funds(ns, rows)[q],
            ) by {
                assert(new_funds(ns, rows)[q] == new_funds(ns, rows.drop_first())[q]);
            }
        } else {
            lemma_nf_fresh(ns.push(f0), rows.drop_first());
            let nf2 = new_funds(ns.push(f0), rows.drop_first());
            assert forall|q: int|
                0 <= q < new_funds(ns, rows).len() implies !contains_name(
                ns,
                #[trigger] new_funds(ns, rows)[q],
            ) by {
                if q == 0 {
                    assert(new_funds(ns, rows)[0] == f0);
                } else {
                    assert(new_funds(ns, rows)[q] == nf2[q - 1]);
                    assert(!contains_name(ns.push(f0), nf2[q - 1]));
                    if contains_name(ns, nf2[q - 1]) {
                        let i = choose|i: int| 0 <= i < ns.len() && ns[i] == nf2[q - 1];
                        assert(ns.push(f0)[i] == nf2[q - 1]);
                        assert(false);
                    }
                }
            }
        }
    }
}

proof fn lemma_nf_split(ns: Seq<Seq<char>>, r1: Seq<ActionRowModel>, r2: Seq<ActionRowModel>)
    ensures
        new_funds(ns, r1 + r2) =~= new_funds(ns, r1) + new_funds(ns + new_funds(ns, r1), r2),
    decreases r1.len(),
{
    if r1.len() == 0 {
        assert(r1 + r2 =~= r2);
        assert(ns + new_funds(ns, r1) =~= ns);
        assert(new_funds(ns, r1) + new_funds(ns, r2) =~= new_funds(ns, r2));
    } else {
        let f0 = r1[0].fund;
        assert((r1 + r2)[0] == r1[0]);
        assert((r1 + r2).drop_first() =~= r1.drop_first() + r2);
        if contains_name(ns, f0) {
            lemma_nf_split(ns, r1.drop_first(), r2);
        } else {
            lemma_nf_split(ns.push(f0), r1.drop_first(), r2);
            let nf1t = new_funds(ns.push(f0), r1.drop_first());
            assert(ns + (seq![f0] + nf1t) =~= ns.push(f0) + nf1t);
            assert(new_funds(ns, r1 + r2) =~= seq![f0] + (nf1t + new_funds(
                ns.push(f0) + nf1t,
                r2,
            )));
            assert(seq![f0] + (nf1t + new_funds(ns.push(f0) + nf1t, r2)) =~= (seq![f0] + nf1t)
                + new_funds(ns + (seq![f0] + nf1t), r2));
        }
    }
}

proof fn lemma_batch_concat(
    r1: Seq<ActionRowModel>,
    r2: Seq<ActionRowModel>,
    f: Seq<char>,
    a: Action,
)
    ensures
        batch_count(r1 + r2, f, a) == batch_count(r1, f, a) + batch_count(r2, f, a),
    decreases r2.len(),
{
    if r2.len() == 0 {
        assert(r1 + r2 =~= r1);
    } else {
        lemma_batch_concat(r1, r2.drop_last(), f, a);
        assert((r1 + r2).drop_last() =~= r1 + r2.drop_last());
        assert((r1 + r2).last() == r2.last());
    }
}

proof fn lemma_eq_from_prefix_counts(s1: Seq<Action>, s2: Seq<Action>)
    requires
        s1.len() <= s2.len(),
        s2.take(s1.len() as int) == s1,
        forall|a: Action| #[trigger] count_in(s2, a) == count_in(s1, a),
    ensures
        s2 == s1,
{
    let suf = s2.skip(s1.len() as int);
    assert(s2 =~= s1 + suf);
    if suf.len() > 0 {
        let w = suf.last();
        lemma_count_concat(s1, suf, w);
        assert(count_in(suf, w) >= 1);
        assert(count_in(s2, w) == count_in(s1, w) + count_in(suf, w));
        assert(false);
    }
    assert(s2 =~= s1);
}

proof fn lemma_first_occ_agree(t1: Seq<SeriesModel>, t2: Seq<SeriesModel>, i: int)
    requires
        0 <= i < t1.len(),
        i < t2.len(),
        forall|k: int| 0 <= k <= i ==> (#[trigger] t1[k]).fund == t2[k].fund,
    ensures
        is_first_occ(t1, i) <==> is_first_occ(t2, i),
{
    if is_first_occ(t1, i) {
        assert forall|k: int| 0 <= k < i implies t2[k].fund != t2[i].fund by {
            assert(t1[k].fund != t1[i].fund);
        }
    }
    if is_first_occ(t2, i) {
        assert forall|k: int| 0 <= k < i implies t1[k].fund != t1[i].fund by {
            assert(t2[k].fund != t2[i].fund);
        }
    }
}

proof fn lemma_names_of_reconciled(
    pre: Seq<SeriesModel>,
    post: Seq<SeriesModel>,
    rows: Seq<ActionRowModel>,
)
    requires
        actions_reconciled(pre, post, rows),
    ensures
        names_of(post) =~= names_of(pre) + new_funds(names_of(pre), rows),
{
    let nf = new_funds(names_of(pre), rows);
    assert forall|i: int|
        0 <= i < post.len() implies names_of(post)[i] == (names_of(pre) + nf)[i] by {
        if i < pre.len() {
            assert(post[i].fund == pre[i].fund);
        } else {
            assert(post[i].fund == nf[i - pre.len()]);
        }
    }
}

/// Ingesting the same batch of action rows twice in sequence leaves
/// exactly the ledger that one ingestion produces.
pub proof fn lemma_reconcile_idempotent(
    pre: Seq<SeriesModel>,
    mid: Seq<SeriesModel>,
    post: Seq<SeriesModel>,
    rows: Seq<ActionRowModel>,
)
    requires
        actions_reconciled(pre, mid, rows),
        actions_reconciled(mid, post, rows),
    ensures
        post == mid,
{
    lemma_names_of_reconciled(pre, mid, rows);
    lemma_rows_contained(names_of(pre), rows);
    assert forall|j: int|
        0 <= j < rows.len() implies contains_name(names_of(mid), (#[trigger] rows[j]).fund) by {
        let big = names_of(pre) + new_funds(names_of(pre), rows);
        let i = choose|i: int| 0 <= i < big.len() && big[i] == rows[j].fund;
        assert(names_of(mid)[i] == rows[j].fund);
    }
    lemma_nf_empty(names_of(mid), rows);
    assert(post.len() == mid.len());
    assert forall|i: int| 0 <= i < mid.len() implies post[i] == mid[i] by {
        assert(post[i].fund == mid[i].fund);
        assert(post[i].balance == mid[i].balance);
        assert(post[i].fund_value == mid[i].fund_value);
        assert(forall|k: int|
            0 <= k < mid.len() ==> (#[trigger] post[k]).fund == mid[k].fund);
        lemma_first_occ_agree(post, mid, i);
        assert forall|a: Action| #[trigger]
            count_in(post[i].action, a) == count_in(mid[i].action, a) by {
            if is_first_occ(mid, i) {
                if i < pre.len() {
                    assert(count_in(mid[i].action, a) == nat_max(
                        pre_count(pre, i, a),
                        batch_count(rows, mid[i].fund, a),
                    ));
                } else {
                    assert(count_in(mid[i].action, a) == nat_max(
                        0,
                        batch_count(rows, mid[i].fund, a),
                    ));
                }
            }
        }
        lemma_eq_from_prefix_counts(mid[i].action, post[i].action);
        assert(post[i] =~= mid[i]);
    }
    assert(post =~= mid);
}

/// A batch that shows a signature twice, landing on a fund that stores
/// none of it, leaves exactly two records — and re-ingesting the same
/// batch still leaves exactly two.
pub proof fn lemma_reconcile_multiplicity(
    pre: Seq<SeriesModel>,
    post: Seq<SeriesModel>,
    post2: Seq<SeriesModel>,
    rows: Seq<ActionRowModel>,
    i: int,
    a: Action,
)
    requires
        actions_reconciled(pre, post, rows),
        actions_reconciled(post, post2, rows),
        0 <= i < post.len(),
        is_first_occ(post, i),
        batch_count(rows, post[i].fund, a) == 2,
        pre_count(pre, i, a) == 0,
    ensures
        count_in(post[i].action, a) == 2,
        count_in(post2[i].action, a) == 2,
{
    assert(count_in(post[i].action, a) == nat_max(0, 2));
    assert(forall|k: int|
        0 <= k < post.len() ==> (#[trigger] post2[k]).fund == post[k].fund);
    lemma_first_occ_agree(post2, post, i);
    assert(count_in(post2[i].action, a) == nat_max(count_in(post[i].action, a), 2));
}

/// Ingesting two batches with disjoint action dates one after the other
/// stores, fund for fund and signature for signature, exactly what
/// ingesting their concatenation in one pass stores.
#[verifier::rlimit(100)]
pub proof fn lemma_reconcile_additive(
    pre: Seq<SeriesModel>,
    mid: Seq<SeriesModel>,
    post: Seq<SeriesModel>,
    both: Seq<SeriesModel>,
    r1: Seq<ActionRowModel>,
    r2: Seq<ActionRowModel>,
)
    requires
        actions_reconciled(pre, mid, r1),
        actions_reconciled(mid, post, r2),
        actions_reconciled(pre, both, r1 + r2),
        forall|j1: int, j2: int|
            0 <= j1 < r1.len() && 0 <= j2 < r2.len() ==> (#[trigger] r1[j1]).action.date != (
            #[trigger] r2[j2]).action.date,
    ensures
        post.len() == both.len(),
        forall|i: int|
            0 <= i < post.len() ==> (#[trigger] post[i]).fund == both[i].fund && post[i].balance
                == both[i].balance && post[i].fund_value == both[i].fund_value,
        forall|i: int, a: Action|
            0 <= i < post.len() ==> #[trigger] count_in(post[i].action, a) == count_in(
                both[i].action,
                a,
            ),
{
    let ns = names_of(pre);
    let nf1 = new_funds(ns, r1);
    lemma_names_of_reconciled(pre, mid, r1);
    let nsm = names_of(mid);
    let nf2 = new_funds(nsm, r2);
    lemma_nf_split(ns, r1, r2);
    assert(new_funds(nsm, r2) == new_funds(ns + nf1, r2));
    assert(new_funds(ns, r1 + r2) =~= nf1 + nf2);
    assert(post.len() == pre.len() + nf1.len() + nf2.len());
    assert(both.len() == pre.len() + (nf1 + nf2).len());
    // one side of every signature's batch count is zero
    assert forall|f: Seq<char>, a: Action| #[trigger]
        batch_count(r1, f, a) == 0 || batch_count(r2, f, a) == 0 by {
        lemma_batch_pos_exists(r1, f, a);
        lemma_batch_pos_exists(r2, f, a);
        if batch_count(r1, f, a) > 0 && batch_count(r2, f, a) > 0 {
            let j1 = choose|j: int|
                0 <= j < r1.len() && (#[trigger] r1[j]).fund == f && r1[j].action == a;
            let j2 = choose|j: int|
                0 <= j < r2.len() && (#[trigger] r2[j]).fund == f && r2[j].action == a;
            assert(r1[j1].action.date != r2[j2].action.date);
            assert(false);
        }
    }
    // names agree pointwise between post and both
    assert forall|i: int|
        0 <= i < post.len() implies (#[trigger] post[i]).fund == both[i].fund && post[i].balance
        == both[i].balance && post[i].fund_value == both[i].fund_value by {
        if i < pre.len() {
        } else if i < mid.len() {
            assert(post[i].fund == mid[i].fund);
            assert(mid[i].fund == nf1[i - pre.len()]);
            assert(both[i].fund == (nf1 + nf2)[i - pre.len()]);
            assert(mid[i].balance == Seq::<Balance>::empty());
            assert(mid[i].fund_value == Seq::<FundValue>::empty());
            assert(both[i].balance == Seq::<Balance>::empty());
            assert(both[i].fund_value == Seq::<FundValue>::empty());
        } else {
            assert(post[i].fund == nf2[i - mid.len()]);
            assert(both[i].fund == (nf1 + nf2)[i - pre.len()]);
            assert((nf1 + nf2)[i - pre.len()] == nf2[i - pre.len() - nf1.len()]);
            assert(post[i].balance == Seq::<Balance>::empty());
            assert(post[i].fund_value == Seq::<FundValue>::empty());
            assert(both[i].balance == Seq::<Balance>::empty());
            assert(both[i].fund_value == Seq::<FundValue>::empty());
        }
    }
    lemma_nf_fresh(nsm, r2);
    lemma_rows_contained(ns, r1);
    assert forall|i: int, a: Action|
        0 <= i < post.len() implies #[trigger] count_in(post[i].action, a) == count_in(
        both[i].action,
        a,
    ) by {
        assert(forall|k: int|
            0 <= k < post.len() ==> (#[trigger] post[k]).fund == both[k].fund);
        lemma_first_occ_agree(post, both, i);
        assert(forall|k: int|
            0 <= k < mid.len() ==> (#[trigger] post[k]).fund == mid[k].fund);
        let f = post[i].fund;
        lemma_batch_concat(r1, r2, f, a);
        let b1 = batch_count(r1, f, a);
        let b2 = batch_count(r2, f, a);
        if is_first_occ(post, i) {
            if i < mid.len() {
                lemma_first_occ_agree(post, mid, i);
                assert(is_first_occ(mid, i));
                assert(count_in(post[i].action, a) == nat_max(count_in(mid[i].action, a), b2));
                if i < pre.len() {
                    assert(count_in(mid[i].action, a) == nat_max(pre_count(pre, i, a), b1));
                    assert(count_in(both[i].action, a) == nat_max(
                        pre_count(pre, i, a),
                        b1 + b2,
                    ));
                } else {
                    assert(count_in(mid[i].action, a) == nat_max(0, b1));
                    assert(count_in(both[i].action, a) == nat_max(0, b1 + b2));
                }
            } else {
                // a series created by the second batch: no first-batch rows
                assert(count_in(post[i].action, a) == nat_max(0, b2));
                assert(count_in(both[i].action, a) == nat_max(0, b1 + b2));
                assert(f == nf2[i - mid.len()]);
                assert(!contains_name(nsm, f));
                if b1 > 0 {
                    lemma_batch_pos_exists(r1, f, a);
                    let j = choose|j: int|
                        0 <= j < r1.len() && (#[trigger] r1[j]).fund == f && r1[j].action == a;
                    assert(contains_name(ns + nf1, f));
                    let w = choose|w: int| 0 <= w < (ns + nf1).len() && (ns + nf1)[w] == f;
                    assert(nsm[w] == f);
                    assert(false);
                }
            }
        } else {
            if i < mid.len() {
                lemma_first_occ_agree(post, mid, i);
                assert(count_in(post[i].action, a) == pre_count(mid, i, a));
                if i < pre.len() {
                    assert(!is_first_occ(mid, i));
                    assert(count_in(mid[i].action, a) == pre_count(pre, i, a));
                } else {
                    assert(!is_first_occ(mid, i));
                    assert(count_in(mid[i].action, a) == 0);
                    assert(count_in(Seq::<Action>::empty(), a) == 0);
                }
            } else {
                assert(count_in(post[i].action, a) == pre_count(mid, i, a));
                assert(pre_count(mid, i, a) == 0);
            }
            assert(count_in(both[i].action, a) == pre_count(pre, i, a));
            if i >= pre.len() {
                assert(pre_count(pre, i, a) == 0);
            }
        }
    }
}

} // verus!
