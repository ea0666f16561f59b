//! The ledger: one time series per fund, keyed by normalised fund name,
//! holding balances, cash-flow actions and published fund/unit values.
//! Balances and fund values are unique per date with last-write-wins
//! semantics; actions form a multiset, handled by the reconciliation pass.

use vstd::prelude::*;
use crate::date::Date;
use crate::text::{str_eq, i64_to_string};

verus! {

/// Money as an exact count of minor currency units.
pub type Cents = i64;

/// The reported account value of a fund on a date.
#[derive(Clone, Copy, Debug, PartialEq, Eq, Structural)]
pub struct Balance {
    pub date: Date,
    pub balance: Cents,
}

/// A signed cash flow: positive for contributions, negative for
/// withdrawals and outgoing transfers.
#[derive(Clone, Copy, Debug, PartialEq, Eq, Structural)]
pub struct Action {
    pub date: Date,
    pub change: Cents,
}

/// The published whole-fund and unit values on a date.
#[derive(Clone, Copy, Debug, PartialEq, Eq, Structural)]
pub struct FundValue {
    pub date: Date,
    pub fund_value: Cents,
    pub unit_value: Cents,
}

/// The time series of one fund.
pub struct Series {
    /// Normalised (trimmed, lowercased) fund name; the ledger key.
    pub fund: String,
    pub balance: Vec<Balance>,
    pub action: Vec<Action>,
    pub fund_value: Vec<FundValue>,
}

/// Mathematical view of a `Series`.
#[verifier::ext_equal]
pub ghost struct SeriesModel {
    pub fund: Seq<char>,
    pub balance: Seq<Balance>,
    pub action: Seq<Action>,
    pub fund_value: Seq<FundValue>,
}

impl View for Series {
    type V = SeriesModel;

    open spec fn view(&self) -> SeriesModel {
        SeriesModel {
            fund: self.fund@,
            balance: self.balance@,
            action: self.action@,
            fund_value: self.fund_value@,
        }
    }
}

/// The whole ledger: every fund's series, in insertion order.
pub struct Table {
    pub table: Vec<Series>,
}

impl View for Table {
    type V = Seq<SeriesModel>;

    open spec fn view(&self) -> Seq<SeriesModel> {
        self.table@.map_values(|s: Series| s@)
    }
}

impl Table {
    /// An empty ledger.
    pub fn new() -> (r: Table)
        ensures
            r@ == Seq::<SeriesModel>::empty(),
    {
        let t = Table { table: Vec::new() };
        proof {
            assert(t@ =~= Seq::<SeriesModel>::empty());
        }
        t
    }
}

/// Index of the first series named `name`, or -1.
pub open spec fn first_fund(t: Seq<SeriesModel>, name: Seq<char>) -> int
    decreases t.len(),
{
    if t.len() == 0 {
        -1
    } else if t[0].fund == name {
        0
    } else {
        let r = first_fund(t.drop_first(), name);
        if r < 0 {
            -1
        } else {
            r + 1
        }
    }
}

pub proof fn lemma_first_fund_at(t: Seq<SeriesModel>, name: Seq<char>, j: int)
    requires
        0 <= j < t.len(),
        t[j].fund == name,
        forall|k: int| 0 <= k < j ==> t[k].fund != name,
    ensures
        first_fund(t, name) == j,
    decreases j,
{
    if j > 0 {
        lemma_first_fund_at(t.drop_first(), name, j - 1);
    }
}

pub proof fn lemma_first_fund_none(t: Seq<SeriesModel>, name: Seq<char>)
    requires
        forall|k: int| 0 <= k < t.len() ==> t[k].fund != name,
    ensures
        first_fund(t, name) == -1,
    decreases t.len(),
{
    if t.len() > 0 {
        lemma_first_fund_none(t.drop_first(), name);
    }
}

pub proof fn lemma_first_fund_props(t: Seq<SeriesModel>, name: Seq<char>)
    ensures
        first_fund(t, name) >= 0 ==> first_fund(t, name) < t.len() && t[first_fund(
            t,
            name,
        )].fund == name,
        first_fund(t, name) >= 0 ==> forall|k: int|
            0 <= k < first_fund(t, name) ==> t[k].fund != name,
        first_fund(t, name) < 0 ==> forall|k: int| 0 <= k < t.len() ==> t[k].fund != name,
    decreases t.len(),
{
    if t.len() > 0 {
        lemma_first_fund_props(t.drop_first(), name);
        if first_fund(t, name) < 0 {
            assert forall|k: int| 0 <= k < t.len() implies t[k].fund != name by {
                if k >= 1 {
                    assert(t.drop_first()[k - 1].fund != name);
                    assert(t[k] == t.drop_first()[k - 1]);
                }
            }
        } else {
            assert forall|k: int| 0 <= k < first_fund(t, name) implies t[k].fund != name by {
                if k >= 1 {
                    assert(t.drop_first()[k - 1].fund != name);
                    assert(t[k] == t.drop_first()[k - 1]);
                }
            }
        }
    }
}

/// Finds the series for `name`, scanning in insertion order.
pub fn find_fund(table: &Table, name: &str) -> (r: Option<usize>)
    ensures
        match r {
            Some(i) => i == first_fund(table@, name@) && i < table@.len() && table@[i as int].fund
                == name@ && forall|k: int| 0 <= k < i ==> table@[k].fund != name@,
            None => first_fund(table@, name@) < 0,
        },
{
    let n = table.table.len();
    let mut i: usize = 0;
    while i < n
        invariant
            0 <= i <= n,
            n == table@.len(),
            table@.len() == table.table@.len(),
            forall|k: int| 0 <= k < i ==> table@[k].fund != name@,
        decreases n - i,
    {
        proof {
            assert(table@[i as int] == table.table@[i as int]@);
        }
        if str_eq(table.table[i].fund.as_str(), name) {
            proof {
                lemma_first_fund_at(table@, name@, i as int);
            }
            return Some(i);
        }

        i = i + 1;
    }
    proof {
        lemma_first_fund_none(table@, name@);
    }
    None
}

/// Index of the first balance record for `date`, or -1.
pub open spec fn first_at_date(s: Seq<Balance>, date: Date) -> int
    decreases s.len(),
{
    if s.len() == 0 {
        -1
    } else if s[0].date == date {
        0
    } else {
        let r = first_at_date(s.drop_first(), date);
        if r < 0 {
            -1
        } else {
            r + 1
        }
    }
}

pub proof fn lemma_first_at_date_at(s: Seq<Balance>, date: Date, j: int)
    requires
        0 <= j < s.len(),
        s[j].date == date,
        forall|k: int| 0 <= k < j ==> s[k].date != date,
    ensures
        first_at_date(s, date) == j,
    decreases j,
{
    if j > 0 {
        lemma_first_at_date_at(s.drop_first(), date, j - 1);
    }
}

pub proof fn lemma_first_at_date_none(s: Seq<Balance>, date: Date)
    requires
        forall|k: int| 0 <= k < s.len() ==> s[k].date != date,
    ensures
        first_at_date(s, date) == -1,
    decreases s.len(),
{
    if s.len() > 0 {
        lemma_first_at_date_none(s.drop_first(), date);
    }
}

pub proof fn lemma_first_at_date_props(s: Seq<Balance>, date: Date)
    ensures
        first_at_date(s, date) >= 0 ==> first_at_date(s, date) < s.len() && s[first_at_date(
            s,
            date,
        )].date == date,
        first_at_date(s, date) >= 0 ==> forall|k: int|
            0 <= k < first_at_date(s, date) ==> s[k].date != date,
        first_at_date(s, date) < 0 ==> forall|k: int| 0 <= k < s.len() ==> s[k].date != date,
    decreases s.len(),
{
    if s.len() > 0 {
        lemma_first_at_date_props(s.drop_first(), date);
        if first_at_date(s, date) < 0 {
            assert forall|k: int| 0 <= k < s.len() implies s[k].date != date by {
                if k >= 1 {
                    assert(s.drop_first()[k - 1].date != date);
                    assert(s[k] == s.drop_first()[k - 1]);
                }
            }
        } else {
            assert forall|k: int| 0 <= k < first_at_date(s, date) implies s[k].date != date by {
                if k >= 1 {
                    assert(s.drop_first()[k - 1].date != date);
                    assert(s[k] == s.drop_first()[k - 1]);
                }
            }
        }
    }
}

/// A fund's balances after observing `amount` for `date`: overwrite the
/// record for that date, or append a new one.
pub open spec fn upsert_balance_in(s: Seq<Balance>, date: Date, amount: Cents) -> Seq<Balance> {
    let j = first_at_date(s, date);
    if j < 0 {
        s.push(Balance { date, balance: amount })
    } else {
        s.update(j, Balance { date, balance: amount })
    }
}

/// The ledger after one balance observation: the named fund's record for
/// `date` is set, a new series appearing if the fund is new.
pub open spec fn upsert_balance(
    t: Seq<SeriesModel>,
    name: Seq<char>,
    date: Date,
    amount: Cents,
) -> Seq<SeriesModel> {
    let i = first_fund(t, name);
    if i < 0 {
        t.push(
            SeriesModel {
                fund: name,
                balance: seq![Balance { date, balance: amount }],
                action: Seq::empty(),
                fund_value: Seq::empty(),
            },
        )
    } else {
        t.update(
            i,
            SeriesModel { balance: upsert_balance_in(t[i].balance, date, amount), ..t[i] },
        )
    }
}

/// Re-observing the very same balance changes nothing: upserting the
/// same fund, date and amount twice gives the ledger one upsert gives.
pub proof fn lemma_upsert_balance_idempotent(
    t: Seq<SeriesModel>,
    name: Seq<char>,
    date: Date,
    amount: Cents,
)
    ensures
        upsert_balance(upsert_balance(t, name, date, amount), name, date, amount)
            == upsert_balance(t, name, date, amount),
{
    let b = Balance { date, balance: amount };
    let u1 = upsert_balance(t, name, date, amount);
    let i = first_fund(t, name);
    lemma_first_fund_props(t, name);
    if i < 0 {
        let fresh = SeriesModel {
            fund: name,
            balance: seq![b],
            action: Seq::empty(),
            fund_value: Seq::empty(),
        };
        assert(u1 == t.push(fresh));
        assert(u1[t.len() as int] == fresh);
        lemma_first_fund_at(u1, name, t.len() as int);
        lemma_first_at_date_at(seq![b], date, 0);
        assert(upsert_balance_in(seq![b], date, amount) =~= seq![b]);
        assert(SeriesModel { balance: upsert_balance_in(seq![b], date, amount), ..fresh }
            == fresh);
        assert(u1.update(t.len() as int, fresh) =~= u1);
    } else {
        let s2 = SeriesModel { balance: upsert_balance_in(t[i].balance, date, amount), ..t[i] };
        assert(u1 == t.update(i, s2));
        assert(forall|k: int| 0 <= k < i ==> #[trigger] u1[k].fund == t[k].fund);
        lemma_first_fund_at(u1, name, i);
        let j = first_at_date(t[i].balance, date);
        lemma_first_at_date_props(t[i].balance, date);
        if j < 0 {
            let nb = t[i].balance.push(b);
            assert(s2.balance == nb);
            lemma_first_at_date_at(nb, date, t[i].balance.len() as int);
            assert(upsert_balance_in(nb, date, amount) =~= nb);
        } else {
            let nb = t[i].balance.update(j, b);
            assert(s2.balance == nb);
            assert(forall|k: int| 0 <= k < j ==> #[trigger] nb[k].date == t[i].balance[k].date);
            lemma_first_at_date_at(nb, date, j);
            assert(upsert_balance_in(nb, date, amount) =~= nb);
        }
        assert(SeriesModel { balance: upsert_balance_in(s2.balance, date, amount), ..s2 } == s2);
        assert(u1.update(i, s2) =~= u1);
    }
}

/// Re-observing the very same fund and unit values changes nothing:
/// upserting the same fund, date and amounts twice gives the ledger one
/// upsert gives.
pub proof fn lemma_upsert_fund_value_idempotent(
    t: Seq<SeriesModel>,
    name: Seq<char>,
    date: Date,
    fund_value: Cents,
    unit_value: Cents,
)
    ensures
        upsert_fund_value(
            upsert_fund_value(t, name, date, fund_value, unit_value),
            name,
            date,
            fund_value,
            unit_value,
        ) == upsert_fund_value(t, name, date, fund_value, unit_value),
{
    let f = FundValue { date, fund_value, unit_value };
    let u1 = upsert_fund_value(t, name, date, fund_value, unit_value);
    let i = first_fund(t, name);
    lemma_first_fund_props(t, name);
    if i < 0 {
        let fresh = SeriesModel {
            fund: name,
            balance: Seq::empty(),
            action: Seq::empty(),
            fund_value: seq![f],
        };
        assert(u1 == t.push(fresh));
        assert(u1[t.len() as int] == fresh);
        lemma_first_fund_at(u1, name, t.len() as int);
        lemma_first_fv_at_at(seq![f], date, 0);
        assert(upsert_fund_value_in(seq![f], date, fund_value, unit_value) =~= seq![f]);
        assert(SeriesModel {
            fund_value: upsert_fund_value_in(seq![f], date, fund_value, unit_value),
            ..fresh
        } == fresh);
        assert(u1.update(t.len() as int, fresh) =~= u1);
    } else {
        let s2 = SeriesModel {
            fund_value: upsert_fund_value_in(t[i].fund_value, date, fund_value, unit_value),
            ..t[i]
        };
        assert(u1 == t.update(i, s2));
        assert(forall|k: int| 0 <= k < i ==> #[trigger] u1[k].fund == t[k].fund);
        lemma_first_fund_at(u1, name, i);
        let j = first_fv_at(t[i].fund_value, date);
        lemma_first_fv_at_props(t[i].fund_value, date);
        if j < 0 {
            let nf = t[i].fund_value.push(f);
            assert(s2.fund_value == nf);
            lemma_first_fv_at_at(nf, date, t[i].fund_value.len() as int);
            assert(upsert_fund_value_in(nf, date, fund_value, unit_value) =~= nf);
        } else {
            let nf = t[i].fund_value.update(j, f);
            assert(s2.fund_value == nf);
            assert(forall|k: int|
                0 <= k < j ==> #[trigger] nf[k].date == t[i].fund_value[k].date);
            lemma_first_fv_at_at(nf, date, j);
            assert(upsert_fund_value_in(nf, date, fund_value, unit_value) =~= nf);
        }
        assert(SeriesModel {
            fund_value: upsert_fund_value_in(s2.fund_value, date, fund_value, unit_value),
            ..s2
        } == s2);
        assert(u1.update(i, s2) =~= u1);
    }
}

/// One parsed row of the balance report: a fund and its balance.
pub struct BalanceRow {
    /// Normalised fund name.
    pub fund: String,
    pub balance: Cents,
}

pub ghost struct BalanceRowModel {
    pub fund: Seq<char>,
    pub balance: Cents,
}

impl View for BalanceRow {
    type V = BalanceRowModel;

    open spec fn view(&self) -> BalanceRowModel {
        BalanceRowModel { fund: self.fund@, balance: self.balance }
    }
}

/// The ledger after a whole batch of balance rows, applied in order.
pub open spec fn merge_balances_spec(
    t: Seq<SeriesModel>,
    date: Date,
    rows: Seq<BalanceRowModel>,
) -> Seq<SeriesModel>
    decreases rows.len(),
{
    if rows.len() == 0 {
        t
    } else {
        merge_balances_spec(
            upsert_balance(t, rows[0].fund, date, rows[0].balance),
            date,
            rows.drop_first(),
        )
    }
}

/// Merges a batch of balance rows for one snapshot date into the ledger.
/// A changed value for an already-recorded date is overwritten and
/// reported as a warning; the merge itself never fails.
pub fn merge_balance_rows(table: &mut Table, date: Date, rows: &Vec<BalanceRow>) -> (warnings: Vec<
    String,
>)
    ensures
        final(table)@ == merge_balances_spec(
            old(table)@,
            date,
            rows@.map_values(|r: BalanceRow| r@),
        ),
{
    let ghost rms = rows@.map_values(|r: BalanceRow| r@);
    let mut warnings: Vec<String> = Vec::new();
    let n = rows.len();
    let mut k: usize = 0;
    proof {
        assert(rms.skip(0) =~= rms);
    }
    while k < n
        invariant
            0 <= k <= n,
            n == rows@.len(),
            rms == rows@.map_values(|r: BalanceRow| r@),
            merge_balances_spec(old(table)@, date, rms) == merge_balances_spec(
                table@,
                date,
                rms.skip(k as int),
            ),
        decreases n - k,
    {
        proof {
            assert(rms.skip(k as int)[0] == rms[k as int]);
            assert(rms.skip(k as int).drop_first() =~= rms.skip(k + 1));
        }
        let ghost pre = table@;
        let row = &rows[k];
        match find_fund(table, row.fund.as_str()) {
            None => {
                let mut bal: Vec<Balance> = Vec::new();
                bal.push(Balance { date, balance: row.balance });
                let s = Series {
                    fund: row.fund.clone(),
                    balance: bal,
                    action: Vec::new(),
                    fund_value: Vec::new(),
                };
                proof {
                    assert(bal@ =~= seq![Balance { date, balance: row.balance }]);
                }
                table.table.push(s);
                proof {
                    assert(table@ =~= pre.push(
                        SeriesModel {
                            fund: rms[k as int].fund,
                            balance: seq![Balance { date, balance: rms[k as int].balance }],
                            action: Seq::empty(),
                            fund_value: Seq::empty(),
                        },
                    ));
                    assert(table@ =~= upsert_balance(
                        pre,
                        rms[k as int].fund,
                        date,
                        rms[k as int].balance,
                    ));
                }
            },
            Some(i) => {
                let amount = row.balance;
                let ghost name = rms[k as int].fund;
                let series = &mut table.table[i];
                let ghost sm = pre[i as int];
                let m = series.balance.len();
                let mut j: usize = 0;
                let mut found: bool = false;
                while j < m && !found
                    invariant
                        0 <= j <= m,
                        m == series.balance@.len(),
                        !found ==> forall|q: int| 0 <= q < j ==> series.balance@[q].date != date,
                        found ==> j < m && series.balance@[j as int].date == date && (forall|
                            q: int,
                        |
                            0 <= q < j ==> series.balance@[q].date != date),
                    decreases m - j + (if found { 0int } else { 1int }),
                {
                    if series.balance[j].date == date {
                        found = true;
                    } else {
                        j = j + 1;
                    }
                }
                if found {
                    proof {
                        lemma_first_at_date_at(series.balance@, date, j as int);
                    }
                    let old_amount = series.balance[j].balance;
                    if old_amount != amount {
                        let mut w = String::from_str("Warning: Fund changing balance from ");
                        let t1 = i64_to_string(old_amount);
                        w.append(t1.as_str());
                        w.append(" to ");
                        let t2 = i64_to_string(amount);
                        w.append(t2.as_str());
                        warnings.push(w);
                    }
                    series.balance[j] = Balance { date, balance: amount };
                    proof {
                        assert(series.balance@ =~= upsert_balance_in(sm.balance, date, amount));
                    }
                } else {
                    proof {
                        lemma_first_at_date_none(series.balance@, date);
                    }
                    series.balance.push(Balance { date, balance: amount });
                    proof {
                        assert(series.balance@ =~= upsert_balance_in(sm.balance, date, amount));
                    }
                }
                proof {
                    assert(table@ =~= pre.update(
                        i as int,
                        SeriesModel { balance: upsert_balance_in(sm.balance, date, amount), ..sm },
                    ));
                    assert(table@ =~= upsert_balance(pre, name, date, amount));
                }
            },
        }
        k = k + 1;
    }
    proof {
        assert(rms.skip(n as int) =~= Seq::<BalanceRowModel>::empty());
    }
    warnings
}

/// Index of the first fund-value record for `date`, or -1.
pub open spec fn first_fv_at(s: Seq<FundValue>, date: Date) -> int
    decreases s.len(),
{
    if s.len() == 0 {
        -1
    } else if s[0].date == date {
        0
    } else {
        let r = first_fv_at(s.drop_first(), date);
        if r < 0 {
            -1
        } else {
            r + 1
        }
    }
}

pub proof fn lemma_first_fv_at_at(s: Seq<FundValue>, date: Date, j: int)
    requires
        0 <= j < s.len(),
        s[j].date == date,
        forall|k: int| 0 <= k < j ==> s[k].date != date,
    ensures
        first_fv_at(s, date) == j,
    decreases j,
{
    if j > 0 {
        lemma_first_fv_at_at(s.drop_first(), date, j - 1);
    }
}

pub proof fn lemma_first_fv_at_none(s: Seq<FundValue>, date: Date)
    requires
        forall|k: int| 0 <= k < s.len() ==> s[k].date != date,
    ensures
        first_fv_at(s, date) == -1,
    decreases s.len(),
{
    if s.len() > 0 {
        lemma_first_fv_at_none(s.drop_first(), date);
    }
}

pub proof fn lemma_first_fv_at_props(s: Seq<FundValue>, date: Date)
    ensures
        first_fv_at(s, date) >= 0 ==> first_fv_at(s, date) < s.len() && s[first_fv_at(
            s,
            date,
        )].date == date,
        first_fv_at(s, date) >= 0 ==> forall|k: int|
            0 <= k < first_fv_at(s, date) ==> s[k].date != date,
        first_fv_at(s, date) < 0 ==> forall|k: int| 0 <= k < s.len() ==> s[k].date != date,
    decreases s.len(),
{
    if s.len() > 0 {
        lemma_first_fv_at_props(s.drop_first(), date);
        if first_fv_at(s, date) < 0 {
            assert forall|k: int| 0 <= k < s.len() implies s[k].date != date by {
                if k >= 1 {
                    assert(s.drop_first()[k - 1].date != date);
                    assert(s[k] == s.drop_first()[k - 1]);
                }
            }
        } else {
            assert forall|k: int| 0 <= k < first_fv_at(s, date) implies s[k].date != date by {
                if k >= 1 {
                    assert(s.drop_first()[k - 1].date != date);
                    assert(s[k] == s.drop_first()[k - 1]);
                }
            }
        }
    }
}

/// A fund's value records after one observation: overwrite the record for
/// the date, or append a new one.
pub open spec fn upsert_fund_value_in(
    s: Seq<FundValue>,
    date: Date,
    fund_value: Cents,
    unit_value: Cents,
) -> Seq<FundValue> {
    let j = first_fv_at(s, date);
    if j < 0 {
        s.push(FundValue { date, fund_value, unit_value })
    } else {
        s.update(j, FundValue { date, fund_value, unit_value })
    }
}

/// The ledger after one fund-value observation.
pub open spec fn upsert_fund_value(
    t: Seq<SeriesModel>,
    name: Seq<char>,
    date: Date,
    fund_value: Cents,
    unit_value: Cents,
) -> Seq<SeriesModel> {
    let i = first_fund(t, name);
    if i < 0 {
        t.push(
            SeriesModel {
                fund: name,
                balance: Seq::empty(),
                action: Seq::empty(),
                fund_value: seq![FundValue { date, fund_value, unit_value }],
            },
        )
    } else {
        t.update(
            i,
            SeriesModel {
                fund_value: upsert_fund_value_in(t[i].fund_value, date, fund_value, unit_value),
                ..t[i]
            },
        )
    }
}

/// One parsed fund-value row of the returns report.
pub struct FundValueRow {
    /// Normalised fund name.
    pub fund: String,
    pub date: Date,
    pub fund_value: Cents,
    pub unit_value: Cents,
}

pub ghost struct FundValueRowModel {
    pub fund: Seq<char>,
    pub date: Date,
    pub fund_value: Cents,
    pub unit_value: Cents,
}

impl View for FundValueRow {
    type V = FundValueRowModel;

    open spec fn view(&self) -> FundValueRowModel {
        FundValueRowModel {
            fund: self.fund@,
            date: self.date,
            fund_value: self.fund_value,
            unit_value: self.unit_value,
        }
    }
}

/// The ledger after a whole batch of fund-value rows, applied in order.
pub open spec fn merge_fund_values_spec(
    t: Seq<SeriesModel>,
    rows: Seq<FundValueRowModel>,
) -> Seq<SeriesModel>
    decreases rows.len(),
{
    if rows.len() == 0 {
        t
    } else {
        merge_fund_values_spec(
            upsert_fund_value(t, rows[0].fund, rows[0].date, rows[0].fund_value, rows[0].unit_value),
            rows.drop_first(),
        )
    }
}

/// Merges a batch of fund-value rows into the ledger; conflicting values
/// for an already-recorded date are overwritten with a warning.
pub fn merge_fund_value_rows(table: &mut Table, rows: &Vec<FundValueRow>) -> (warnings: Vec<
    String,
>)
    ensures
        final(table)@ == merge_fund_values_spec(
            old(table)@,
            rows@.map_values(|r: FundValueRow| r@),
        ),
{
    let ghost rms = rows@.map_values(|r: FundValueRow| r@);
    let mut warnings: Vec<String> = Vec::new();
    let n = rows.len();
    let mut k: usize = 0;
    proof {
        assert(rms.skip(0) =~= rms);
    }
    while k < n
        invariant
            0 <= k <= n,
            n == rows@.len(),
            rms == rows@.map_values(|r: FundValueRow| r@),
            merge_fund_values_spec(old(table)@, rms) == merge_fund_values_spec(
                table@,
                rms.skip(k as int),
            ),
        decreases n - k,
    {
        proof {
            assert(rms.skip(k as int)[0] == rms[k as int]);
            assert(rms.skip(k as int).drop_first() =~= rms.skip(k + 1));
        }
        let ghost pre = table@;
        let row = &rows[k];
        let date = row.date;
        match find_fund(table, row.fund.as_str()) {
            None => {
                let mut fv: Vec<FundValue> = Vec::new();
                fv.push(
                    FundValue {
                        date,
                        fund_value: row.fund_value,
                        unit_value: row.unit_value,
                    },
                );
                let s = Series {
                    fund: row.fund.clone(),
                    balance: Vec::new(),
                    action: Vec::new(),
                    fund_value: fv,
                };
                proof {
                    assert(s.fund_value@ =~= seq![
                        FundValue {
                            date,
                            fund_value: rms[k as int].fund_value,
                            unit_value: rms[k as int].unit_value,
                        },
                    ]);
                }
                table.table.push(s);
                proof {
                    assert(table@ =~= pre.push(
                        SeriesModel {
                            fund: rms[k as int].fund,
                            balance: Seq::empty(),
                            action: Seq::empty(),
                            fund_value: seq![
                                FundValue {
                                    date,
                                    fund_value: rms[k as int].fund_value,
                                    unit_value: rms[k as int].unit_value,
                                },
                            ],
                        },
                    ));
                    assert(table@ =~= upsert_fund_value(
                        pre,
                        rms[k as int].fund,
                        date,
                        rms[k as int].fund_value,
                        rms[k as int].unit_value,
                    ));
                }
            },
            Some(i) => {
                let fund_value = row.fund_value;
                let unit_value = row.unit_value;
                let ghost name = rms[k as int].fund;
                let series = &mut table.table[i];
                let ghost sm = pre[i as int];
                let m = series.fund_value.len();
                let mut j: usize = 0;
                let mut found: bool = false;
                while j < m && !found
                    invariant
                        0 <= j <= m,
                        m == series.fund_value@.len(),
                        !found ==> forall|q: int|
                            0 <= q < j ==> series.fund_value@[q].date != date,
                        found ==> j < m && series.fund_value@[j as int].date == date && (forall|
                            q: int,
                        |
                            0 <= q < j ==> series.fund_value@[q].date != date),
                    decreases m - j + (if found { 0int } else { 1int }),
                {
                    if series.fund_value[j].date == date {
                        found = true;
                    } else {
                        j = j + 1;
                    }
                }
                if found {
                    proof {
                        lemma_first_fv_at_at(series.fund_value@, date, j as int);
                    }
                    let old_rec = series.fund_value[j];
                    if old_rec.fund_value != fund_value {
                        let mut w = String::from_str("Warning: Fund ");
                        w.append(series.fund.as_str());
                        w.append(" changing fund_value from ");
                        let t1 = i64_to_string(old_rec.fund_value);
                        w.append(t1.as_str());
                        w.append(" to ");
                        let t2 = i64_to_string(fund_value);
                        w.append(t2.as_str());
                        warnings.push(w);
                    }
                    if old_rec.unit_value != unit_value {
                        let mut w = String::from_str("Warning: Fund ");
                        w.append(series.fund.as_str());
                        w.append(" changing unit_value from ");
                        let t1 = i64_to_string(old_rec.unit_value);
                        w.append(t1.as_str());
                        w.append(" to ");
                        let t2 = i64_to_string(unit_value);
                        w.append(t2.as_str());
                        warnings.push(w);
                    }
                    series.fund_value[j] = FundValue { date, fund_value, unit_value };
                    proof {
                        assert(series.fund_value@ =~= upsert_fund_value_in(
                            sm.fund_value,
                            date,
                            fund_value,
                            unit_value,
                        ));
                    }
                } else {
                    proof {
                        lemma_first_fv_at_none(series.fund_value@, date);
                    }
                    series.fund_value.push(FundValue { date, fund_value, unit_value });
                    proof {
                        assert(series.fund_value@ =~= upsert_fund_value_in(
                            sm.fund_value,
                            date,
                            fund_value,
                            unit_value,
                        ));
                    }
                }
                proof {
                    assert(table@ =~= pre.update(
                        i as int,
                        SeriesModel {
                            fund_value: upsert_fund_value_in(
                                sm.fund_value,
                                date,
                                fund_value,
                                unit_value,
                            ),
                            ..sm
                        },
                    ));
                    assert(table@ =~= upsert_fund_value(pre, name, date, fund_value, unit_value));
                }
            },
        }
        k = k + 1;
    }
    proof {
        assert(rms.skip(n as int) =~= Seq::<FundValueRowModel>::empty());
    }
    warnings
}

/// Whether some row of the batch names this fund.
pub open spec fn has_row(rows: Seq<BalanceRowModel>, fund: Seq<char>) -> bool {
    exists|q: int| 0 <= q < rows.len() && (#[trigger] rows[q]).fund == fund
}

/// Whether series `i` is the first with its name; balance rows always
/// land on the first series of their fund.
pub open spec fn first_named(t: Seq<SeriesModel>, i: int) -> bool {
    forall|k: int| 0 <= k < i ==> t[k].fund != t[i].fund
}

/// Balance lists with the same dates in the same places, agreeing
/// everywhere except possibly in the amount of the first `date` record.
pub open spec fn bal_eqv(b1: Seq<Balance>, b2: Seq<Balance>, date: Date) -> bool {
    &&& b1.len() == b2.len()
    &&& forall|k: int| 0 <= k < b1.len() ==> (#[trigger] b1[k]).date == b2[k].date
    &&& forall|k: int|
        0 <= k < b1.len() && k != first_at_date(b1, date) ==> #[trigger] b1[k] == b2[k]
}

/// Agreement of one ledger cell: same fund, actions and fund values, and
/// balances that differ at most in the first `date` record — and then
/// only on a first-named fund the batch will overwrite.
pub open spec fn eqv_cell(
    t1: Seq<SeriesModel>,
    t2: Seq<SeriesModel>,
    date: Date,
    rows: Seq<BalanceRowModel>,
    i: int,
) -> bool {
    &&& t1[i].fund == t2[i].fund
    &&& t1[i].action == t2[i].action
    &&& t1[i].fund_value == t2[i].fund_value
    &&& bal_eqv(t1[i].balance, t2[i].balance, date)
    &&& (t1[i].balance == t2[i].balance || (first_named(t1, i) && has_row(rows, t1[i].fund)))
}

/// Ledgers that agree everywhere except possibly in cells the batch
/// overwrites anyway: the `date` balance of a first-named fund with a row.
pub open spec fn tables_eqv(
    t1: Seq<SeriesModel>,
    t2: Seq<SeriesModel>,
    date: Date,
    rows: Seq<BalanceRowModel>,
) -> bool {
    &&& t1.len() == t2.len()
    &&& forall|i: int| 0 <= i < t1.len() ==> #[trigger] eqv_cell(t1, t2, date, rows, i)
}

proof fn lemma_eqv_unpack(
    t1: Seq<SeriesModel>,
    t2: Seq<SeriesModel>,
    date: Date,
    rows: Seq<BalanceRowModel>,
)
    requires
        tables_eqv(t1, t2, date, rows),
    ensures
        t1.len() == t2.len(),
        forall|i: int|
            0 <= i < t1.len() ==> {
                &&& (#[trigger] t1[i]).fund == t2[i].fund
                &&& t1[i].action == t2[i].action
                &&& t1[i].fund_value == t2[i].fund_value
                &&& bal_eqv(t1[i].balance, t2[i].balance, date)
                &&& (t1[i].balance == t2[i].balance || (first_named(t1, i) && has_row(
                    rows,
                    t1[i].fund,
                )))
            },
{
    assert forall|i: int| 0 <= i < t1.len() implies {
        &&& (#[trigger] t1[i]).fund == t2[i].fund
        &&& t1[i].action == t2[i].action
        &&& t1[i].fund_value == t2[i].fund_value
        &&& bal_eqv(t1[i].balance, t2[i].balance, date)
        &&& (t1[i].balance == t2[i].balance || (first_named(t1, i) && has_row(
            rows,
            t1[i].fund,
        )))
    } by {
        assert(eqv_cell(t1, t2, date, rows, i));
    }
}

proof fn lemma_first_fund_same_names(t1: Seq<SeriesModel>, t2: Seq<SeriesModel>, name: Seq<char>)
    requires
        t1.len() == t2.len(),
        forall|i: int| 0 <= i < t1.len() ==> (#[trigger] t1[i]).fund == t2[i].fund,
    ensures
        first_fund(t1, name) == first_fund(t2, name),
    decreases t1.len(),
{
    if t1.len() > 0 {
        assert(forall|i: int|
            0 <= i < t1.len() - 1 ==> (#[trigger] t1.drop_first()[i]).fund
                == t2.drop_first()[i].fund);
        lemma_first_fund_same_names(t1.drop_first(), t2.drop_first(), name);
    }
}

proof fn lemma_first_at_date_same_dates(b1: Seq<Balance>, b2: Seq<Balance>, date: Date)
    requires
        b1.len() == b2.len(),
        forall|k: int| 0 <= k < b1.len() ==> (#[trigger] b1[k]).date == b2[k].date,
    ensures
        first_at_date(b1, date) == first_at_date(b2, date),
    decreases b1.len(),
{
    if b1.len() > 0 {
        assert(forall|k: int|
            0 <= k < b1.len() - 1 ==> (#[trigger] b1.drop_first()[k]).date
                == b2.drop_first()[k].date);
        lemma_first_at_date_same_dates(b1.drop_first(), b2.drop_first(), date);
    }
}

/// Merging a batch erases every difference its own rows overwrite.
#[verifier::rlimit(100)]
proof fn lemma_merge_erases_eqv(
    t1: Seq<SeriesModel>,
    t2: Seq<SeriesModel>,
    date: Date,
    rows: Seq<BalanceRowModel>,
)
    requires
        tables_eqv(t1, t2, date, rows),
    ensures
        merge_balances_spec(t1, date, rows) == merge_balances_spec(t2, date, rows),
    decreases rows.len(),
{
    lemma_eqv_unpack(t1, t2, date, rows);
    if rows.len() == 0 {
        assert forall|i: int| 0 <= i < t1.len() implies t1[i] == t2[i] by {
            assert(!has_row(rows, t1[i].fund));
            assert(t1[i].balance == t2[i].balance);
        }
        assert(t1 =~= t2);
    } else {
        let r = rows[0];
        let rest = rows.drop_first();
        let u1 = upsert_balance(t1, r.fund, date, r.balance);
        let u2 = upsert_balance(t2, r.fund, date, r.balance);
        lemma_first_fund_same_names(t1, t2, r.fund);
        let i = first_fund(t1, r.fund);
        lemma_first_fund_props(t1, r.fund);
        if i < 0 {
            let fresh = SeriesModel {
                fund: r.fund,
                balance: seq![Balance { date, balance: r.balance }],
                action: Seq::empty(),
                fund_value: Seq::empty(),
            };
            assert(u1 =~~= t1.push(fresh));
            assert(u2 =~~= t2.push(fresh));
            assert(tables_eqv(u1, u2, date, rest)) by {
                assert forall|x: int| 0 <= x < u1.len() implies eqv_cell(u1, u2, date, rest, x) by {
                    if x < t1.len() {
                        assert(u1[x] == t1[x] && u2[x] == t2[x]);
                        lemma_diff_still_rowed(t1, t2, date, rows, x, i);
                        assert(forall|k: int|
                            0 <= k < x ==> #[trigger] u1[k].fund == t1[k].fund);
                    } else {
                        assert(u1[x] == fresh && u2[x] == fresh);
                    }
                }
            }
        } else {
            lemma_first_at_date_same_dates(t1[i].balance, t2[i].balance, date);
            let j = first_at_date(t1[i].balance, date);
            lemma_first_at_date_props(t1[i].balance, date);
            let nb1 = upsert_balance_in(t1[i].balance, date, r.balance);
            let nb2 = upsert_balance_in(t2[i].balance, date, r.balance);
            assert(nb1 =~= nb2) by {
                if j < 0 {
                    assert(forall|k: int|
                        0 <= k < t1[i].balance.len() ==> #[trigger] t1[i].balance[k]
                            == t2[i].balance[k]);
                    assert(t1[i].balance =~= t2[i].balance);
                } else {
                    assert forall|k: int| 0 <= k < nb1.len() implies nb1[k] == nb2[k] by {
                        if k != j {
                            assert(t1[i].balance[k] == t2[i].balance[k]);
                        }
                    }
                }
            }
            assert(u1 =~~= t1.update(i, SeriesModel { balance: nb1, ..t1[i] }));
            assert(u2 =~~= t2.update(i, SeriesModel { balance: nb2, ..t2[i] }));
            assert(tables_eqv(u1, u2, date, rest)) by {
                assert forall|x: int| 0 <= x < u1.len() implies eqv_cell(u1, u2, date, rest, x) by {
                    assert(forall|k: int| 0 <= k < x ==> #[trigger] u1[k].fund == t1[k].fund);
                    if x != i {
                        assert(u1[x] == t1[x] && u2[x] == t2[x]);
                        lemma_diff_still_rowed(t1, t2, date, rows, x, i);
                    } else {
                        assert(u1[i].balance == nb1 && u2[i].balance == nb2);
                    }
                }
            }
        }
        lemma_merge_erases_eqv(u1, u2, date, rest);
    }
}

/// A cell that still differs after row 0 was applied keeps a later row
/// naming it: row 0's own fund lands on its first series alone.
proof fn lemma_diff_still_rowed(
    t1: Seq<SeriesModel>,
    t2: Seq<SeriesModel>,
    date: Date,
    rows: Seq<BalanceRowModel>,
    x: int,
    i: int,
)
    requires
        tables_eqv(t1, t2, date, rows),
        rows.len() > 0,
        0 <= x < t1.len(),
        x != i,
        i == first_fund(t1, rows[0].fund),
    ensures
        t1[x].balance == t2[x].balance || (first_named(t1, x) && has_row(
            rows.drop_first(),
            t1[x].fund,
        )),
{
    lemma_eqv_unpack(t1, t2, date, rows);
    if t1[x].balance != t2[x].balance {
        assert(first_named(t1, x) && has_row(rows, t1[x].fund));
        let q = choose|q: int| 0 <= q < rows.len() && (#[trigger] rows[q]).fund == t1[x].fund;
        if q == 0 {
            // row 0 names this fund, so x would be its first series: but
            // the first series of that name is i, and x is first-named
            lemma_first_fund_props(t1, rows[0].fund);
            if i < 0 {
                assert(t1[x].fund != rows[0].fund);
                assert(false);
            } else {
                assert(t1[i].fund == t1[x].fund);
                if x < i {
                    assert(t1[x].fund != rows[0].fund);
                    assert(false);
                } else {
                    assert(t1[i].fund != t1[x].fund);
                    assert(false);
                }
            }
        } else {
            assert(rows.drop_first()[q - 1].fund == t1[x].fund);
        }
    }
}

/// Facts every merge guarantees about the series that were already there:
/// names, actions and fund values are untouched; a fund no row names
/// keeps its balances; and a `date` record never disappears.
proof fn lemma_merge_preserves(x: Seq<SeriesModel>, date: Date, rows: Seq<BalanceRowModel>)
    ensures
        merge_balances_spec(x, date, rows).len() >= x.len(),
        forall|i: int|
            0 <= i < x.len() ==> {
                &&& (#[trigger] merge_balances_spec(x, date, rows)[i]).fund == x[i].fund
                &&& merge_balances_spec(x, date, rows)[i].action == x[i].action
                &&& merge_balances_spec(x, date, rows)[i].fund_value == x[i].fund_value
            },
        forall|i: int|
            0 <= i < x.len() && !has_row(rows, (#[trigger] x[i]).fund)
                ==> merge_balances_spec(x, date, rows)[i].balance == x[i].balance,
        forall|i: int|
            0 <= i < x.len() && first_at_date((#[trigger] x[i]).balance, date) >= 0
                ==> first_at_date(merge_balances_spec(x, date, rows)[i].balance, date) >= 0,
    decreases rows.len(),
{
    if rows.len() > 0 {
        let r = rows[0];
        let rest = rows.drop_first();
        let u = upsert_balance(x, r.fund, date, r.balance);
        let i0 = first_fund(x, r.fund);
        lemma_first_fund_props(x, r.fund);
        lemma_merge_preserves(u, date, rest);
        assert forall|i: int| 0 <= i < x.len() implies {
            &&& (#[trigger] u[i]).fund == x[i].fund
            &&& u[i].action == x[i].action
            &&& u[i].fund_value == x[i].fund_value
            &&& (!has_row(rows, x[i].fund) ==> u[i].balance == x[i].balance)
            &&& (first_at_date(x[i].balance, date) >= 0 ==> first_at_date(
                u[i].balance,
                date,
            ) >= 0)
        } by {
            if i0 >= 0 && i == i0 {
                assert(u[i].fund == x[i].fund);
                if !has_row(rows, x[i].fund) {
                    assert(rows[0].fund == x[i0].fund);
                    assert(false);
                }
                let j = first_at_date(x[i].balance, date);
                lemma_first_at_date_props(x[i].balance, date);
                let nb = upsert_balance_in(x[i].balance, date, r.balance);
                if j >= 0 {
                    assert(nb[j].date == date);
                    lemma_first_at_date_props(nb, date);
                    if first_at_date(nb, date) < 0 {
                        assert(false);
                    }
                } else {
                    assert(nb[x[i].balance.len() as int].date == date);
                    lemma_first_at_date_props(nb, date);
                    if first_at_date(nb, date) < 0 {
                        assert(false);
                    }
                }
            }
        }
        assert forall|i: int|
            0 <= i < x.len() && !has_row(rows, (#[trigger] x[i]).fund) implies merge_balances_spec(
            x,
            date,
            rows,
        )[i].balance == x[i].balance by {
            if has_row(rest, u[i].fund) {
                let q = choose|q: int|
                    0 <= q < rest.len() && (#[trigger] rest[q]).fund == u[i].fund;
                assert(rows[q + 1].fund == x[i].fund);
                assert(false);
            }
            assert(merge_balances_spec(u, date, rest)[i].balance == u[i].balance);
        }
    }
}

/// After an upsert the fund exists, and its first series carries a `date`
/// record holding exactly the upserted amount.
proof fn lemma_upsert_creates_record(
    t: Seq<SeriesModel>,
    name: Seq<char>,
    date: Date,
    amount: Cents,
)
    ensures
        ({
            let u = upsert_balance(t, name, date, amount);
            let i = first_fund(u, name);
            &&& 0 <= i < u.len()
            &&& u[i].fund == name
            &&& first_at_date(u[i].balance, date) >= 0
            &&& u[i].balance[first_at_date(u[i].balance, date)] == (Balance {
                date,
                balance: amount,
            })
        }),
{
    let b = Balance { date, balance: amount };
    let u = upsert_balance(t, name, date, amount);
    let i0 = first_fund(t, name);
    lemma_first_fund_props(t, name);
    if i0 < 0 {
        lemma_first_fund_at(u, name, t.len() as int);
        lemma_first_at_date_at(seq![b], date, 0);
    } else {
        assert(forall|k: int| 0 <= k < i0 ==> #[trigger] u[k].fund == t[k].fund);
        lemma_first_fund_at(u, name, i0);
        let j = first_at_date(t[i0].balance, date);
        lemma_first_at_date_props(t[i0].balance, date);
        let nb = upsert_balance_in(t[i0].balance, date, amount);
        if j < 0 {
            lemma_first_at_date_at(nb, date, t[i0].balance.len() as int);
        } else {
            assert(forall|k: int|
                0 <= k < j ==> #[trigger] nb[k].date == t[i0].balance[k].date);
            lemma_first_at_date_at(nb, date, j);
        }
    }
}

/// Upserting a value the ledger already stores for that fund and date
/// changes nothing.
proof fn lemma_upsert_balance_absorbed(
    t: Seq<SeriesModel>,
    name: Seq<char>,
    date: Date,
    amount: Cents,
)
    requires
        first_fund(t, name) >= 0,
        first_at_date(t[first_fund(t, name)].balance, date) >= 0,
        t[first_fund(t, name)].balance[first_at_date(
            t[first_fund(t, name)].balance,
            date,
        )] == (Balance { date, balance: amount }),
    ensures
        upsert_balance(t, name, date, amount) == t,
{
    let i = first_fund(t, name);
    lemma_first_fund_props(t, name);
    let j = first_at_date(t[i].balance, date);
    let nb = upsert_balance_in(t[i].balance, date, amount);
    lemma_first_at_date_props(t[i].balance, date);
    assert(nb =~= t[i].balance);
    assert(SeriesModel { balance: nb, ..t[i] } =~~= t[i]);
    assert(SeriesModel { balance: nb, ..t[i] } == t[i]);
    assert forall|k: int| 0 <= k < t.len() implies t.update(
        i,
        SeriesModel { balance: nb, ..t[i] },
    )[k] == t[k] by {}
    assert(t.update(i, SeriesModel { balance: nb, ..t[i] }) =~= t);
}

/// Merging the same balance batch twice gives exactly the ledger one
/// merge gives: re-pasting the same snapshot page changes nothing.
pub proof fn lemma_merge_balances_idempotent(
    t: Seq<SeriesModel>,
    date: Date,
    rows: Seq<BalanceRowModel>,
)
    ensures
        merge_balances_spec(merge_balances_spec(t, date, rows), date, rows)
            == merge_balances_spec(t, date, rows),
    decreases rows.len(),
{
    if rows.len() > 0 {
        let r = rows[0];
        let rest = rows.drop_first();
        let x = upsert_balance(t, r.fund, date, r.balance);
        let m = merge_balances_spec(x, date, rest);
        lemma_merge_balances_idempotent(x, date, rest);
        lemma_upsert_creates_record(t, r.fund, date, r.balance);
        let i0 = first_fund(x, r.fund);
        lemma_merge_preserves(x, date, rest);
        assert(m[i0].fund == r.fund);
        assert(forall|k: int| 0 <= k < i0 ==> #[trigger] m[k].fund == x[k].fund);
        lemma_first_fund_props(x, r.fund);
        lemma_first_fund_at(m, r.fund, i0);
        if !has_row(rest, r.fund) {
            // untouched by the rest of the batch: the record still holds
            // the amount, so the repeated row is absorbed
            assert(m[i0].balance == x[i0].balance);
            lemma_upsert_balance_absorbed(m, r.fund, date, r.balance);
            assert(merge_balances_spec(m, date, rows) == merge_balances_spec(
                upsert_balance(m, r.fund, date, r.balance),
                date,
                rest,
            ));
        } else {
            // a later row overwrites the same cell: the repeat differs
            // from the merged ledger only there, and merging erases it
            let u = upsert_balance(m, r.fund, date, r.balance);
            let j1 = first_at_date(m[i0].balance, date);
            assert(j1 >= 0);
            lemma_first_at_date_props(m[i0].balance, date);
            let nb = upsert_balance_in(m[i0].balance, date, r.balance);
            assert(u =~~= m.update(i0, SeriesModel { balance: nb, ..m[i0] }));
            assert(tables_eqv(u, m, date, rest)) by {
                assert forall|y: int| 0 <= y < u.len() implies eqv_cell(u, m, date, rest, y) by {
                    assert(forall|k: int| 0 <= k < y ==> #[trigger] u[k].fund == m[k].fund);
                    if y == i0 {
                        assert(bal_eqv(u[y].balance, m[y].balance, date)) by {
                            lemma_first_at_date_same_dates(nb, m[i0].balance, date);
                            assert(forall|k: int|
                                0 <= k < nb.len() && k != j1 ==> #[trigger] nb[k]
                                    == m[i0].balance[k]);
                        }
                        assert(first_named(u, i0)) by {
                            assert(forall|k: int| 0 <= k < i0 ==> #[trigger] m[k].fund != r.fund);
                        }
                    } else {
                        assert(u[y] == m[y]);
                    }
                }
            }
            lemma_merge_erases_eqv(u, m, date, rest);
        }
    }
}

/// Whether some row of the batch names this fund and date.
pub open spec fn has_fv_row(rows: Seq<FundValueRowModel>, fund: Seq<char>, date: Date) -> bool {
    exists|q: int|
        0 <= q < rows.len() && (#[trigger] rows[q]).fund == fund && rows[q].date == date
}

proof fn lemma_first_fv_at_same_dates(b1: Seq<FundValue>, b2: Seq<FundValue>, date: Date)
    requires
        b1.len() == b2.len(),
        forall|k: int| 0 <= k < b1.len() ==> (#[trigger] b1[k]).date == b2[k].date,
    ensures
        first_fv_at(b1, date) == first_fv_at(b2, date),
    decreases b1.len(),
{
    if b1.len() > 0 {
        assert(forall|k: int|
            0 <= k < b1.len() - 1 ==> (#[trigger] b1.drop_first()[k]).date
                == b2.drop_first()[k].date);
        lemma_first_fv_at_same_dates(b1.drop_first(), b2.drop_first(), date);
    }
}

/// Value-record lists with the same dates in the same places, agreeing
/// except possibly in the first record of a date the batch overwrites on
/// this fund.
pub open spec fn fv_cell_eqv(
    t1: Seq<SeriesModel>,
    t2: Seq<SeriesModel>,
    rows: Seq<FundValueRowModel>,
    i: int,
) -> bool {
    &&& t1[i].fund == t2[i].fund
    &&& t1[i].action == t2[i].action
    &&& t1[i].balance == t2[i].balance
    &&& t1[i].fund_value.len() == t2[i].fund_value.len()
    &&& forall|k: int|
        0 <= k < t1[i].fund_value.len() ==> (#[trigger] t1[i].fund_value[k]).date
            == t2[i].fund_value[k].date
    &&& forall|k: int|
        0 <= k < t1[i].fund_value.len() && !(first_named(t1, i) && k == first_fv_at(
            t1[i].fund_value,
            t1[i].fund_value[k].date,
        ) && has_fv_row(rows, t1[i].fund, t1[i].fund_value[k].date))
            ==> #[trigger] t1[i].fund_value[k] == t2[i].fund_value[k]
}

/// Ledgers that agree except possibly in value cells the batch
/// overwrites anyway.
pub open spec fn fv_tables_eqv(
    t1: Seq<SeriesModel>,
    t2: Seq<SeriesModel>,
    rows: Seq<FundValueRowModel>,
) -> bool {
    &&& t1.len() == t2.len()
    &&& forall|i: int| 0 <= i < t1.len() ==> #[trigger] fv_cell_eqv(t1, t2, rows, i)
}

proof fn lemma_fv_eqv_unpack(
    t1: Seq<SeriesModel>,
    t2: Seq<SeriesModel>,
    rows: Seq<FundValueRowModel>,
)
    requires
        fv_tables_eqv(t1, t2, rows),
    ensures
        t1.len() == t2.len(),
        forall|i: int|
            0 <= i < t1.len() ==> {
                &&& (#[trigger] t1[i]).fund == t2[i].fund
                &&& t1[i].action == t2[i].action
                &&& t1[i].balance == t2[i].balance
                &&& t1[i].fund_value.len() == t2[i].fund_value.len()
            },
        forall|i: int, k: int|
            0 <= i < t1.len() && 0 <= k < t1[i].fund_value.len() ==> (
            #[trigger] t1[i].fund_value[k]).date == t2[i].fund_value[k].date,
        forall|i: int, k: int|
            0 <= i < t1.len() && 0 <= k < t1[i].fund_value.len() && !(first_named(t1, i) && k
                == first_fv_at(t1[i].fund_value, t1[i].fund_value[k].date) && has_fv_row(
                rows,
                t1[i].fund,
                t1[i].fund_value[k].date,
            )) ==> #[trigger] t1[i].fund_value[k] == t2[i].fund_value[k],
{
    assert forall|i: int| 0 <= i < t1.len() implies {
        &&& (#[trigger] t1[i]).fund == t2[i].fund
        &&& t1[i].action == t2[i].action
        &&& t1[i].balance == t2[i].balance
        &&& t1[i].fund_value.len() == t2[i].fund_value.len()
    } by {
        assert(fv_cell_eqv(t1, t2, rows, i));
    }
    assert forall|i: int, k: int|
        0 <= i < t1.len() && 0 <= k < t1[i].fund_value.len() implies (
    #[trigger] t1[i].fund_value[k]).date == t2[i].fund_value[k].date by {
        assert(fv_cell_eqv(t1, t2, rows, i));
    }
    assert forall|i: int, k: int|
        0 <= i < t1.len() && 0 <= k < t1[i].fund_value.len() && !(first_named(t1, i) && k
            == first_fv_at(t1[i].fund_value, t1[i].fund_value[k].date) && has_fv_row(
            rows,
            t1[i].fund,
            t1[i].fund_value[k].date,
        )) implies #[trigger] t1[i].fund_value[k] == t2[i].fund_value[k] by {
        assert(fv_cell_eqv(t1, t2, rows, i));
    }
}

/// Merging a batch of value rows erases every difference its own rows
/// overwrite.
#[verifier::rlimit(100)]
proof fn lemma_merge_fv_erases_eqv(
    t1: Seq<SeriesModel>,
    t2: Seq<SeriesModel>,
    rows: Seq<FundValueRowModel>,
)
    requires
        fv_tables_eqv(t1, t2, rows),
    ensures
        merge_fund_values_spec(t1, rows) == merge_fund_values_spec(t2, rows),
    decreases rows.len(),
{
    lemma_fv_eqv_unpack(t1, t2, rows);
    if rows.len() == 0 {
        assert forall|i: int| 0 <= i < t1.len() implies t1[i] == t2[i] by {
            assert(fv_cell_eqv(t1, t2, rows, i));
            assert forall|k: int|
                0 <= k < t1[i].fund_value.len() implies #[trigger] t1[i].fund_value[k]
                == t2[i].fund_value[k] by {
                assert(!has_fv_row(rows, t1[i].fund, t1[i].fund_value[k].date));
            }
            assert(t1[i].fund_value =~= t2[i].fund_value);
            assert(t1[i] =~~= t2[i]);
        }
        assert(t1 =~= t2);
    } else {
        let r = rows[0];
        let rest = rows.drop_first();
        let u1 = upsert_fund_value(t1, r.fund, r.date, r.fund_value, r.unit_value);
        let u2 = upsert_fund_value(t2, r.fund, r.date, r.fund_value, r.unit_value);
        lemma_first_fund_same_names(t1, t2, r.fund);
        let i = first_fund(t1, r.fund);
        lemma_first_fund_props(t1, r.fund);
        let b = FundValue { date: r.date, fund_value: r.fund_value, unit_value: r.unit_value };
        if i < 0 {
            let fresh = SeriesModel {
                fund: r.fund,
                balance: Seq::empty(),
                action: Seq::empty(),
                fund_value: seq![b],
            };
            assert(u1 =~~= t1.push(fresh));
            assert(u2 =~~= t2.push(fresh));
            assert(fv_tables_eqv(u1, u2, rest)) by {
                assert forall|x: int| 0 <= x < u1.len() implies fv_cell_eqv(u1, u2, rest, x) by {
                    if x < t1.len() {
                        assert(u1[x] == t1[x] && u2[x] == t2[x]);
                        assert(forall|k: int|
                            0 <= k < x ==> #[trigger] u1[k].fund == t1[k].fund);
                        lemma_fv_diff_still_rowed(t1, t2, rows, x, i);
                    } else {
                        assert(u1[x] == fresh && u2[x] == fresh);
                    }
                }
            }
        } else {
            lemma_first_fv_at_same_dates(t1[i].fund_value, t2[i].fund_value, r.date);
            let j = first_fv_at(t1[i].fund_value, r.date);
            lemma_first_fv_at_props(t1[i].fund_value, r.date);
            let nb1 = upsert_fund_value_in(t1[i].fund_value, r.date, r.fund_value, r.unit_value);
            let nb2 = upsert_fund_value_in(t2[i].fund_value, r.date, r.fund_value, r.unit_value);
            assert(u1 =~~= t1.update(i, SeriesModel { fund_value: nb1, ..t1[i] }));
            assert(u2 =~~= t2.update(i, SeriesModel { fund_value: nb2, ..t2[i] }));
            assert(fv_tables_eqv(u1, u2, rest)) by {
                assert forall|x: int| 0 <= x < u1.len() implies fv_cell_eqv(u1, u2, rest, x) by {
                    assert(forall|k: int| 0 <= k < x ==> #[trigger] u1[k].fund == t1[k].fund);
                    if x != i {
                        assert(u1[x] == t1[x] && u2[x] == t2[x]);
                        lemma_fv_diff_still_rowed(t1, t2, rows, x, i);
                    } else {
                        assert(u1[i].fund_value == nb1 && u2[i].fund_value == nb2);
                        assert(nb1.len() == nb2.len());
                        assert(forall|k: int|
                            0 <= k < nb1.len() ==> (#[trigger] nb1[k]).date == nb2[k].date);
                        lemma_fv_cell_step(t1, t2, rows, i, j, nb1, nb2, r);
                    }
                }
            }
        }
        lemma_merge_fv_erases_eqv(u1, u2, rest);
    }
}

/// After row 0's upsert lands at the first `date` record of series `i`,
/// every remaining difference there is justified by a later row.
proof fn lemma_fv_cell_step(
    t1: Seq<SeriesModel>,
    t2: Seq<SeriesModel>,
    rows: Seq<FundValueRowModel>,
    i: int,
    j: int,
    nb1: Seq<FundValue>,
    nb2: Seq<FundValue>,
    r: FundValueRowModel,
)
    requires
        fv_tables_eqv(t1, t2, rows),
        rows.len() > 0,
        rows[0] == r,
        0 <= i < t1.len(),
        i == first_fund(t1, r.fund),
        t1[i].fund == r.fund,
        j == first_fv_at(t1[i].fund_value, r.date),
        j == first_fv_at(t2[i].fund_value, r.date),
        nb1 == upsert_fund_value_in(t1[i].fund_value, r.date, r.fund_value, r.unit_value),
        nb2 == upsert_fund_value_in(t2[i].fund_value, r.date, r.fund_value, r.unit_value),
    ensures
        forall|k: int|
            0 <= k < nb1.len() && !(first_named(t1, i) && k == first_fv_at(
                nb1,
                nb1[k].date,
            ) && has_fv_row(rows.drop_first(), t1[i].fund, nb1[k].date)) ==> #[trigger] nb1[k]
                == nb2[k],
{
    lemma_fv_eqv_unpack(t1, t2, rows);
    let old1 = t1[i].fund_value;
    let old2 = t2[i].fund_value;
    let b = FundValue { date: r.date, fund_value: r.fund_value, unit_value: r.unit_value };
    lemma_first_fv_at_props(old1, r.date);
    assert forall|k: int|
        0 <= k < nb1.len() && !(first_named(t1, i) && k == first_fv_at(nb1, nb1[k].date)
            && has_fv_row(rows.drop_first(), t1[i].fund, nb1[k].date)) implies #[trigger] nb1[k]
        == nb2[k] by {
        if j < 0 {
            // a fresh record for this date was appended to both sides
            assert(nb1 =~= old1.push(b) && nb2 =~= old2.push(b));
            if k < old1.len() {
                lemma_fv_old_position(t1, t2, rows, i, k, old1, nb1, j);
                if nb1[k] != nb2[k] {
                    assert(old1[k] != old2[k]);
                    assert(first_named(t1, i) && k == first_fv_at(old1, old1[k].date)
                        && has_fv_row(rows, t1[i].fund, old1[k].date));
                    assert(old1[k].date != r.date);
                    let q = choose|q: int|
                        0 <= q < rows.len() && (#[trigger] rows[q]).fund == t1[i].fund
                            && rows[q].date == old1[k].date;
                    assert(q != 0);
                    assert(rows.drop_first()[q - 1].fund == t1[i].fund);
                    assert(has_fv_row(rows.drop_first(), t1[i].fund, nb1[k].date));
                    assert(false);
                }
            }
        } else {
            assert(nb1 =~= old1.update(j, b) && nb2 =~= old2.update(j, b));
            if k != j && nb1[k] != nb2[k] {
                assert(old1[k] != old2[k]);
                assert(first_named(t1, i) && k == first_fv_at(old1, old1[k].date)
                    && has_fv_row(rows, t1[i].fund, old1[k].date));
                lemma_first_fv_at_same_dates(old1, nb1, old1[k].date);
                if old1[k].date == r.date {
                    lemma_first_fv_at_props(old1, old1[k].date);
                    assert(k == j);
                    assert(false);
                }
                let q = choose|q: int|
                    0 <= q < rows.len() && (#[trigger] rows[q]).fund == t1[i].fund
                        && rows[q].date == old1[k].date;
                assert(q != 0);
                assert(rows.drop_first()[q - 1].fund == t1[i].fund);
                assert(has_fv_row(rows.drop_first(), t1[i].fund, nb1[k].date));
                assert(false);
            }
        }
    }
}

/// The first record of an old date keeps its index when a new-date record
/// is appended.
proof fn lemma_fv_old_position(
    t1: Seq<SeriesModel>,
    t2: Seq<SeriesModel>,
    rows: Seq<FundValueRowModel>,
    i: int,
    k: int,
    old1: Seq<FundValue>,
    nb1: Seq<FundValue>,
    j: int,
)
    requires
        0 <= k < old1.len(),
        nb1.len() == old1.len() + 1,
        forall|q: int| 0 <= q < old1.len() ==> #[trigger] nb1[q] == old1[q],
        nb1[old1.len() as int].date != old1[k].date,
    ensures
        first_fv_at(nb1, old1[k].date) == first_fv_at(old1, old1[k].date),
{
    let d = old1[k].date;
    lemma_first_fv_at_props(old1, d);
    let f = first_fv_at(old1, d);
    if f >= 0 {
        lemma_first_fv_at_at(nb1, d, f);
    } else {
        assert forall|q: int| 0 <= q < nb1.len() implies nb1[q].date != d by {
            if q < old1.len() {
                assert(old1[q].date != d);
            }
        }
        lemma_first_fv_at_none(nb1, d);
        assert(old1[k].date == d);
        assert(false);
    }
}

/// A cell that still differs after row 0 was applied to another series
/// keeps a later row naming it.
proof fn lemma_fv_diff_still_rowed(
    t1: Seq<SeriesModel>,
    t2: Seq<SeriesModel>,
    rows: Seq<FundValueRowModel>,
    x: int,
    i: int,
)
    requires
        fv_tables_eqv(t1, t2, rows),
        rows.len() > 0,
        0 <= x < t1.len(),
        x != i,
        i == first_fund(t1, rows[0].fund),
    ensures
        forall|k: int|
            0 <= k < t1[x].fund_value.len() && !(first_named(t1, x) && k == first_fv_at(
                t1[x].fund_value,
                (#[trigger] t1[x].fund_value[k]).date,
            ) && has_fv_row(rows.drop_first(), t1[x].fund, t1[x].fund_value[k].date))
                ==> t1[x].fund_value[k] == t2[x].fund_value[k],
{
    lemma_fv_eqv_unpack(t1, t2, rows);
    assert forall|k: int|
        0 <= k < t1[x].fund_value.len() && !(first_named(t1, x) && k == first_fv_at(
            t1[x].fund_value,
            (#[trigger] t1[x].fund_value[k]).date,
        ) && has_fv_row(rows.drop_first(), t1[x].fund, t1[x].fund_value[k].date))
        implies t1[x].fund_value[k] == t2[x].fund_value[k] by {
        if t1[x].fund_value[k] != t2[x].fund_value[k] {
            assert(first_named(t1, x) && k == first_fv_at(
                t1[x].fund_value,
                t1[x].fund_value[k].date,
            ) && has_fv_row(rows, t1[x].fund, t1[x].fund_value[k].date));
            let q = choose|q: int|
                0 <= q < rows.len() && (#[trigger] rows[q]).fund == t1[x].fund && rows[q].date
                    == t1[x].fund_value[k].date;
            if q == 0 {
                lemma_first_fund_props(t1, rows[0].fund);
                if i < 0 {
                    assert(false);
                } else {
                    assert(t1[i].fund == t1[x].fund);
                    if x < i {
                        assert(false);
                    } else {
                        assert(t1[i].fund != t1[x].fund);
                        assert(false);
                    }
                }
            } else {
                assert(rows.drop_first()[q - 1].fund == t1[x].fund);
            }
        }
    }
}

/// Facts every value merge guarantees about the series already there:
/// names, balances and actions are untouched; a fund no row names keeps
/// its value records; a dated record never disappears; and one whose
/// (fund, date) cell no row names keeps its first record unchanged.
proof fn lemma_merge_fv_preserves(x: Seq<SeriesModel>, rows: Seq<FundValueRowModel>)
    ensures
        merge_fund_values_spec(x, rows).len() >= x.len(),
        forall|i: int|
            0 <= i < x.len() ==> {
                &&& (#[trigger] merge_fund_values_spec(x, rows)[i]).fund == x[i].fund
                &&& merge_fund_values_spec(x, rows)[i].action == x[i].action
                &&& merge_fund_values_spec(x, rows)[i].balance == x[i].balance
            },
        forall|i: int, d: Date|
            0 <= i < x.len() && #[trigger] first_fv_at(x[i].fund_value, d) >= 0
                ==> first_fv_at(merge_fund_values_spec(x, rows)[i].fund_value, d) >= 0,
        forall|i: int, d: Date|
            0 <= i < x.len() && #[trigger] first_fv_at(x[i].fund_value, d) >= 0
                && !has_fv_row(rows, x[i].fund, d) ==> merge_fund_values_spec(
                x,
                rows,
            )[i].fund_value[first_fv_at(merge_fund_values_spec(x, rows)[i].fund_value, d)]
                == x[i].fund_value[first_fv_at(x[i].fund_value, d)],
    decreases rows.len(),
{
    if rows.len() > 0 {
        let r = rows[0];
        let rest = rows.drop_first();
        let u = upsert_fund_value(x, r.fund, r.date, r.fund_value, r.unit_value);
        let i0 = first_fund(x, r.fund);
        lemma_first_fund_props(x, r.fund);
        lemma_merge_fv_preserves(u, rest);
        let b = FundValue { date: r.date, fund_value: r.fund_value, unit_value: r.unit_value };
        assert forall|i: int, d: Date|
            0 <= i < x.len() && #[trigger] first_fv_at(x[i].fund_value, d) >= 0 implies {
            &&& first_fv_at(u[i].fund_value, d) >= 0
            &&& (!has_fv_row(rows, x[i].fund, d) ==> u[i].fund_value[first_fv_at(
                u[i].fund_value,
                d,
            )] == x[i].fund_value[first_fv_at(x[i].fund_value, d)])
        } by {
            if i0 >= 0 && i == i0 {
                let old = x[i].fund_value;
                let j = first_fv_at(old, r.date);
                lemma_first_fv_at_props(old, r.date);
                let nb = upsert_fund_value_in(old, r.date, r.fund_value, r.unit_value);
                let f = first_fv_at(old, d);
                lemma_first_fv_at_props(old, d);
                if j < 0 {
                    assert(nb =~= old.push(b));
                    if d == r.date {
                        assert(false);
                    }
                    lemma_first_fv_at_at(nb, d, f);
                } else {
                    assert(nb =~= old.update(j, b));
                    lemma_first_fv_at_same_dates(old, nb, d);
                    if !has_fv_row(rows, x[i].fund, d) {
                        assert(d != r.date);
                        assert(f != j);
                    }
                }
            } else {
                assert(u[i] == x[i]);
            }
        }
        assert forall|i: int, d: Date|
            0 <= i < x.len() && #[trigger] first_fv_at(x[i].fund_value, d) >= 0
                && !has_fv_row(rows, x[i].fund, d) implies merge_fund_values_spec(
            x,
            rows,
        )[i].fund_value[first_fv_at(merge_fund_values_spec(x, rows)[i].fund_value, d)]
            == x[i].fund_value[first_fv_at(x[i].fund_value, d)] by {
            assert(u[i].fund == x[i].fund);
            if has_fv_row(rest, u[i].fund, d) {
                let q = choose|q: int|
                    0 <= q < rest.len() && (#[trigger] rest[q]).fund == u[i].fund && rest[q].date
                        == d;
                assert(rows[q + 1].fund == x[i].fund && rows[q + 1].date == d);
                assert(false);
            }
        }
    }
}

/// After an upsert the fund exists, and its first series carries a record
/// for the date holding exactly the upserted values.
proof fn lemma_upsert_fv_creates_record(
    t: Seq<SeriesModel>,
    name: Seq<char>,
    date: Date,
    fund_value: Cents,
    unit_value: Cents,
)
    ensures
        ({
            let u = upsert_fund_value(t, name, date, fund_value, unit_value);
            let i = first_fund(u, name);
            &&& 0 <= i < u.len()
            &&& u[i].fund == name
            &&& first_fv_at(u[i].fund_value, date) >= 0
            &&& u[i].fund_value[first_fv_at(u[i].fund_value, date)] == (FundValue {
                date,
                fund_value,
                unit_value,
            })
        }),
{
    let b = FundValue { date, fund_value, unit_value };
    let u = upsert_fund_value(t, name, date, fund_value, unit_value);
    let i0 = first_fund(t, name);
    lemma_first_fund_props(t, name);
    if i0 < 0 {
        lemma_first_fund_at(u, name, t.len() as int);
        lemma_first_fv_at_at(seq![b], date, 0);
    } else {
        assert(forall|k: int| 0 <= k < i0 ==> #[trigger] u[k].fund == t[k].fund);
        lemma_first_fund_at(u, name, i0);
        let j = first_fv_at(t[i0].fund_value, date);
        lemma_first_fv_at_props(t[i0].fund_value, date);
        let nb = upsert_fund_value_in(t[i0].fund_value, date, fund_value, unit_value);
        if j < 0 {
            lemma_first_fv_at_at(nb, date, t[i0].fund_value.len() as int);
        } else {
            assert(forall|k: int|
                0 <= k < j ==> #[trigger] nb[k].date == t[i0].fund_value[k].date);
            lemma_first_fv_at_at(nb, date, j);
        }
    }
}

/// Upserting values the ledger already stores for that fund and date
/// changes nothing.
proof fn lemma_upsert_fv_absorbed(
    t: Seq<SeriesModel>,
    name: Seq<char>,
    date: Date,
    fund_value: Cents,
    unit_value: Cents,
)
    requires
        first_fund(t, name) >= 0,
        first_fv_at(t[first_fund(t, name)].fund_value, date) >= 0,
        t[first_fund(t, name)].fund_value[first_fv_at(
            t[first_fund(t, name)].fund_value,
            date,
        )] == (FundValue { date, fund_value, unit_value }),
    ensures
        upsert_fund_value(t, name, date, fund_value, unit_value) == t,
{
    let i = first_fund(t, name);
    lemma_first_fund_props(t, name);
    let j = first_fv_at(t[i].fund_value, date);
    let nb = upsert_fund_value_in(t[i].fund_value, date, fund_value, unit_value);
    lemma_first_fv_at_props(t[i].fund_value, date);
    assert(nb =~= t[i].fund_value);
    assert(SeriesModel { fund_value: nb, ..t[i] } =~~= t[i]);
    assert(SeriesModel { fund_value: nb, ..t[i] } == t[i]);
    assert forall|k: int| 0 <= k < t.len() implies t.update(
        i,
        SeriesModel { fund_value: nb, ..t[i] },
    )[k] == t[k] by {}
    assert(t.update(i, SeriesModel { fund_value: nb, ..t[i] }) =~= t);
}

/// Merging the same fund-value batch twice gives exactly the ledger one
/// merge gives: re-pasting the same returns report changes nothing.
pub proof fn lemma_merge_fund_values_idempotent(
    t: Seq<SeriesModel>,
    rows: Seq<FundValueRowModel>,
)
    ensures
        merge_fund_values_spec(merge_fund_values_spec(t, rows), rows)
            == merge_fund_values_spec(t, rows),
    decreases rows.len(),
{
    if rows.len() > 0 {
        let r = rows[0];
        let rest = rows.drop_first();
        let x = upsert_fund_value(t, r.fund, r.date, r.fund_value, r.unit_value);
        let m = merge_fund_values_spec(x, rest);
        lemma_merge_fund_values_idempotent(x, rest);
        lemma_upsert_fv_creates_record(t, r.fund, r.date, r.fund_value, r.unit_value);
        let i0 = first_fund(x, r.fund);
        lemma_merge_fv_preserves(x, rest);
        assert(m[i0].fund == r.fund);
        assert(forall|k: int| 0 <= k < i0 ==> #[trigger] m[k].fund == x[k].fund);
        lemma_first_fund_props(x, r.fund);
        lemma_first_fund_at(m, r.fund, i0);
        let b = FundValue { date: r.date, fund_value: r.fund_value, unit_value: r.unit_value };
        let j1 = first_fv_at(m[i0].fund_value, r.date);
        assert(j1 >= 0);
        if !has_fv_row(rest, r.fund, r.date) {
            assert(m[i0].fund_value[j1] == b);
            lemma_upsert_fv_absorbed(m, r.fund, r.date, r.fund_value, r.unit_value);
        } else {
            let u = upsert_fund_value(m, r.fund, r.date, r.fund_value, r.unit_value);
            lemma_first_fv_at_props(m[i0].fund_value, r.date);
            let nb = upsert_fund_value_in(m[i0].fund_value, r.date, r.fund_value, r.unit_value);
            assert(nb =~= m[i0].fund_value.update(j1, b));
            assert(u =~~= m.update(i0, SeriesModel { fund_value: nb, ..m[i0] }));
            assert(fv_tables_eqv(u, m, rest)) by {
                assert forall|y: int| 0 <= y < u.len() implies fv_cell_eqv(u, m, rest, y) by {
                    assert(forall|k: int| 0 <= k < y ==> #[trigger] u[k].fund == m[k].fund);
                    if y == i0 {
                        assert(forall|k: int|
                            0 <= k < nb.len() ==> (#[trigger] nb[k]).date
                                == m[i0].fund_value[k].date);
                        lemma_first_fv_at_same_dates(nb, m[i0].fund_value, r.date);
                        assert(first_named(u, i0)) by {
                            assert(forall|k: int| 0 <= k < i0 ==> #[trigger] m[k].fund != r.fund);
                        }
                        assert forall|k: int|
                            0 <= k < nb.len() && !(first_named(u, i0) && k == first_fv_at(
                                nb,
                                (#[trigger] nb[k]).date,
                            ) && has_fv_row(rest, u[i0].fund, nb[k].date))
                            implies nb[k] == m[i0].fund_value[k] by {
                            if k != j1 {
                            } else {
                                lemma_first_fv_at_same_dates(nb, m[i0].fund_value, nb[k].date);
                                assert(nb[j1].date == r.date);
                                assert(k == first_fv_at(nb, nb[k].date));
                                assert(has_fv_row(rest, u[i0].fund, r.date));
                                assert(false);
                            }
                        }
                    } else {
                        assert(u[y] == m[y]);
                    }
                }
            }
            lemma_merge_fv_erases_eqv(u, m, rest);
        }
    }
}

} // verus!
