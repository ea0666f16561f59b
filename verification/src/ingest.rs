//! The three report readers: each drives a small state machine over the
//! pasted lines, matching the bank's literal header and footer markers,
//! parses the payload rows between them, and merges the rows into the
//! ledger.  A malformed field aborts the whole pass with a contextual
//! error before anything is merged; a changed value on a known date is
//! only a warning.

use vstd::prelude::*;
use crate::date::{Date, parse_date, parse_date_spec};
use crate::ledger::{
    Action, BalanceRow, BalanceRowModel, FundValueRow, FundValueRowModel, Table,
    merge_balances_spec, merge_balance_rows, merge_fund_values_spec, merge_fund_value_rows,
};
use crate::money::{parse_cents, parse_cents_spec};
use crate::percent::{Percent, parse_percent, percent_scan};
use crate::reconcile::{ActionRow, ActionRowModel, actions_reconciled, ingest_actions};
use crate::roe::{
    FundAggregate, YearlyRow, YearlyRowModel, DailyRow, DailyRowModel, aggregate_of,
    apply_daily_rows_spec, build_aggregates, apply_daily_rows,
};
use crate::text::{
    has_prefix, normal_name, normalize_fund_name, parse_name, split_spec, split_tabs,
    starts_with_str, str_eq, strip_prefix_str, trim_spec, u64_to_string,
};

verus! {

/// Index of the first line at or after `from` equal to `m`; the length
/// when there is none.
pub open spec fn find_eq(ls: Seq<Seq<char>>, m: Seq<char>, from: int) -> int
    decreases ls.len() - from,
{
    if from < 0 || from >= ls.len() {
        ls.len() as int
    } else if ls[from] == m {
        from
    } else {
        find_eq(ls, m, from + 1)
    }
}

proof fn lemma_find_eq_at(ls: Seq<Seq<char>>, m: Seq<char>, from: int, j: int)
    requires
        0 <= from <= j <= ls.len(),
        forall|q: int| from <= q < j ==> ls[q] != m,
        j < ls.len() ==> ls[j] == m,
    ensures
        find_eq(ls, m, from) == j,
    decreases j - from,
{
    if from < j {
        lemma_find_eq_at(ls, m, from + 1, j);
    }
}

/// Index of the first line at or after `from` starting with `p`; the
/// length when there is none.
pub open spec fn find_pre(ls: Seq<Seq<char>>, p: Seq<char>, from: int) -> int
    decreases ls.len() - from,
{
    if from < 0 || from >= ls.len() {
        ls.len() as int
    } else if has_prefix(ls[from], p) {
        from
    } else {
        find_pre(ls, p, from + 1)
    }
}

proof fn lemma_find_pre_at(ls: Seq<Seq<char>>, p: Seq<char>, from: int, j: int)
    requires
        0 <= from <= j <= ls.len(),
        forall|q: int| from <= q < j ==> !has_prefix(ls[q], p),
        j < ls.len() ==> has_prefix(ls[j], p),
    ensures
        find_pre(ls, p, from) == j,
    decreases j - from,
{
    if from < j {
        lemma_find_pre_at(ls, p, from + 1, j);
    }
}

proof fn lemma_find_pre_props(ls: Seq<Seq<char>>, p: Seq<char>, from: int)
    requires
        0 <= from,
    ensures
        from <= find_pre(ls, p, from) || find_pre(ls, p, from) == ls.len(),
        find_pre(ls, p, from) <= ls.len(),
        find_pre(ls, p, from) < ls.len() ==> has_prefix(ls[find_pre(ls, p, from)], p),
    decreases ls.len() - from,
{
    if from < ls.len() && !has_prefix(ls[from], p) {
        lemma_find_pre_props(ls, p, from + 1);
    }
}

fn find_line_eq(lines: &Vec<String>, m: &str, from: usize) -> (r: usize)
    requires
        from <= lines@.len(),
    ensures
        r == find_eq(lines.deep_view(), m@, from as int),
        from <= r <= lines@.len(),
{
    let n = lines.len();
    let mut i: usize = from;
    while i < n
        invariant
            from <= i <= n,
            n == lines@.len(),
            lines.deep_view().len() == n,
            forall|q: int| from <= q < i ==> lines.deep_view()[q] != m@,
        decreases n - i,
    {
        proof {
            assert(lines.deep_view()[i as int] == lines@[i as int]@);
        }
        if str_eq(lines[i].as_str(), m) {
            proof {
                lemma_find_eq_at(lines.deep_view(), m@, from as int, i as int);
            }
            return i;
        }
        i = i + 1;
    }
    proof {
        lemma_find_eq_at(lines.deep_view(), m@, from as int, n as int);
    }
    n
}

fn find_line_pre(lines: &Vec<String>, p: &str, from: usize) -> (r: usize)
    requires
        from <= lines@.len(),
    ensures
        r == find_pre(lines.deep_view(), p@, from as int),
        from <= r <= lines@.len(),
{
    let n = lines.len();
    let mut i: usize = from;
    while i < n
        invariant
            from <= i <= n,
            n == lines@.len(),
            lines.deep_view().len() == n,
            forall|q: int| from <= q < i ==> !has_prefix(lines.deep_view()[q], p@),
        decreases n - i,
    {
        proof {
            assert(lines.deep_view()[i as int] == lines@[i as int]@);
        }
        if starts_with_str(lines[i].as_str(), p) {
            proof {
                lemma_find_pre_at(lines.deep_view(), p@, from as int, i as int);
            }
            return i;
        }
        i = i + 1;
    }
    proof {
        lemma_find_pre_at(lines.deep_view(), p@, from as int, n as int);
    }
    n
}

/// Where the balance snapshot's table starts: after the literal header.
pub open spec fn bal_header(ls: Seq<Seq<char>>) -> int {
    find_eq(ls, "Anual**"@, 0)
}

/// The report's closing total line.
pub open spec fn bal_total(ls: Seq<Seq<char>>) -> int {
    find_pre(ls, "Total\t"@, bal_header(ls) + 1)
}

/// The footer line carrying the snapshot date.
pub open spec fn bal_footer(ls: Seq<Seq<char>>) -> int {
    find_pre(ls, "*Los valores presentados están a la fecha de cierre"@, bal_total(ls) + 1)
}

/// The data rows between header and total line.
pub open spec fn bal_payload(ls: Seq<Seq<char>>) -> Seq<Seq<char>> {
    ls.subrange(bal_header(ls) + 1, bal_total(ls))
}

/// The report holds no table at all: nothing to merge, nothing wrong.
pub open spec fn bal_no_data(ls: Seq<Seq<char>>) -> bool {
    ||| bal_header(ls) == ls.len()
    ||| (bal_payload(ls).len() == 0 && (bal_total(ls) == ls.len() || bal_total(ls) + 1
        == ls.len()))
}

/// The report is structurally broken: data rows with no closing total or
/// no dated footer, or footer lines around an empty table.
pub open spec fn bal_malformed(ls: Seq<Seq<char>>) -> bool {
    &&& !bal_no_data(ls)
    &&& {
        ||| bal_total(ls) == ls.len()
        ||| (bal_payload(ls).len() == 0 && bal_total(ls) + 1 < ls.len())
        ||| bal_footer(ls) == ls.len()
    }
}

/// The date text on the footer line.
pub open spec fn bal_date_str(ls: Seq<Seq<char>>) -> Seq<char> {
    ls[bal_footer(ls)].skip("*Los valores presentados están a la fecha de cierre"@.len() as int)
}

/// A well-formed balance row: six tab-separated fields, a non-empty fund
/// name and a valid currency amount.
pub open spec fn balance_row_ok(line: Seq<char>) -> bool {
    let fs = split_spec(line, '\t');
    &&& fs.len() == 6
    &&& trim_spec(fs[0]).len() > 0
    &&& parse_cents_spec(trim_spec(fs[1])) is Ok
}

pub open spec fn balance_row_model(line: Seq<char>) -> BalanceRowModel {
    let fs = split_spec(line, '\t');
    BalanceRowModel {
        fund: normal_name(fs[0]),
        balance: parse_cents_spec(trim_spec(fs[1]))->Ok_0 as i64,
    }
}

fn field_context(what: &str, report: &str, line_no: u64, field: &str) -> (r: String)
{
    let mut m = String::from_str("Parsing ");
    m.append(what);
    m.append(" at ");
    m.append(report);
    m.append(" line ");
    let t = u64_to_string(line_no);
    m.append(t.as_str());
    m.append(" field ");
    m.append(field);
    m.append(": ");
    m
}

fn parse_balance_row(line: &String, line_no: u64) -> (r: Result<BalanceRow, String>)
    ensures
        balance_row_ok(line@) ==> (r matches Ok(b) && b@ == balance_row_model(line@)),
        !balance_row_ok(line@) ==> r is Err,
{
    let fields = split_tabs(line.as_str());
    proof {
        assert(fields.deep_view() == split_spec(line@, '\t'));
        assert(forall|q: int|
            0 <= q < fields@.len() ==> fields.deep_view()[q] == #[trigger] fields@[q]@);
    }
    if fields.len() != 6 {
        let mut m = field_context("fund balance row", "balances.txt", line_no, "count");
        m.append("six tab-separated fields expected");
        return Err(m);
    }
    let ctx1 = field_context("fund name", "balances.txt", line_no, "1");
    let name = match parse_name(Some(fields[0].as_str()), ctx1.as_str()) {
        Ok(n) => n,
        Err(e) => {
            return Err(e);
        },
    };
    let fund = normalize_fund_name(name);
    let ctx2 = field_context("fund balance", "balances.txt", line_no, "2");
    let balance = match parse_cents(Some(fields[1].as_str()), ctx2.as_str()) {
        Ok(c) => c,
        Err(e) => {
            return Err(e);
        },
    };
    proof {
        let fs = split_spec(line@, '\t');
        assert(trim_spec(trim_spec(fs[0])) == trim_spec(fs[0])) by {
            lemma_trim_idempotent(fs[0]);
        }
    }
    Ok(BalanceRow { fund, balance })
}

proof fn lemma_trim_back_again(s: Seq<char>)
    ensures
        crate::text::trim_back_spec(crate::text::trim_back_spec(s))
            == crate::text::trim_back_spec(s),
    decreases s.len(),
{
    if s.len() > 0 && crate::text::is_space(s.last()) {
        lemma_trim_back_again(s.drop_last());
    }
}

proof fn lemma_trim_front_no_space(s: Seq<char>)
    ensures
        crate::text::trim_front_spec(s).len() > 0 ==> !crate::text::is_space(
            crate::text::trim_front_spec(s)[0],
        ),
    decreases s.len(),
{
    if s.len() > 0 && crate::text::is_space(s[0]) {
        lemma_trim_front_no_space(s.drop_first());
    }
}

proof fn lemma_trim_back_keeps_front(s: Seq<char>)
    ensures
        crate::text::trim_back_spec(s).len() > 0 ==> crate::text::trim_back_spec(s)[0] == s[0],
    decreases s.len(),
{
    if s.len() > 0 && crate::text::is_space(s.last()) {
        lemma_trim_back_keeps_front(s.drop_last());
    }
}

/// Trimming an already trimmed field changes nothing.
pub proof fn lemma_trim_idempotent(s: Seq<char>)
    ensures
        trim_spec(trim_spec(s)) == trim_spec(s),
{
    let f = crate::text::trim_front_spec(s);
    let t = crate::text::trim_back_spec(f);
    lemma_trim_front_no_space(s);
    lemma_trim_back_keeps_front(f);
    if t.len() > 0 {
        assert(!crate::text::is_space(t[0]));
        assert(crate::text::trim_front_spec(t) == t);
    } else {
        assert(crate::text::trim_front_spec(t) == t);
    }
    lemma_trim_back_again(f);
}

/// Reads the balance snapshot report and merges its rows for the footer's
/// date.  No table at all is fine; a structurally broken report or any
/// malformed field aborts before anything is merged.
pub fn ingest_balance_report(table: &mut Table, lines: &Vec<String>) -> (r: Result<
    Vec<String>,
    String,
>)
    ensures
        ({
            let ls = lines.deep_view();
            &&& bal_no_data(ls) ==> r is Ok && final(table)@ == old(table)@
            &&& bal_malformed(ls) ==> r is Err && final(table)@ == old(table)@
            &&& !bal_no_data(ls) && !bal_malformed(ls) ==> (
            match parse_date_spec(bal_date_str(ls)) {
                Err(_) => r is Err && final(table)@ == old(table)@,
                Ok(date) => {
                    if forall|q: int|
                        0 <= q < bal_payload(ls).len() ==> balance_row_ok(
                            #[trigger] bal_payload(ls)[q],
                        ) {
                        r is Ok && final(table)@ == merge_balances_spec(
                            old(table)@,
                            date,
                            bal_payload(ls).map_values(|l: Seq<char>| balance_row_model(l)),
                        )
                    } else {
                        r is Err && final(table)@ == old(table)@
                    }
                },
            })
        }),
{
    let ghost ls = lines.deep_view();
    let n = lines.len();
    proof {
        assert(ls.len() == n);
    }
    let h = find_line_eq(lines, "Anual**", 0);
    proof {
        assert(h == bal_header(ls));
    }
    if h == n {
        proof {
            assert(bal_no_data(ls));
        }
        return Ok(Vec::new());
    }
    let t = find_line_pre(lines, "Total\t", h + 1);
    let ghost pay = bal_payload(ls);
    proof {
        assert(t == bal_total(ls));
        assert(pay =~= ls.subrange(h + 1, t as int));
        assert(pay.len() == t - (h + 1));
    }
    if t == n {
        if t == h + 1 {
            return Ok(Vec::new());
        }
        return Err(String::from_str(
            "balance report ends inside its table, before the closing total line",
        ));
    }
    if t == h + 1 {
        if t + 1 == n {
            return Ok(Vec::new());
        }
        return Err(String::from_str("balance report has no data rows before its footer"));
    }
    let f = find_line_pre(lines, "*Los valores presentados están a la fecha de cierre", t + 1);
    proof {
        assert(f == bal_footer(ls));
    }
    if f == n {
        return Err(String::from_str("balance report ends before its dated footer line"));
    }
    let date_str = match strip_prefix_str(
        lines[f].as_str(),
        "*Los valores presentados están a la fecha de cierre",
    ) {
        Some(d) => d,
        None => {
            proof {
                lemma_find_pre_props(
                    ls,
                    "*Los valores presentados están a la fecha de cierre"@,
                    t + 1,
                );
                assert(lines.deep_view()[f as int] == lines@[f as int]@);
                assert(false);
            }
            return Err(String::new());
        },
    };
    proof {
        assert(lines.deep_view()[f as int] == lines@[f as int]@);
        assert(date_str@ == bal_date_str(ls));
    }
    let ctx = field_context("date", "balances.txt", f as u64 + 1, "1");
    let date = match parse_date(date_str, ctx.as_str()) {
        Ok(d) => d,
        Err(e) => {
            return Err(e);
        },
    };
    // collect and parse the payload rows before touching the ledger
    let mut rows: Vec<BalanceRow> = Vec::new();
    let mut i: usize = h + 1;
    proof {
        assert(rows@.map_values(|b: BalanceRow| b@) =~= pay.map_values(
            |l: Seq<char>| balance_row_model(l),
        ).take(0));
    }
    while i < t
        invariant
            h + 1 <= i <= t,
            t < n,
            n == lines@.len(),
            ls == lines.deep_view(),
            h == bal_header(ls),
            t == bal_total(ls),
            !bal_no_data(ls),
            !bal_malformed(ls),
            parse_date_spec(bal_date_str(ls)) == Ok::<Date, crate::date::DateDefect>(date),
            table@ == old(table)@,
            pay == bal_payload(ls),
            pay.len() == t - (h + 1),
            forall|q: int| 0 <= q < i - (h + 1) ==> balance_row_ok(#[trigger] pay[q]),
            rows@.map_values(|b: BalanceRow| b@) == pay.map_values(
                |l: Seq<char>| balance_row_model(l),
            ).take(i - (h + 1)),
        decreases t - i,
    {
        proof {
            assert(pay[i - (h + 1)] == ls[i as int]);
            assert(lines.deep_view()[i as int] == lines@[i as int]@);
        }
        let row = match parse_balance_row(&lines[i], i as u64 + 1) {
            Ok(b) => b,
            Err(e) => {
                proof {
                    assert(!balance_row_ok(pay[i - (h + 1)]));
                }
                return Err(e);
            },
        };
        let ghost pre_rows = rows@.map_values(|b: BalanceRow| b@);
        let ghost bm = row@;
        rows.push(row);
        proof {
            let target = pay.map_values(|l: Seq<char>| balance_row_model(l));
            assert(target.len() == pay.len());
            assert(pre_rows.len() == i - (h + 1));
            assert(rows@.map_values(|b: BalanceRow| b@) =~= pre_rows.push(bm));
            assert(pre_rows.push(bm) =~= target.take(i - (h + 1) + 1));
        }
        i = i + 1;
    }
    proof {
        let target = pay.map_values(|l: Seq<char>| balance_row_model(l));
        assert(target.take(t - (h + 1)) =~= target);
    }
    let warnings = merge_balance_rows(table, date, &rows);
    Ok(warnings)
}

/// Transaction labels that add money to the fund.
pub open spec fn label_positive(l: Seq<char>) -> bool {
    l == "Aporte"@ || l == "Aporte por traslado de otro portafolio"@
}

/// Transaction labels that take money out.
pub open spec fn label_negative(l: Seq<char>) -> bool {
    l == "Aporte por traslado a otro portafolio"@ || l == "Retiro parcial"@
}

/// A well-formed transaction row: date, fund, a recognised label, the
/// unused type column, and an amount.
pub open spec fn action_row_ok(line: Seq<char>) -> bool {
    let fs = split_spec(line, '\t');
    &&& fs.len() == 5
    &&& parse_date_spec(fs[0]) is Ok
    &&& trim_spec(fs[1]).len() > 0
    &&& trim_spec(fs[2]).len() > 0
    &&& (label_positive(trim_spec(fs[2])) || label_negative(trim_spec(fs[2])))
    &&& trim_spec(fs[3]).len() > 0
    &&& parse_cents_spec(trim_spec(fs[4])) is Ok
}

pub open spec fn action_row_model(line: Seq<char>) -> ActionRowModel {
    let fs = split_spec(line, '\t');
    let amount = parse_cents_spec(trim_spec(fs[4]))->Ok_0 as int;
    ActionRowModel {
        fund: normal_name(fs[1]),
        action: Action {
            date: parse_date_spec(fs[0])->Ok_0,
            change: (if label_positive(trim_spec(fs[2])) {
                amount
            } else {
                -amount
            }) as i64,
        },
    }
}

/// Every transaction row between the section headers and blank lines is
/// well formed.
pub open spec fn hist_ok(ls: Seq<Seq<char>>, i: int, in_table: bool) -> bool
    decreases ls.len() - i,
{
    if i < 0 || i >= ls.len() {
        true
    } else if !in_table {
        hist_ok(ls, i + 1, has_prefix(ls[i], "Fecha\tNombre del "@))
    } else if ls[i].len() == 0 {
        hist_ok(ls, i + 1, false)
    } else {
        action_row_ok(ls[i]) && hist_ok(ls, i + 1, true)
    }
}

/// The transaction rows of the report, in order.
pub open spec fn hist_rows(ls: Seq<Seq<char>>, i: int, in_table: bool) -> Seq<ActionRowModel>
    decreases ls.len() - i,
{
    if i < 0 || i >= ls.len() {
        Seq::empty()
    } else if !in_table {
        hist_rows(ls, i + 1, has_prefix(ls[i], "Fecha\tNombre del "@))
    } else if ls[i].len() == 0 {
        hist_rows(ls, i + 1, false)
    } else {
        seq![action_row_model(ls[i])] + hist_rows(ls, i + 1, true)
    }
}

fn parse_action_row(line: &String, line_no: u64) -> (r: Result<ActionRow, String>)
    ensures
        action_row_ok(line@) ==> (r matches Ok(b) && b@ == action_row_model(line@)),
        !action_row_ok(line@) ==> r is Err,
{
    let fields = split_tabs(line.as_str());
    proof {
        assert(fields.deep_view() == split_spec(line@, '\t'));
        assert(forall|q: int|
            0 <= q < fields@.len() ==> fields.deep_view()[q] == #[trigger] fields@[q]@);
    }
    if fields.len() != 5 {
        let mut m = field_context("transaction row", "history.txt", line_no, "count");
        m.append("five tab-separated fields expected");
        return Err(m);
    }
    let ctx1 = field_context("date", "history.txt", line_no, "1");
    let date = match parse_date(fields[0].as_str(), ctx1.as_str()) {
        Ok(d) => d,
        Err(e) => {
            return Err(e);
        },
    };
    let ctx2 = field_context("fund name", "history.txt", line_no, "2");
    let name = match parse_name(Some(fields[1].as_str()), ctx2.as_str()) {
        Ok(n) => n,
        Err(e) => {
            return Err(e);
        },
    };
    let fund = normalize_fund_name(name);
    let ctx3 = field_context("event description", "history.txt", line_no, "3");
    let label = match parse_name(Some(fields[2].as_str()), ctx3.as_str()) {
        Ok(l) => l,
        Err(e) => {
            return Err(e);
        },
    };
    let ctx4 = field_context("event type", "history.txt", line_no, "4");
    match parse_name(Some(fields[3].as_str()), ctx4.as_str()) {
        Ok(_) => (),
        Err(e) => {
            return Err(e);
        },
    };
    let ctx5 = field_context("fund balance", "history.txt", line_no, "5");
    let amount = match parse_cents(Some(fields[4].as_str()), ctx5.as_str()) {
        Ok(c) => c,
        Err(e) => {
            return Err(e);
        },
    };
    let positive = str_eq(label, "Aporte") || str_eq(
        label,
        "Aporte por traslado de otro portafolio",
    );
    let negative = str_eq(label, "Aporte por traslado a otro portafolio") || str_eq(
        label,
        "Retiro parcial",
    );
    if !positive && !negative {
        let mut m = String::from_str("Action '");
        m.append(label);
        m.append("' not recognized");
        return Err(m);
    }
    let change = if positive {
        amount
    } else {
        -amount
    };
    proof {
        let fs = split_spec(line@, '\t');
        lemma_trim_idempotent(fs[1]);
    }
    Ok(ActionRow { fund, action: Action { date, change } })
}

/// Reads the transaction history report and reconciles its rows into the
/// ledger's action multisets; any malformed row aborts before anything is
/// merged.
pub fn ingest_history(table: &mut Table, lines: &Vec<String>) -> (r: Result<(), String>)
    ensures
        ({
            let ls = lines.deep_view();
            &&& hist_ok(ls, 0, false) ==> r is Ok && actions_reconciled(
                old(table)@,
                final(table)@,
                hist_rows(ls, 0, false),
            )
            &&& !hist_ok(ls, 0, false) ==> r is Err && final(table)@ == old(table)@
        }),
{
    let ghost ls = lines.deep_view();
    let n = lines.len();
    proof {
        assert(ls.len() == n);
    }
    let mut rows: Vec<ActionRow> = Vec::new();
    let mut in_table: bool = false;
    let mut i: usize = 0;
    proof {
        assert(rows@.map_values(|b: ActionRow| b@) =~= Seq::<ActionRowModel>::empty());
    }
    while i < n
        invariant
            0 <= i <= n,
            n == lines@.len(),
            ls == lines.deep_view(),
            table@ == old(table)@,
            hist_ok(ls, 0, false) == hist_ok(ls, i as int, in_table),
            hist_ok(ls, i as int, in_table) ==> hist_rows(ls, 0, false) == rows@.map_values(
                |b: ActionRow| b@,
            ) + hist_rows(ls, i as int, in_table),
        decreases n - i,
    {
        proof {
            assert(lines.deep_view()[i as int] == lines@[i as int]@);
        }
        if !in_table {
            in_table = starts_with_str(lines[i].as_str(), "Fecha\tNombre del ");
        } else if lines[i].as_str().unicode_len() == 0 {
            in_table = false;
        } else {
            let row = match parse_action_row(&lines[i], i as u64 + 1) {
                Ok(b) => b,
                Err(e) => {
                    proof {
                        assert(!action_row_ok(ls[i as int]));
                        assert(!hist_ok(ls, i as int, true));
                    }
                    return Err(e);
                },
            };
            let ghost pre_rows = rows@.map_values(|b: ActionRow| b@);
            let ghost bm = row@;
            rows.push(row);
            proof {
                assert(rows@.map_values(|b: ActionRow| b@) =~= pre_rows.push(bm));
                if hist_ok(ls, i + 1, true) {
                    assert(hist_rows(ls, i as int, true) == seq![action_row_model(ls[i as int])]
                        + hist_rows(ls, i + 1, true));
                    assert(pre_rows.push(bm) + hist_rows(ls, i + 1, true) =~= pre_rows + (seq![
                        action_row_model(ls[i as int]),
                    ] + hist_rows(ls, i + 1, true)));
                }
            }
        }
        i = i + 1;
    }
    proof {
        assert(hist_rows(ls, n as int, in_table) =~= Seq::<ActionRowModel>::empty());
        assert(hist_ok(ls, n as int, in_table));
        assert(hist_rows(ls, 0, false) =~= rows@.map_values(|b: ActionRow| b@));
    }
    ingest_actions(table, &rows);
    Ok(())
}

/// A percentage field the report may leave unpublished.
pub open spec fn pct_ok(f: Seq<char>) -> bool {
    trim_spec(f) == "NA"@ || percent_scan(trim_spec(f)) is Ok
}

pub open spec fn pct_model(f: Seq<char>) -> Option<Seq<char>> {
    if trim_spec(f) == "NA"@ {
        None
    } else {
        Some(percent_scan(trim_spec(f))->Ok_0)
    }
}

/// A well-formed row of the fund-value table: nine fields with a fund,
/// date, two amounts, the literal zero column, an empty column, and three
/// yearly percentages.
pub open spec fn fv_row_ok(line: Seq<char>) -> bool {
    let fs = split_spec(line, '\t');
    &&& fs.len() == 9
    &&& trim_spec(fs[0]).len() > 0
    &&& parse_date_spec(fs[1]) is Ok
    &&& parse_cents_spec(trim_spec(fs[2])) is Ok
    &&& parse_cents_spec(trim_spec(fs[3])) is Ok
    &&& trim_spec(fs[4]) == "$.00"@
    &&& trim_spec(fs[5]).len() == 0
    &&& pct_ok(fs[6])
    &&& pct_ok(fs[7])
    &&& pct_ok(fs[8])
}

pub open spec fn fv_row_model(line: Seq<char>) -> FundValueRowModel {
    let fs = split_spec(line, '\t');
    FundValueRowModel {
        fund: normal_name(fs[0]),
        date: parse_date_spec(fs[1])->Ok_0,
        fund_value: parse_cents_spec(trim_spec(fs[2]))->Ok_0 as i64,
        unit_value: parse_cents_spec(trim_spec(fs[3]))->Ok_0 as i64,
    }
}

pub open spec fn yearly_row_model(line: Seq<char>) -> YearlyRowModel {
    let fs = split_spec(line, '\t');
    YearlyRowModel {
        fund: normal_name(fs[0]),
        roe_next_to_last_year: pct_model(fs[6]),
        roe_last_year: pct_model(fs[7]),
        roe_year_to_date: pct_model(fs[8]),
    }
}

/// A well-formed row of the daily sub-table: a fund and nine percentages,
/// the last of which is read but unused.
pub open spec fn daily_row_ok(line: Seq<char>) -> bool {
    let fs = split_spec(line, '\t');
    &&& fs.len() == 10
    &&& trim_spec(fs[0]).len() > 0
    &&& pct_ok(fs[1])
    &&& pct_ok(fs[2])
    &&& pct_ok(fs[3])
    &&& pct_ok(fs[4])
    &&& pct_ok(fs[5])
    &&& pct_ok(fs[6])
    &&& pct_ok(fs[7])
    &&& pct_ok(fs[8])
    &&& pct_ok(fs[9])
}

pub open spec fn daily_row_model(line: Seq<char>) -> DailyRowModel {
    let fs = split_spec(line, '\t');
    DailyRowModel {
        fund: normal_name(fs[0]),
        roe_day: pct_model(fs[1]),
        roe_day_annualized: pct_model(fs[2]),
        roe_month: pct_model(fs[3]),
        roe_trimester: pct_model(fs[4]),
        roe_semester: pct_model(fs[5]),
        roe_year: pct_model(fs[6]),
        roe_2_years: pct_model(fs[7]),
        roe_total: pct_model(fs[8]),
    }
}

/// Every payload row of the returns report parses, through both
/// sub-tables.
pub open spec fn prof_ok(ls: Seq<Seq<char>>, i: int, mode: int) -> bool
    decreases ls.len() - i,
{
    if i < 0 || i >= ls.len() {
        true
    } else if mode == 0 {
        prof_ok(
            ls,
            i + 1,
            if has_prefix(ls[i], "PORTAFOLIO \tFECHA DE CORTE DE LA INFORMACI"@) {
                1int
            } else {
                0int
            },
        )
    } else if mode == 1 {
        prof_ok(ls, i + 1, 2)
    } else if mode == 2 {
        if has_prefix(ls[i], "VALOR TOTAL DEL FONDO "@) {
            prof_ok(ls, i + 1, 3)
        } else {
            fv_row_ok(ls[i]) && prof_ok(ls, i + 1, 2)
        }
    } else if mode == 3 {
        prof_ok(
            ls,
            i + 1,
            if has_prefix(ls[i], "Diaria \t"@) {
                4int
            } else {
                3int
            },
        )
    } else {
        if ls[i].len() == 0 {
            true
        } else {
            daily_row_ok(ls[i]) && prof_ok(ls, i + 1, 4)
        }
    }
}

/// The fund-value rows of the first sub-table.
pub open spec fn prof_fv_rows(ls: Seq<Seq<char>>, i: int, mode: int) -> Seq<FundValueRowModel>
    decreases ls.len() - i,
{
    if i < 0 || i >= ls.len() {
        Seq::empty()
    } else if mode == 0 {
        prof_fv_rows(
            ls,
            i + 1,
            if has_prefix(ls[i], "PORTAFOLIO \tFECHA DE CORTE DE LA INFORMACI"@) {
                1int
            } else {
                0int
            },
        )
    } else if mode == 1 {
        prof_fv_rows(ls, i + 1, 2)
    } else if mode == 2 {
        if has_prefix(ls[i], "VALOR TOTAL DEL FONDO "@) {
            prof_fv_rows(ls, i + 1, 3)
        } else {
            seq![fv_row_model(ls[i])] + prof_fv_rows(ls, i + 1, 2)
        }
    } else if mode == 3 {
        prof_fv_rows(
            ls,
            i + 1,
            if has_prefix(ls[i], "Diaria \t"@) {
                4int
            } else {
                3int
            },
        )
    } else {
        Seq::empty()
    }
}

/// The yearly ROE rows of the first sub-table.
pub open spec fn prof_yearly_rows(ls: Seq<Seq<char>>, i: int, mode: int) -> Seq<YearlyRowModel>
    decreases ls.len() - i,
{
    if i < 0 || i >= ls.len() {
        Seq::empty()
    } else if mode == 0 {
        prof_yearly_rows(
            ls,
            i + 1,
            if has_prefix(ls[i], "PORTAFOLIO \tFECHA DE CORTE DE LA INFORMACI"@) {
                1int
            } else {
                0int
            },
        )
    } else if mode == 1 {
        prof_yearly_rows(ls, i + 1, 2)
    } else if mode == 2 {
        if has_prefix(ls[i], "VALOR TOTAL DEL FONDO "@) {
            prof_yearly_rows(ls, i + 1, 3)
        } else {
            seq![yearly_row_model(ls[i])] + prof_yearly_rows(ls, i + 1, 2)
        }
    } else if mode == 3 {
        prof_yearly_rows(
            ls,
            i + 1,
            if has_prefix(ls[i], "Diaria \t"@) {
                4int
            } else {
                3int
            },
        )
    } else {
        Seq::empty()
    }
}

/// The daily ROE rows of the second sub-table, up to its closing blank
/// line.
pub open spec fn prof_daily_rows(ls: Seq<Seq<char>>, i: int, mode: int) -> Seq<DailyRowModel>
    decreases ls.len() - i,
{
    if i < 0 || i >= ls.len() {
        Seq::empty()
    } else if mode == 0 {
        prof_daily_rows(
            ls,
            i + 1,
            if has_prefix(ls[i], "PORTAFOLIO \tFECHA DE CORTE DE LA INFORMACI"@) {
                1int
            } else {
                0int
            },
        )
    } else if mode == 1 {
        prof_daily_rows(ls, i + 1, 2)
    } else if mode == 2 {
        if has_prefix(ls[i], "VALOR TOTAL DEL FONDO "@) {
            prof_daily_rows(ls, i + 1, 3)
        } else {
            prof_daily_rows(ls, i + 1, 2)
        }
    } else if mode == 3 {
        prof_daily_rows(
            ls,
            i + 1,
            if has_prefix(ls[i], "Diaria \t"@) {
                4int
            } else {
                3int
            },
        )
    } else {
        if ls[i].len() == 0 {
            Seq::empty()
        } else {
            seq![daily_row_model(ls[i])] + prof_daily_rows(ls, i + 1, 4)
        }
    }
}

fn parse_pct_field(f: &String, ctx: &str) -> (r: Result<Percent, String>)
    ensures
        pct_ok(f@) ==> (r matches Ok(p) && p@ == pct_model(f@)),
        !pct_ok(f@) ==> r is Err,
{
    match parse_percent(Some(f.as_str()), ctx) {
        Ok(p) => Ok(p),
        Err(e) => Err(e),
    }
}

fn parse_fv_row(line: &String, line_no: u64) -> (r: Result<(FundValueRow, YearlyRow), String>)
    ensures
        fv_row_ok(line@) ==> (r matches Ok(p) && p.0@ == fv_row_model(line@) && p.1@
            == yearly_row_model(line@)),
        !fv_row_ok(line@) ==> r is Err,
{
    let fields = split_tabs(line.as_str());
    proof {
        assert(fields.deep_view() == split_spec(line@, '\t'));
        assert(forall|q: int|
            0 <= q < fields@.len() ==> fields.deep_view()[q] == #[trigger] fields@[q]@);
    }
    if fields.len() != 9 {
        let mut m = field_context("fund value row", "profit.txt", line_no, "count");
        m.append("nine tab-separated fields expected");
        return Err(m);
    }
    let ctx1 = field_context("fund name", "profit.txt", line_no, "1");
    let name = match parse_name(Some(fields[0].as_str()), ctx1.as_str()) {
        Ok(n) => n,
        Err(e) => {
            return Err(e);
        },
    };
    let fund = normalize_fund_name(name);
    let fund2 = normalize_fund_name(name);
    let ctx2 = field_context("date", "profit.txt", line_no, "2");
    let date = match parse_date(fields[1].as_str(), ctx2.as_str()) {
        Ok(d) => d,
        Err(e) => {
            return Err(e);
        },
    };
    let ctx3 = field_context("fund value", "profit.txt", line_no, "3");
    let fund_value = match parse_cents(Some(fields[2].as_str()), ctx3.as_str()) {
        Ok(c) => c,
        Err(e) => {
            return Err(e);
        },
    };
    let ctx4 = field_context("unit value", "profit.txt", line_no, "4");
    let unit_value = match parse_cents(Some(fields[3].as_str()), ctx4.as_str()) {
        Ok(c) => c,
        Err(e) => {
            return Err(e);
        },
    };
    let ctx5 = field_context("a zero value", "profit.txt", line_no, "5");
    match parse_name(Some(fields[4].as_str()), ctx5.as_str()) {
        Ok(z) => {
            if !str_eq(z, "$.00") {
                let mut m = field_context("a zero value", "profit.txt", line_no, "5");
                m.append("the placeholder amount column must hold $.00");
                return Err(m);
            }
        },
        Err(e) => {
            proof {
                reveal_strlit("$.00");
            }
            return Err(e);
        },
    };
    let ctx6 = field_context("a null value", "profit.txt", line_no, "6");
    match parse_name(Some(fields[5].as_str()), ctx6.as_str()) {
        Ok(_) => {
            let mut m = field_context("a null value", "profit.txt", line_no, "6");
            m.append("the null column must be empty");
            return Err(m);
        },
        Err(_) => (),
    };
    let ctx7 = field_context("returns from 2 years ago", "profit.txt", line_no, "7");
    let p1 = match parse_pct_field(&fields[6], ctx7.as_str()) {
        Ok(p) => p,
        Err(e) => {
            return Err(e);
        },
    };
    let ctx8 = field_context("returns from last year", "profit.txt", line_no, "8");
    let p2 = match parse_pct_field(&fields[7], ctx8.as_str()) {
        Ok(p) => p,
        Err(e) => {
            return Err(e);
        },
    };
    let ctx9 = field_context("returns from year to date", "profit.txt", line_no, "9");
    let p3 = match parse_pct_field(&fields[8], ctx9.as_str()) {
        Ok(p) => p,
        Err(e) => {
            return Err(e);
        },
    };
    proof {
        let fs = split_spec(line@, '\t');
        lemma_trim_idempotent(fs[0]);
    }
    Ok(
        (
            FundValueRow { fund, date, fund_value, unit_value },
            YearlyRow {
                fund: fund2,
                roe_next_to_last_year: p1,
                roe_last_year: p2,
                roe_year_to_date: p3,
            },
        ),
    )
}

fn parse_daily_row(line: &String, line_no: u64) -> (r: Result<DailyRow, String>)
    ensures
        daily_row_ok(line@) ==> (r matches Ok(d) && d@ == daily_row_model(line@)),
        !daily_row_ok(line@) ==> r is Err,
{
    let fields = split_tabs(line.as_str());
    proof {
        assert(fields.deep_view() == split_spec(line@, '\t'));
        assert(forall|q: int|
            0 <= q < fields@.len() ==> fields.deep_view()[q] == #[trigger] fields@[q]@);
    }
    if fields.len() != 10 {
        let mut m = field_context("daily returns row", "profit.txt", line_no, "count");
        m.append("ten tab-separated fields expected");
        return Err(m);
    }
    let ctx1 = field_context("fund name", "profit.txt", line_no, "1");
    let name = match parse_name(Some(fields[0].as_str()), ctx1.as_str()) {
        Ok(n) => n,
        Err(e) => {
            return Err(e);
        },
    };
    let fund = normalize_fund_name(name);
    let ctx2 = field_context("daily returns", "profit.txt", line_no, "2");
    let p1 = match parse_pct_field(&fields[1], ctx2.as_str()) {
        Ok(p) => p,
        Err(e) => {
            return Err(e);
        },
    };
    let ctx3 = field_context("annualized daily returns", "profit.txt", line_no, "3");
    let p2 = match parse_pct_field(&fields[2], ctx3.as_str()) {
        Ok(p) => p,
        Err(e) => {
            return Err(e);
        },
    };
    let ctx4 = field_context("monthly returns", "profit.txt", line_no, "4");
    let p3 = match parse_pct_field(&fields[3], ctx4.as_str()) {
        Ok(p) => p,
        Err(e) => {
            return Err(e);
        },
    };
    let ctx5 = field_context("trimester returns", "profit.txt", line_no, "5");
    let p4 = match parse_pct_field(&fields[4], ctx5.as_str()) {
        Ok(p) => p,
        Err(e) => {
            return Err(e);
        },
    };
    let ctx6 = field_context("semester returns", "profit.txt", line_no, "6");
    let p5 = match parse_pct_field(&fields[5], ctx6.as_str()) {
        Ok(p) => p,
        Err(e) => {
            return Err(e);
        },
    };
    let ctx7 = field_context("yearly returns", "profit.txt", line_no, "7");
    let p6 = match parse_pct_field(&fields[6], ctx7.as_str()) {
        Ok(p) => p,
        Err(e) => {
            return Err(e);
        },
    };
    let ctx8 = field_context("two-year returns", "profit.txt", line_no, "8");
    let p7 = match parse_pct_field(&fields[7], ctx8.as_str()) {
        Ok(p) => p,
        Err(e) => {
            return Err(e);
        },
    };
    let ctx9 = field_context("total returns", "profit.txt", line_no, "9");
    let p8 = match parse_pct_field(&fields[8], ctx9.as_str()) {
        Ok(p) => p,
        Err(e) => {
            return Err(e);
        },
    };
    let ctx10 = field_context("year-to-date returns", "profit.txt", line_no, "10");
    match parse_pct_field(&fields[9], ctx10.as_str()) {
        Ok(_) => (),
        Err(e) => {
            return Err(e);
        },
    };
    proof {
        let fs = split_spec(line@, '\t');
        lemma_trim_idempotent(fs[0]);
    }
    Ok(
        DailyRow {
            fund,
            roe_day: p1,
            roe_day_annualized: p2,
            roe_month: p3,
            roe_trimester: p4,
            roe_semester: p5,
            roe_year: p6,
            roe_2_years: p7,
            roe_total: p8,
        },
    )
}

/// Reads the returns report: fund and unit values merge into the ledger,
/// and the two ROE sub-tables merge into one aggregate per fund.  Any
/// malformed field aborts before anything is merged.
pub fn ingest_profit_report(table: &mut Table, lines: &Vec<String>) -> (r: Result<
    (Vec<String>, Vec<FundAggregate>),
    String,
>)
    ensures
        ({
            let ls = lines.deep_view();
            &&& prof_ok(ls, 0, 0) ==> (r matches Ok(p) && final(table)@
                == merge_fund_values_spec(old(table)@, prof_fv_rows(ls, 0, 0))
                && p.1@.map_values(|a: FundAggregate| a@) == apply_daily_rows_spec(
                prof_yearly_rows(ls, 0, 0).map_values(|y: YearlyRowModel| aggregate_of(y)),
                prof_daily_rows(ls, 0, 0),
            ))
            &&& !prof_ok(ls, 0, 0) ==> r is Err && final(table)@ == old(table)@
        }),
{
    let ghost ls = lines.deep_view();
    let n = lines.len();
    proof {
        assert(ls.len() == n);
    }
    let mut fv_rows: Vec<FundValueRow> = Vec::new();
    let mut yearly: Vec<YearlyRow> = Vec::new();
    let mut daily: Vec<DailyRow> = Vec::new();
    let mut mode: u8 = 0;
    let mut done: bool = false;
    let mut i: usize = 0;
    while i < n && !done
        invariant
            0 <= i <= n,
            n == lines@.len(),
            ls == lines.deep_view(),
            table@ == old(table)@,
            mode <= 4,
            !done ==> prof_ok(ls, 0, 0) == prof_ok(ls, i as int, mode as int),
            !done ==> (prof_ok(ls, i as int, mode as int) ==> {
                &&& prof_fv_rows(ls, 0, 0) == fv_rows@.map_values(|b: FundValueRow| b@)
                    + prof_fv_rows(ls, i as int, mode as int)
                &&& prof_yearly_rows(ls, 0, 0) == yearly@.map_values(|b: YearlyRow| b@)
                    + prof_yearly_rows(ls, i as int, mode as int)
                &&& prof_daily_rows(ls, 0, 0) == daily@.map_values(|b: DailyRow| b@)
                    + prof_daily_rows(ls, i as int, mode as int)
            }),
            done ==> prof_ok(ls, 0, 0) && prof_fv_rows(ls, 0, 0) == fv_rows@.map_values(
                |b: FundValueRow| b@,
            ) && prof_yearly_rows(ls, 0, 0) == yearly@.map_values(|b: YearlyRow| b@)
                && prof_daily_rows(ls, 0, 0) == daily@.map_values(|b: DailyRow| b@),
        decreases n - i + (if done { 0int } else { 1int }),
    {
        proof {
            assert(lines.deep_view()[i as int] == lines@[i as int]@);
        }
        if mode == 0 {
            if starts_with_str(lines[i].as_str(), "PORTAFOLIO \tFECHA DE CORTE DE LA INFORMACI") {
                mode = 1;
            }
        } else if mode == 1 {
            mode = 2;
        } else if mode == 2 {
            if starts_with_str(lines[i].as_str(), "VALOR TOTAL DEL FONDO ") {
                mode = 3;
            } else {
                let pair = match parse_fv_row(&lines[i], i as u64 + 1) {
                    Ok(p) => p,
                    Err(e) => {
                        proof {
                            assert(!fv_row_ok(ls[i as int]));
                            assert(!prof_ok(ls, i as int, 2));
                        }
                        return Err(e);
                    },
                };
                let ghost pre_fv = fv_rows@.map_values(|b: FundValueRow| b@);
                let ghost pre_y = yearly@.map_values(|b: YearlyRow| b@);
                let ghost fm = pair.0@;
                let ghost ym = pair.1@;
                fv_rows.push(pair.0);
                yearly.push(pair.1);
                proof {
                    assert(fv_rows@.map_values(|b: FundValueRow| b@) =~= pre_fv.push(fm));
                    assert(yearly@.map_values(|b: YearlyRow| b@) =~= pre_y.push(ym));
                    if prof_ok(ls, i + 1, 2) {
                        assert(pre_fv.push(fm) + prof_fv_rows(ls, i + 1, 2) =~= pre_fv + (seq![
                            fv_row_model(ls[i as int]),
                        ] + prof_fv_rows(ls, i + 1, 2)));
                        assert(pre_y.push(ym) + prof_yearly_rows(ls, i + 1, 2) =~= pre_y + (
                        seq![yearly_row_model(ls[i as int])] + prof_yearly_rows(ls, i + 1, 2)));
                    }
                }
            }
        } else if mode == 3 {
            if starts_with_str(lines[i].as_str(), "Diaria \t") {
                mode = 4;
            }
        } else {
            if lines[i].as_str().unicode_len() == 0 {
                done = true;
            } else {
                let row = match parse_daily_row(&lines[i], i as u64 + 1) {
                    Ok(d) => d,
                    Err(e) => {
                        proof {
                            assert(!daily_row_ok(ls[i as int]));
                            assert(!prof_ok(ls, i as int, 4));
                        }
                        return Err(e);
                    },
                };
                let ghost pre_d = daily@.map_values(|b: DailyRow| b@);
                let ghost dm = row@;
                daily.push(row);
                proof {
                    assert(daily@.map_values(|b: DailyRow| b@) =~= pre_d.push(dm));
                    if prof_ok(ls, i + 1, 4) {
                        assert(pre_d.push(dm) + prof_daily_rows(ls, i + 1, 4) =~= pre_d + (seq![
                            daily_row_model(ls[i as int]),
                        ] + prof_daily_rows(ls, i + 1, 4)));
                    }
                }
            }
        }
        if !done {
            i = i + 1;
        }
    }
    proof {
        if !done {
            assert(prof_ok(ls, n as int, mode as int));
            assert(prof_fv_rows(ls, n as int, mode as int) =~= Seq::<FundValueRowModel>::empty());
            assert(prof_yearly_rows(ls, n as int, mode as int) =~= Seq::<
                YearlyRowModel,
            >::empty());
            assert(prof_daily_rows(ls, n as int, mode as int) =~= Seq::<DailyRowModel>::empty());
            assert(prof_fv_rows(ls, 0, 0) =~= fv_rows@.map_values(|b: FundValueRow| b@));
            assert(prof_yearly_rows(ls, 0, 0) =~= yearly@.map_values(|b: YearlyRow| b@));
            assert(prof_daily_rows(ls, 0, 0) =~= daily@.map_values(|b: DailyRow| b@));
        }
    }
    let warnings = merge_fund_value_rows(table, &fv_rows);
    let mut aggs = build_aggregates(&yearly);
    proof {
        assert(yearly@.map_values(|r: YearlyRow| aggregate_of(r@)) =~= prof_yearly_rows(
            ls,
            0,
            0,
        ).map_values(|y: YearlyRowModel| aggregate_of(y)));
    }
    apply_daily_rows(&mut aggs, &daily);
    Ok((warnings, aggs))
}

} // verus!
