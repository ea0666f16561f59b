//! Calendar dates for the ledger: a day/month/year triple with proper
//! month-length and leap-year validity, ordering by calendar position, day
//! stepping for lookback windows, and the `d/m/y` field parser.

use vstd::prelude::*;
use crate::text::{push_char, split_spec, split_on, is_digit_char, digit_of};

verus! {

/// A calendar date.  Two-digit report years are expanded to `20xx` before a
/// `Date` is built, so stored years run from 100 to 9999.
#[derive(Clone, Copy, Debug, PartialEq, Eq, Structural, Hash)]
pub struct Date {
    pub year: u32,
    pub month: u32,
    pub day: u32,
}

pub open spec fn is_leap_year(y: int) -> bool {
    y % 4 == 0 && (y % 100 != 0 || y % 400 == 0)
}

pub open spec fn days_in_month(y: int, m: int) -> int {
    if m == 2 {
        if is_leap_year(y) {
            29
        } else {
            28
        }
    } else if m == 4 || m == 6 || m == 9 || m == 11 {
        30
    } else {
        31
    }
}

pub open spec fn valid_ymd(y: int, m: int, d: int) -> bool {
    &&& 0 <= y <= 9999
    &&& 1 <= m <= 12
    &&& 1 <= d <= days_in_month(y, m)
}

impl Date {
    /// A well-formed calendar date.
    pub open spec fn wf(self) -> bool {
        valid_ymd(self.year as int, self.month as int, self.day as int)
    }

    /// Totally ordered key: later dates have larger keys.
    pub open spec fn key(self) -> int {
        self.year * 10000 + self.month * 100 + self.day
    }

    /// Builds a date when the triple is a real calendar day.
    pub fn new(year: u32, month: u32, day: u32) -> (r: Option<Date>)
        ensures
            r is Some <==> valid_ymd(year as int, month as int, day as int),
            r matches Some(d) ==> d == (Date { year, month, day }) && d.wf(),
    {
        if year <= 9999 && 1 <= month && month <= 12 && 1 <= day && day <= days_in_month_exec(
            year,
            month,
        ) {
            Some(Date { year, month, day })
        } else {
            None
        }
    }

    pub fn le(self, o: Date) -> (r: bool)
        requires
            self.wf(),
            o.wf(),
        ensures
            r == (self.key() <= o.key()),
    {
        self.year * 10000 + self.month * 100 + self.day <= o.year * 10000 + o.month * 100 + o.day
    }

    pub fn lt(self, o: Date) -> (r: bool)
        requires
            self.wf(),
            o.wf(),
        ensures
            r == (self.key() < o.key()),
    {
        self.year * 10000 + self.month * 100 + self.day < o.year * 10000 + o.month * 100 + o.day
    }
}

pub fn days_in_month_exec(y: u32, m: u32) -> (r: u32)
    ensures
        r == days_in_month(y as int, m as int),
{
    if m == 2 {
        if y % 4 == 0 && (y % 100 != 0 || y % 400 == 0) {
            29
        } else {
            28
        }
    } else if m == 4 || m == 6 || m == 9 || m == 11 {
        30
    } else {
        31
    }
}

/// The calendar day before `d`.
pub open spec fn prev_day_spec(d: Date) -> Date {
    if d.day > 1 {
        Date { year: d.year, month: d.month, day: (d.day - 1) as u32 }
    } else if d.month > 1 {
        Date {
            year: d.year,
            month: (d.month - 1) as u32,
            day: days_in_month(d.year as int, d.month - 1) as u32,
        }
    } else {
        Date { year: (d.year - 1) as u32, month: 12, day: 31 }
    }
}

pub open spec fn date_min(d: Date) -> bool {
    d.year == 0 && d.month == 1 && d.day == 1
}

/// The date `n` days before `d`, or nothing if the calendar runs out.
pub open spec fn sub_days_spec(d: Date, n: nat) -> Option<Date>
    decreases n,
{
    if n == 0 {
        Some(d)
    } else if date_min(d) {
        None
    } else {
        sub_days_spec(prev_day_spec(d), (n - 1) as nat)
    }
}

proof fn lemma_prev_day_wf(d: Date)
    requires
        d.wf(),
        !date_min(d),
    ensures
        prev_day_spec(d).wf(),
{
}

/// Steps `d` back by `n` days, reporting when that falls off the calendar.
pub fn checked_sub_days(d: Date, n: u32) -> (r: Option<Date>)
    requires
        d.wf(),
    ensures
        r == sub_days_spec(d, n as nat),
        r matches Some(x) ==> x.wf(),
{
    let mut cur = d;
    let mut left = n;
    while left > 0
        invariant
            cur.wf(),
            left <= n,
            sub_days_spec(d, n as nat) == sub_days_spec(cur, left as nat),
        decreases left,
    {
        if cur.year == 0 && cur.month == 1 && cur.day == 1 {
            return None;
        }
        proof {
            lemma_prev_day_wf(cur);
        }
        if cur.day > 1 {
            cur = Date { year: cur.year, month: cur.month, day: cur.day - 1 };
        } else if cur.month > 1 {
            cur = Date {
                year: cur.year,
                month: cur.month - 1,
                day: days_in_month_exec(cur.year, cur.month - 1),
            };
        } else {
            cur = Date { year: cur.year - 1, month: 12, day: 31 };
        }
        left = left - 1;
    }
    Some(cur)
}

/// Characters removed from a date field before parsing: stray currency
/// punctuation and spaces.
pub open spec fn is_stray(c: char) -> bool {
    c == '$' || c == ',' || c == ' '
}

pub open spec fn strip_spec(s: Seq<char>) -> Seq<char>
    decreases s.len(),
{
    if s.len() == 0 {
        s
    } else if is_stray(s[0]) {
        strip_spec(s.drop_first())
    } else {
        seq![s[0]] + strip_spec(s.drop_first())
    }
}

fn strip_stray(s: &str) -> (r: String)
    ensures
        r@ == strip_spec(s@),
{
    let n = s.unicode_len();
    let mut out = String::new();
    let mut i: usize = 0;
    proof {
        assert(s@.skip(0) =~= s@);
        assert(out@ + strip_spec(s@) =~= strip_spec(s@));
    }
    while i < n
        invariant
            0 <= i <= n,
            n == s@.len(),
            strip_spec(s@) == out@ + strip_spec(s@.skip(i as int)),
        decreases n - i,
    {
        let c = s.get_char(i);
        proof {
            assert(s@.skip(i as int)[0] == s@[i as int]);
            assert(s@.skip(i as int).drop_first() =~= s@.skip(i + 1));
        }
        if !(c == '$' || c == ',' || c == ' ') {
            push_char(&mut out, c);
            proof {
                assert(out@ + strip_spec(s@.skip(i + 1)) =~= (out@.drop_last() + (seq![c]
                    + strip_spec(s@.skip(i + 1)))));
            }
        }
        i = i + 1;
    }
    proof {
        assert(s@.skip(n as int) =~= Seq::<char>::empty());
        assert(out@ + Seq::<char>::empty() =~= out@);
    }
    out
}

/// One way a date field can be malformed.
#[derive(Clone, Copy, Debug, PartialEq, Eq, Structural)]
pub enum DateDefect {
    /// Nothing left after stripping stray characters.
    Empty,
    /// Fewer than three `/`-separated parts.
    Premature,
    /// More than three `/`-separated parts.
    Trailing,
    /// A part that is not one to two digits (one to four for the year).
    InvalidChars,
    /// Numbers that name no real calendar day.
    OutOfRange,
}

pub open spec fn date_defect_text(e: DateDefect) -> Seq<char> {
    match e {
        DateDefect::Empty => "Empty date"@,
        DateDefect::Premature => "premature end of input"@,
        DateDefect::Trailing => "trailing input"@,
        DateDefect::InvalidChars => "input contains invalid characters"@,
        DateDefect::OutOfRange => "input is out of range"@,
    }
}

/// The full error message for a malformed date field.
pub open spec fn date_message(prefix: Seq<char>, stripped: Seq<char>, e: DateDefect) -> Seq<char> {
    prefix + date_defect_text(e) + ". Is the value "@ + stripped
        + " correctly formatted as a d/m/y date?"@
}

/// Whether a date part is a plausible digit run of at most `max_len` digits.
pub open spec fn digits_part(p: Seq<char>, max_len: int) -> bool {
    &&& 1 <= p.len() <= max_len
    &&& forall|i: int| 0 <= i < p.len() ==> is_digit_char(p[i])
}

/// Numeric value of a digit run, most significant digit first.
pub open spec fn digits_value(p: Seq<char>) -> nat
    decreases p.len(),
{
    if p.len() == 0 {
        0
    } else {
        digits_value(p.drop_last()) * 10 + digit_of(p.last())
    }
}

/// What parsing a date field yields: the day, month and year (two-digit
/// years meaning `20xx`), or the first defect found.
pub open spec fn parse_date_spec(s: Seq<char>) -> Result<Date, DateDefect> {
    let u = strip_spec(s);
    if u.len() == 0 {
        Err(DateDefect::Empty)
    } else {
        let parts = split_spec(u, '/');
        if parts.len() < 3 {
            Err(DateDefect::Premature)
        } else if parts.len() > 3 {
            Err(DateDefect::Trailing)
        } else if !(digits_part(parts[0], 2) && digits_part(parts[1], 2) && digits_part(
            parts[2],
            4,
        )) {
            Err(DateDefect::InvalidChars)
        } else {
            let d = digits_value(parts[0]);
            let m = digits_value(parts[1]);
            let y0 = digits_value(parts[2]);
            let y = if y0 < 100 {
                y0 + 100 * 20
            } else {
                y0
            };
            if valid_ymd(y as int, m as int, d as int) {
                Ok(Date { year: y as u32, month: m as u32, day: d as u32 })
            } else {
                Err(DateDefect::OutOfRange)
            }
        }
    }
}

fn date_defect_message(prefix: &str, stripped: &str, e: &DateDefect) -> (r: String)
    ensures
        r@ == date_message(prefix@, stripped@, *e),
{
    let mut m = String::from_str(prefix);
    match e {
        DateDefect::Empty => {
            m.append("Empty date");
        },
        DateDefect::Premature => {
            m.append("premature end of input");
        },
        DateDefect::Trailing => {
            m.append("trailing input");
        },
        DateDefect::InvalidChars => {
            m.append("input contains invalid characters");
        },
        DateDefect::OutOfRange => {
            m.append("input is out of range");
        },
    }
    m.append(". Is the value ");
    m.append(stripped);
    m.append(" correctly formatted as a d/m/y date?");
    proof {
        assert(m@ =~= date_message(prefix@, stripped@, *e));
    }
    m
}

proof fn lemma_digits_value_small(p: Seq<char>)
    requires
        forall|i: int| 0 <= i < p.len() ==> is_digit_char(p[i]),
    ensures
        p.len() == 0 ==> digits_value(p) == 0,
        p.len() <= 1 ==> digits_value(p) <= 9,
        p.len() <= 2 ==> digits_value(p) <= 99,
        p.len() <= 3 ==> digits_value(p) <= 999,
        p.len() <= 4 ==> digits_value(p) <= 9999,
    decreases p.len(),
{
    if p.len() > 0 {
        lemma_digits_value_small(p.drop_last());
    }
}

/// Value of a short all-digit part.
fn part_value(p: &str) -> (r: u32)
    requires
        p@.len() <= 4,
        forall|i: int| 0 <= i < p@.len() ==> is_digit_char(p@[i]),
    ensures
        r == digits_value(p@),
{
    let n = p.unicode_len();
    let mut v: u32 = 0;
    let mut i: usize = 0;
    while i < n
        invariant
            0 <= i <= n,
            n == p@.len() <= 4,
            forall|j: int| 0 <= j < n ==> is_digit_char(p@[j]),
            v == digits_value(p@.take(i as int)),
            v <= 9999,
        decreases n - i,
    {
        let c = p.get_char(i);
        proof {
            assert(p@.take(i + 1).drop_last() =~= p@.take(i as int));
            assert(p@.take(i + 1).last() == p@[i as int]);
            lemma_digits_value_small(p@.take(i as int));
        }
        v = v * 10 + (c as u32 - 48);
        i = i + 1;
    }
    proof {
        assert(p@.take(n as int) =~= p@);
    }
    v
}

fn check_part(p: &str, max_len: usize) -> (r: bool)
    ensures
        r == digits_part(p@, max_len as int),
{
    let n = p.unicode_len();
    if n < 1 || n > max_len {
        return false;
    }
    let mut i: usize = 0;
    while i < n
        invariant
            0 <= i <= n,
            n == p@.len(),
            forall|j: int| 0 <= j < i ==> is_digit_char(p@[j]),
        decreases n - i,
    {
        let c = p.get_char(i);
        if !(48 <= c as u32 && c as u32 <= 57) {
            return false;
        }
        i = i + 1;
    }
    true
}

/// Two date fields that differ only in stray `$`, `,` and space
/// characters parse to exactly the same result, so `31/12/2021` and
/// `31 / 12 / 2021` name the same calendar day.
pub proof fn lemma_parse_date_ignores_stray(s1: Seq<char>, s2: Seq<char>)
    requires
        strip_spec(s1) == strip_spec(s2),
    ensures
        parse_date_spec(s1) == parse_date_spec(s2),
{
}

/// Parses a `d/m/y` date field, tolerating stray `$`, `,` and spaces, and
/// expanding two-digit years to `20xx`.
pub fn parse_date(date: &str, error_prefix: &str) -> (r: Result<Date, String>)
    ensures
        match parse_date_spec(date@) {
            Ok(d) => r matches Ok(x) && x == d && d.wf(),
            Err(e) => r matches Err(m) && m@ == date_message(error_prefix@, strip_spec(date@), e),
        },
{
    let u = strip_stray(date);
    if u.as_str().unicode_len() == 0 {
        return Err(date_defect_message(error_prefix, u.as_str(), &DateDefect::Empty));
    }
    let parts = split_on(u.as_str(), '/');
    proof {
        assert(parts.deep_view().len() == parts@.len());
        assert(forall|i: int|
            0 <= i < parts@.len() ==> parts.deep_view()[i] == #[trigger] parts@[i]@);
    }
    if parts.len() < 3 {
        return Err(date_defect_message(error_prefix, u.as_str(), &DateDefect::Premature));
    }
    if parts.len() > 3 {
        return Err(date_defect_message(error_prefix, u.as_str(), &DateDefect::Trailing));
    }
    if !(check_part(parts[0].as_str(), 2) && check_part(parts[1].as_str(), 2) && check_part(
        parts[2].as_str(),
        4,
    )) {
        return Err(date_defect_message(error_prefix, u.as_str(), &DateDefect::InvalidChars));
    }
    let d = part_value(parts[0].as_str());
    let m = part_value(parts[1].as_str());
    let y0 = part_value(parts[2].as_str());
    let y = if y0 < 100 {
        y0 + 2000
    } else {
        y0
    };
    if y <= 9999 && 1 <= m && m <= 12 && 1 <= d && d <= days_in_month_exec(y, m) {
        Ok(Date { year: y, month: m, day: d })
    } else {
        Err(date_defect_message(error_prefix, u.as_str(), &DateDefect::OutOfRange))
    }
}

/// Parses an optional date field; a missing field is its own error.
pub fn parse_date_opt(date_opt: Option<&str>, error_prefix: &str) -> (r: Result<Date, String>)
    ensures
        date_opt is None ==> (r matches Err(m) && m@ == error_prefix@ + "No valid date"@),
        date_opt matches Some(s) ==> match parse_date_spec(s@) {
            Ok(d) => r matches Ok(x) && x == d && d.wf(),
            Err(e) => r matches Err(m) && m@ == date_message(error_prefix@, strip_spec(s@), e),
        },
{
    match date_opt {
        None => {
            let mut m = String::from_str(error_prefix);
            m.append("No valid date");
            Err(m)
        },
        Some(s) => parse_date(s, error_prefix),
    }
}

} // verus!
