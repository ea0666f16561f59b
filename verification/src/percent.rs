//! Parsing of percentage fields.
//!
//! A percentage is an optional sign, digits with optional thousands commas
//! and an optional decimal point, ended by a space or a `%` sign; whatever
//! follows the terminator (such as an `EA` annotation) is ignored.  The
//! literal token `NA` means the bank published no figure: distinctly not a
//! number, and never zero.  The parser validates the shape exactly and
//! hands back the cleaned numeric text, keeping the library free of
//! floating point; callers convert the text at the edge.

use vstd::prelude::*;
use crate::text::{trim, trim_spec, push_char, is_digit_char};

verus! {

/// A parsed percentage: a published numeric value, or `NA`.
#[derive(Debug, PartialEq, Eq)]
pub enum Percent {
    /// The bank published no figure for this fund and period.
    Na,
    /// The cleaned numeric text: sign, digits and decimal point only.
    Num(String),
}

impl View for Percent {
    type V = Option<Seq<char>>;

    /// `None` stands for `NA`; `Some` holds the cleaned numeric text.
    open spec fn view(&self) -> Option<Seq<char>> {
        match self {
            Percent::Na => None,
            Percent::Num(s) => Some(s@),
        }
    }
}

impl Percent {
    /// A copy with the same content.
    pub fn duplicate(&self) -> (r: Percent)
        ensures
            r@ == self@,
    {
        match self {
            Percent::Na => Percent::Na,
            Percent::Num(s) => Percent::Num(s.clone()),
        }
    }

    /// Whether this is the bank's `NA` marker.
    pub fn is_na(&self) -> (r: bool)
        ensures
            r == (self is Na),
    {
        match self {
            Percent::Na => true,
            Percent::Num(_) => false,
        }
    }

    /// The cleaned numeric text, or `NA` for a missing figure.
    pub fn text(&self) -> (r: &str)
        ensures
            self is Na ==> r@ == "NA"@,
            self matches Percent::Num(s) ==> r@ == s@,
    {
        match self {
            Percent::Na => "NA",
            Percent::Num(s) => s.as_str(),
        }
    }
}

/// One way a percentage field can be malformed.
#[derive(Clone, Copy, Debug, PartialEq, Eq, Structural)]
pub enum PercentDefect {
    /// Shorter than the shortest value, like `0 %`.
    TooShort,
    /// The first character is not a digit, `-` or `.`.
    StartsWithNonNumber(char),
    /// More than three digits before the first grouping comma.
    TooManyLeadingDigits,
    /// An unexpected character before any comma or decimal point.
    InvalidChar(char),
    /// A character where a separator or terminator was expected.
    BadSeparator(char),
    /// A non-digit inside a comma group.
    GroupNonDigit(char),
    /// A non-digit among the decimal digits.
    DecimalNonDigit(char),
    /// The field ended with no digit at all, like a bare sign.
    NoDigits,
}

/// Cleaned text accepted, or the first defect; `acc` is the cleaned text so
/// far and `has` whether any digit was seen.
pub open spec fn pct_finish(acc: Seq<char>, has: bool) -> Result<Seq<char>, PercentDefect> {
    if has {
        Ok(acc)
    } else {
        Err(PercentDefect::NoDigits)
    }
}

pub open spec fn pct_dec(rest: Seq<char>, acc: Seq<char>, has: bool) -> Result<
    Seq<char>,
    PercentDefect,
>
    decreases rest.len(),
{
    if rest.len() == 0 {
        pct_finish(acc, has)
    } else {
        let c = rest[0];
        if is_digit_char(c) {
            pct_dec(rest.drop_first(), acc.push(c), true)
        } else if c == ' ' || c == '%' {
            pct_finish(acc, has)
        } else {
            Err(PercentDefect::DecimalNonDigit(c))
        }
    }
}

pub open spec fn pct_group(rest: Seq<char>, k: nat, acc: Seq<char>, has: bool) -> Result<
    Seq<char>,
    PercentDefect,
>
    decreases rest.len(),
{
    if rest.len() == 0 {
        pct_finish(acc, has)
    } else {
        let c = rest[0];
        if k == 0 {
            if c == '.' {
                pct_dec(rest.drop_first(), acc.push('.'), has)
            } else if c == ',' {
                pct_group(rest.drop_first(), 3, acc, has)
            } else if c == ' ' || c == '%' {
                pct_finish(acc, has)
            } else {
                Err(PercentDefect::BadSeparator(c))
            }
        } else {
            if is_digit_char(c) {
                pct_group(rest.drop_first(), (k - 1) as nat, acc.push(c), true)
            } else {
                Err(PercentDefect::GroupNonDigit(c))
            }
        }
    }
}

pub open spec fn pct_lead(rest: Seq<char>, nd: nat, acc: Seq<char>, has: bool) -> Result<
    Seq<char>,
    PercentDefect,
>
    decreases rest.len(),
{
    if rest.len() == 0 {
        pct_finish(acc, has)
    } else {
        let c = rest[0];
        if c == '.' {
            pct_dec(rest.drop_first(), acc.push('.'), has)
        } else if c == ',' {
            pct_group(rest.drop_first(), 3, acc, has)
        } else if c == ' ' || c == '%' {
            pct_finish(acc, has)
        } else if is_digit_char(c) {
            if nd + 1 > 3 {
                Err(PercentDefect::TooManyLeadingDigits)
            } else {
                pct_lead(rest.drop_first(), nd + 1, acc.push(c), true)
            }
        } else {
            Err(PercentDefect::InvalidChar(c))
        }
    }
}

/// What scanning the (already trimmed, non-`NA`) percentage field yields.
pub open spec fn percent_scan(s: Seq<char>) -> Result<Seq<char>, PercentDefect> {
    if s.len() < 3 {
        Err(PercentDefect::TooShort)
    } else if s[0] == '.' {
        pct_dec(s.skip(1), seq!['.'], false)
    } else if s[0] == '-' {
        pct_lead(s.skip(1), 0, seq!['-'], false)
    } else if is_digit_char(s[0]) {
        pct_lead(s.skip(1), 1, seq![s[0]], true)
    } else {
        Err(PercentDefect::StartsWithNonNumber(s[0]))
    }
}

pub open spec fn percent_defect_text(d: PercentDefect) -> Seq<char> {
    match d {
        PercentDefect::TooShort => "Percent value too short"@,
        PercentDefect::StartsWithNonNumber(c) => "Percentage starts with "@ + seq![c]
            + " instead of a number"@,
        PercentDefect::TooManyLeadingDigits =>
            "Percentage has too many digits before the first ','"@,
        PercentDefect::InvalidChar(c) => "Percentage has invalid character '"@ + seq![c] + "'"@,
        PercentDefect::BadSeparator(c) => "Percentage has '"@ + seq![c]
            + "' instead of a decimal point, thousands separator, space, or percent sign"@,
        PercentDefect::GroupNonDigit(c) => "Percentage has '"@ + seq![c]
            + "' instead of a digit"@,
        PercentDefect::DecimalNonDigit(c) => "Percentage has '"@ + seq![c]
            + "' instead of a decimal digit"@,
        PercentDefect::NoDigits => "invalid float literal"@,
    }
}

/// The full error message for a malformed percentage; a field with no
/// digits reports the bare conversion failure, without context.
pub open spec fn percent_message(prefix: Seq<char>, value: Seq<char>, d: PercentDefect) -> Seq<
    char,
> {
    if d is NoDigits {
        percent_defect_text(d)
    } else {
        prefix + percent_defect_text(d) + ". Is the value "@ + value
            + " correctly formatted as a percentage?"@
    }
}

fn percent_defect_message(prefix: &str, value: &str, d: &PercentDefect) -> (r: String)
    ensures
        r@ == percent_message(prefix@, value@, *d),
{
    if let PercentDefect::NoDigits = d {
        return String::from_str("invalid float literal");
    }
    let mut m = String::from_str(prefix);
    match d {
        PercentDefect::TooShort => {
            m.append("Percent value too short");
        },
        PercentDefect::StartsWithNonNumber(c) => {
            m.append("Percentage starts with ");
            push_char(&mut m, *c);
            m.append(" instead of a number");
        },
        PercentDefect::TooManyLeadingDigits => {
            m.append("Percentage has too many digits before the first ','");
        },
        PercentDefect::InvalidChar(c) => {
            m.append("Percentage has invalid character '");
            push_char(&mut m, *c);
            m.append("'");
        },
        PercentDefect::BadSeparator(c) => {
            m.append("Percentage has '");
            push_char(&mut m, *c);
            m.append(
                "' instead of a decimal point, thousands separator, space, or percent sign",
            );
        },
        PercentDefect::GroupNonDigit(c) => {
            m.append("Percentage has '");
            push_char(&mut m, *c);
            m.append("' instead of a digit");
        },
        PercentDefect::DecimalNonDigit(c) => {
            m.append("Percentage has '");
            push_char(&mut m, *c);
            m.append("' instead of a decimal digit");
        },
        PercentDefect::NoDigits => {
            // handled above; unreachable because of the early return
        },
    }
    proof {
        assert(m@ =~= prefix@ + percent_defect_text(*d));
    }
    m.append(". Is the value ");
    m.append(value);
    m.append(" correctly formatted as a percentage?");
    proof {
        assert(m@ =~= percent_message(prefix@, value@, *d));
    }
    m
}

/// Parses a percentage field: `NA`, or cleaned numeric text ended by a
/// space or `%`; anything else yields the specific error for the first
/// defect met.
pub fn parse_percent(percent_opt: Option<&str>, error_prefix: &str) -> (r: Result<Percent, String>)
    ensures
        percent_opt is None ==> (r matches Err(m) && m@ == error_prefix@ + "No valid amount"@),
        percent_opt matches Some(p) ==> (if trim_spec(p@) == "NA"@ {
            r matches Ok(v) && v is Na
        } else {
            match percent_scan(trim_spec(p@)) {
                Ok(cs) => r matches Ok(v) && (v matches Percent::Num(x) && x@ == cs),
                Err(d) => r matches Err(m) && m@ == percent_message(
                    error_prefix@,
                    trim_spec(p@),
                    d,
                ),
            }
        }),
{
    let p = match percent_opt {
        None => {
            let mut m = String::from_str(error_prefix);
            m.append("No valid amount");
            return Err(m);
        },
        Some(p) => p,
    };
    proof {
        assert(percent_opt == Some(p));
    }
    let t = trim(p);
    if crate::text::str_eq(t, "NA") {
        return Ok(Percent::Na);
    }
    let n = t.unicode_len();
    if n < 3 {
        return Err(percent_defect_message(error_prefix, t, &PercentDefect::TooShort));
    }
    let c0 = t.get_char(0);
    // mode 0: leading digits; mode 1: comma groups; mode 2: decimals.
    let mut mode: u8 = 0;
    let mut nd: u64 = 0;
    let mut gk: u64 = 3;
    let mut acc = String::new();
    let mut has: bool = false;
    if c0 == '.' {
        mode = 2;
        push_char(&mut acc, '.');
    } else if c0 == '-' {
        mode = 0;
        nd = 0;
        push_char(&mut acc, '-');
    } else if 48 <= c0 as u32 && c0 as u32 <= 57 {
        mode = 0;
        nd = 1;
        has = true;
        push_char(&mut acc, c0);
    } else {
        return Err(percent_defect_message(
            error_prefix,
            t,
            &PercentDefect::StartsWithNonNumber(c0),
        ));
    }
    proof {
        assert(Seq::<char>::empty().push('.') =~= seq!['.']);
        assert(Seq::<char>::empty().push('-') =~= seq!['-']);
        assert(Seq::<char>::empty().push(c0) =~= seq![c0]);
    }
    let mut i: usize = 1;
    let mut done: bool = false;
    while i < n && !done
        invariant
            percent_opt == Some(p),
            t@ == trim_spec(p@),
            t@ != "NA"@,
            1 <= i <= n,
            n == t@.len(),
            mode <= 2,
            mode == 0 ==> nd <= 3,
            mode == 1 ==> gk <= 3,
            done ==> percent_scan(t@) == pct_finish(acc@, has),
            !done ==> percent_scan(t@) == (if mode == 0 {
                pct_lead(t@.skip(i as int), nd as nat, acc@, has)
            } else if mode == 1 {
                pct_group(t@.skip(i as int), gk as nat, acc@, has)
            } else {
                pct_dec(t@.skip(i as int), acc@, has)
            }),
        decreases n - i + (if done { 0int } else { 1int }),
    {
        let c = t.get_char(i);
        proof {
            assert(t@.skip(i as int)[0] == t@[i as int]);
            assert(t@.skip(i as int).drop_first() =~= t@.skip(i + 1));
        }
        let digit = 48 <= c as u32 && c as u32 <= 57;
        if mode == 0 {
            if c == '.' {
                mode = 2;
                push_char(&mut acc, '.');
            } else if c == ',' {
                mode = 1;
                gk = 3;
            } else if c == ' ' || c == '%' {
                proof {
                    assert(pct_lead(t@.skip(i as int), nd as nat, acc@, has) == pct_finish(
                        acc@,
                        has,
                    ));
                }
                done = true;
            } else if digit {
                if nd + 1 > 3 {
                    proof {
                        assert(pct_lead(t@.skip(i as int), nd as nat, acc@, has) == Err::<
                            Seq<char>,
                            PercentDefect,
                        >(PercentDefect::TooManyLeadingDigits));
                    }
                    return Err(percent_defect_message(
                        error_prefix,
                        t,
                        &PercentDefect::TooManyLeadingDigits,
                    ));
                }
                nd = nd + 1;
                has = true;
                push_char(&mut acc, c);
            } else {
                proof {
                    assert(pct_lead(t@.skip(i as int), nd as nat, acc@, has) == Err::<
                        Seq<char>,
                        PercentDefect,
                    >(PercentDefect::InvalidChar(c)));
                }
                return Err(percent_defect_message(
                    error_prefix,
                    t,
                    &PercentDefect::InvalidChar(c),
                ));
            }
        } else if mode == 1 {
            if gk == 0 {
                if c == '.' {
                    mode = 2;
                    push_char(&mut acc, '.');
                } else if c == ',' {
                    gk = 3;
                } else if c == ' ' || c == '%' {
                    proof {
                        assert(pct_group(t@.skip(i as int), gk as nat, acc@, has) == pct_finish(
                            acc@,
                            has,
                        ));
                    }
                    done = true;
                } else {
                    proof {
                        assert(pct_group(t@.skip(i as int), gk as nat, acc@, has) == Err::<
                            Seq<char>,
                            PercentDefect,
                        >(PercentDefect::BadSeparator(c)));
                    }
                    return Err(percent_defect_message(
                        error_prefix,
                        t,
                        &PercentDefect::BadSeparator(c),
                    ));
                }
            } else {
                if digit {
                    gk = gk - 1;
                    has = true;
                    push_char(&mut acc, c);
                } else {
                    proof {
                        assert(pct_group(t@.skip(i as int), gk as nat, acc@, has) == Err::<
                            Seq<char>,
                            PercentDefect,
                        >(PercentDefect::GroupNonDigit(c)));
                    }
                    return Err(percent_defect_message(
                        error_prefix,
                        t,
                        &PercentDefect::GroupNonDigit(c),
                    ));
                }
            }
        } else {
            if digit {
                has = true;
                push_char(&mut acc, c);
            } else if c == ' ' || c == '%' {
                proof {
                    assert(pct_dec(t@.skip(i as int), acc@, has) == pct_finish(acc@, has));
                }
                done = true;
            } else {
                proof {
                    assert(pct_dec(t@.skip(i as int), acc@, has) == Err::<
                        Seq<char>,
                        PercentDefect,
                    >(PercentDefect::DecimalNonDigit(c)));
                }
                return Err(percent_defect_message(
                    error_prefix,
                    t,
                    &PercentDefect::DecimalNonDigit(c),
                ));
            }
        }
        if !done {
            i = i + 1;
        }
    }
    proof {
        if !done {
            assert(t@.skip(n as int) =~= Seq::<char>::empty());
            if mode == 0 {
                assert(pct_lead(t@.skip(n as int), nd as nat, acc@, has) == pct_finish(
                    acc@,
                    has,
                ));
            } else if mode == 1 {
                assert(pct_group(t@.skip(n as int), gk as nat, acc@, has) == pct_finish(
                    acc@,
                    has,
                ));
            } else {
                assert(pct_dec(t@.skip(n as int), acc@, has) == pct_finish(acc@, has));
            }
        }
        assert(percent_scan(t@) == pct_finish(acc@, has));
    }
    if has {
        Ok(Percent::Num(acc))
    } else {
        Err(percent_defect_message(error_prefix, t, &PercentDefect::NoDigits))
    }
}

} // verus!
