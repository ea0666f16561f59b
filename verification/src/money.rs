//! Exact parsing and formatting of currency amounts.
//!
//! A well-formed amount starts with `$`, has an integer part of digits
//! grouped by commas in threes, and ends with a `.` followed by exactly two
//! decimal digits.  Parsing returns the amount as an integer count of cents
//! and reports one specific defect for each way an amount can be malformed.

use vstd::prelude::*;
use vstd::arithmetic::div_mod::{
    lemma_fundamental_div_mod, lemma_div_denominator, lemma_small_mod, lemma_mod_bound,
    lemma_mod_division_less_than_divisor, lemma_mod_multiples_basic,
};
use crate::text::{
    trim, trim_spec, push_char, digit_char, dec_nat, u64_to_string,
};

verus! {

/// One specific way a currency field can be malformed.
#[derive(Clone, Copy, Debug, PartialEq, Eq, Structural)]
pub enum CentsDefect {
    /// Shorter than the shortest well-formed amount, `$.00`.
    TooShort,
    /// The first character is not `$`.
    NoDollarSign,
    /// The character after `$` is neither a digit nor `.`.
    StartsWithNonDigit(char),
    /// More than three digits before the first grouping comma.
    TooManyLeadingDigits,
    /// An unexpected character before any comma or decimal point.
    InvalidChar(char),
    /// A character where a `,` or `.` separator was expected.
    BadSeparator(char),
    /// A non-digit inside a comma group.
    GroupNonDigit(char),
    /// A non-digit among the decimal digits.
    DecimalNonDigit(char),
    /// Exactly one decimal digit.
    OneDecimalDigit,
    /// The amount ended without a decimal point.
    NoDecimalPoint,
    /// Some other number of decimal digits than two.
    WrongDecimalCount(u64),
    /// The digits are well-formed but the value does not fit the cents type.
    TooLarge,
}

pub open spec fn is_digit(c: char) -> bool {
    48 <= c as u32 <= 57
}

pub open spec fn digit_val(c: char) -> nat {
    (c as u32 - 48) as nat
}

/// Scanning the decimal digits after the `.`; `dd` digits seen, value so
/// far `val`.
pub open spec fn scan_dec(rest: Seq<char>, dd: nat, val: nat) -> Result<nat, CentsDefect>
    decreases rest.len(),
{
    if rest.len() == 0 {
        if dd == 1 {
            Err(CentsDefect::OneDecimalDigit)
        } else if dd != 2 {
            Err(CentsDefect::WrongDecimalCount(dd as u64))
        } else if val > i64::MAX {
            Err(CentsDefect::TooLarge)
        } else {
            Ok(val)
        }
    } else {
        let c = rest[0];
        if is_digit(c) {
            scan_dec(rest.drop_first(), dd + 1, val * 10 + digit_val(c))
        } else {
            Err(CentsDefect::DecimalNonDigit(c))
        }
    }
}

/// Scanning inside comma groups; `k` digits still expected before the next
/// separator position.
pub open spec fn scan_group(rest: Seq<char>, k: nat, val: nat) -> Result<nat, CentsDefect>
    decreases rest.len(),
{
    if rest.len() == 0 {
        Err(CentsDefect::NoDecimalPoint)
    } else {
        let c = rest[0];
        if k == 0 {
            if c == '.' {
                scan_dec(rest.drop_first(), 0, val)
            } else if c == ',' {
                scan_group(rest.drop_first(), 3, val)
            } else {
                Err(CentsDefect::BadSeparator(c))
            }
        } else {
            if is_digit(c) {
                scan_group(rest.drop_first(), (k - 1) as nat, val * 10 + digit_val(c))
            } else {
                Err(CentsDefect::GroupNonDigit(c))
            }
        }
    }
}

/// Scanning the leading digits before any comma; `nd` digits seen so far.
pub open spec fn scan_lead(rest: Seq<char>, nd: nat, val: nat) -> Result<nat, CentsDefect>
    decreases rest.len(),
{
    if rest.len() == 0 {
        Err(CentsDefect::NoDecimalPoint)
    } else {
        let c = rest[0];
        if c == '.' {
            scan_dec(rest.drop_first(), 0, val)
        } else if c == ',' {
            scan_group(rest.drop_first(), 3, val)
        } else if is_digit(c) {
            if nd + 1 > 3 {
                Err(CentsDefect::TooManyLeadingDigits)
            } else {
                scan_lead(rest.drop_first(), nd + 1, val * 10 + digit_val(c))
            }
        } else {
            Err(CentsDefect::InvalidChar(c))
        }
    }
}

/// What parsing the (already trimmed) currency field `s` yields: the cent
/// count, or the first defect the scan meets.
pub open spec fn parse_cents_spec(s: Seq<char>) -> Result<nat, CentsDefect> {
    if s.len() < 4 {
        Err(CentsDefect::TooShort)
    } else if s[0] != '$' {
        Err(CentsDefect::NoDollarSign)
    } else if s[1] == '.' {
        scan_dec(s.skip(2), 0, 0)
    } else if is_digit(s[1]) {
        scan_lead(s.skip(2), 1, digit_val(s[1]))
    } else {
        Err(CentsDefect::StartsWithNonDigit(s[1]))
    }
}

/// The defect text embedded in a currency error message.
pub open spec fn cents_defect_text(d: CentsDefect) -> Seq<char> {
    match d {
        CentsDefect::TooShort => "Pesos value too short"@,
        CentsDefect::NoDollarSign => "Value has no $ sign"@,
        CentsDefect::StartsWithNonDigit(c) => "Pesos value starts with $"@ + seq![c]
            + " instead of a number"@,
        CentsDefect::TooManyLeadingDigits =>
            "Pesos value has too many digits before the first ','"@,
        CentsDefect::InvalidChar(c) => "Pesos value has invalid character '"@ + seq![c] + "'"@,
        CentsDefect::BadSeparator(c) => "Pesos value has '"@ + seq![c]
            + "' instead of the ',' thousands separator"@,
        CentsDefect::GroupNonDigit(c) => "Pesos value has '"@ + seq![c]
            + "' instead of a digit"@,
        CentsDefect::DecimalNonDigit(c) => "Pesos value has '"@ + seq![c]
            + "' instead of a decimal digit"@,
        CentsDefect::OneDecimalDigit => "Pesos value has 1 decimal digit instead of 2"@,
        CentsDefect::NoDecimalPoint => "Pesos value has -1 decimal digits instead of 2"@,
        CentsDefect::WrongDecimalCount(n) => "Pesos value has "@ + dec_nat(n as nat)
            + " decimal digits instead of 2"@,
        CentsDefect::TooLarge => "number too large to fit in target type"@,
    }
}

/// The full error message for defect `d` met while parsing `value` in
/// context `prefix`.  An overflowing value reports the bare conversion
/// failure, without context.
pub open spec fn cents_message(prefix: Seq<char>, value: Seq<char>, d: CentsDefect) -> Seq<char> {
    if d is TooLarge {
        cents_defect_text(d)
    } else {
        prefix + cents_defect_text(d) + ". Is the value "@ + value
            + " correctly formatted as pesos?"@
    }
}

fn cents_defect_message(prefix: &str, value: &str, d: &CentsDefect) -> (r: String)
    ensures
        r@ == cents_message(prefix@, value@, *d),
{
    if let CentsDefect::TooLarge = d {
        return String::from_str("number too large to fit in target type");
    }
    let mut m = String::from_str(prefix);
    match d {
        CentsDefect::TooShort => {
            m.append("Pesos value too short");
        },
        CentsDefect::NoDollarSign => {
            m.append("Value has no $ sign");
        },
        CentsDefect::StartsWithNonDigit(c) => {
            m.append("Pesos value starts with $");
            push_char(&mut m, *c);
            m.append(" instead of a number");
        },
        CentsDefect::TooManyLeadingDigits => {
            m.append("Pesos value has too many digits before the first ','");
        },
        CentsDefect::InvalidChar(c) => {
            m.append("Pesos value has invalid character '");
            push_char(&mut m, *c);
            m.append("'");
        },
        CentsDefect::BadSeparator(c) => {
            m.append("Pesos value has '");
            push_char(&mut m, *c);
            m.append("' instead of the ',' thousands separator");
        },
        CentsDefect::GroupNonDigit(c) => {
            m.append("Pesos value has '");
            push_char(&mut m, *c);
            m.append("' instead of a digit");
        },
        CentsDefect::DecimalNonDigit(c) => {
            m.append("Pesos value has '");
            push_char(&mut m, *c);
            m.append("' instead of a decimal digit");
        },
        CentsDefect::OneDecimalDigit => {
            m.append("Pesos value has 1 decimal digit instead of 2");
        },
        CentsDefect::NoDecimalPoint => {
            m.append("Pesos value has -1 decimal digits instead of 2");
        },
        CentsDefect::WrongDecimalCount(n) => {
            m.append("Pesos value has ");
            let t = u64_to_string(*n);
            m.append(t.as_str());
            m.append(" decimal digits instead of 2");
        },
        CentsDefect::TooLarge => {
            // handled above; unreachable because of the early return
        },
    }
    proof {
        assert(m@ =~= prefix@ + cents_defect_text(*d));
    }
    m.append(". Is the value ");
    m.append(value);
    m.append(" correctly formatted as pesos?");
    proof {
        assert(m@ =~= cents_message(prefix@, value@, *d));
    }
    m
}

proof fn lemma_mul10_bound(val: nat, dv: nat, q: nat, m: nat)
    requires
        dv <= 9,
        dv <= m,
        q == (m - dv) as nat / 10,
    ensures
        val > q ==> val * 10 + dv > m,
        val <= q ==> val * 10 + dv <= m,
{
    lemma_fundamental_div_mod((m - dv) as int, 10);
    lemma_mod_bound((m - dv) as int, 10);
    assert(val > q ==> val * 10 >= (q + 1) * 10) by (nonlinear_arith);
    assert(val <= q ==> val * 10 <= q * 10) by (nonlinear_arith);
}

/// Parses a currency field into cents.  `None`, or a field that fails the
/// grammar, yields the specific error message for the first defect met.
pub fn parse_cents(pesos_opt: Option<&str>, error_prefix: &str) -> (r: Result<i64, String>)
    ensures
        pesos_opt is None ==> (r matches Err(m) && m@ == error_prefix@ + "No valid amount"@),
        pesos_opt matches Some(p) ==> match parse_cents_spec(trim_spec(p@)) {
            Ok(v) => r matches Ok(c) && c == v,
            Err(d) => r matches Err(m) && m@ == cents_message(error_prefix@, trim_spec(p@), d),
        },
{
    let p = match pesos_opt {
        None => {
            let mut m = String::from_str(error_prefix);
            m.append("No valid amount");
            return Err(m);
        },
        Some(p) => p,
    };
    proof {
        assert(pesos_opt == Some(p));
    }
    let t = trim(p);
    let n = t.unicode_len();
    if n < 4 {
        return Err(cents_defect_message(error_prefix, t, &CentsDefect::TooShort));
    }
    if t.get_char(0) != '$' {
        return Err(cents_defect_message(error_prefix, t, &CentsDefect::NoDollarSign));
    }
    let c1 = t.get_char(1);
    // mode 0: leading digits; mode 1: comma groups; mode 2: decimals.
    let mut mode: u8 = 0;
    let mut nd: u64 = 1;
    let mut gk: u64 = 3;
    let mut dd: u64 = 0;
    let mut val: u64 = 0;
    let mut big: bool = false;
    let ghost mut gval: nat = 0nat;
    if c1 == '.' {
        mode = 2;
    } else if 48 <= c1 as u32 && c1 as u32 <= 57 {
        mode = 0;
        val = (c1 as u32 - 48) as u64;
        proof {
            gval = digit_val(c1);
        }
    } else {
        return Err(cents_defect_message(error_prefix, t, &CentsDefect::StartsWithNonDigit(c1)));
    }
    let mut i: usize = 2;
    while i < n
        invariant
            pesos_opt == Some(p),
            t@ == trim_spec(p@),
            2 <= i <= n,
            n == t@.len(),
            mode <= 2,
            mode == 0 ==> 1 <= nd <= 3,
            mode == 1 ==> gk <= 3,
            dd <= i,
            !big ==> gval == val as nat && val <= i64::MAX as u64,
            big ==> gval > i64::MAX,
            parse_cents_spec(t@) == (if mode == 0 {
                scan_lead(t@.skip(i as int), nd as nat, gval)
            } else if mode == 1 {
                scan_group(t@.skip(i as int), gk as nat, gval)
            } else {
                scan_dec(t@.skip(i as int), dd as nat, gval)
            }),
        decreases n - i,
    {
        let c = t.get_char(i);
        proof {
            assert(t@.skip(i as int)[0] == t@[i as int]);
            assert(t@.skip(i as int).drop_first() =~= t@.skip(i + 1));
        }
        let digit = 48 <= c as u32 && c as u32 <= 57;
        if mode == 0 {
            if c == '.' {
                mode = 2;
                dd = 0;
            } else if c == ',' {
                mode = 1;
                gk = 3;
            } else if digit {
                if nd + 1 > 3 {
                    proof {
                        assert(scan_lead(t@.skip(i as int), nd as nat, gval) == Err::<
                            nat,
                            CentsDefect,
                        >(CentsDefect::TooManyLeadingDigits));
                    }
                    return Err(cents_defect_message(
                        error_prefix,
                        t,
                        &CentsDefect::TooManyLeadingDigits,
                    ));
                }
                nd = nd + 1;
                let g = accumulate(&mut val, &mut big, Ghost(gval), c);
                proof {
                    gval = g@;
                }
            } else {
                proof {
                    assert(scan_lead(t@.skip(i as int), nd as nat, gval) == Err::<
                        nat,
                        CentsDefect,
                    >(CentsDefect::InvalidChar(c)));
                }
                return Err(cents_defect_message(error_prefix, t, &CentsDefect::InvalidChar(c)));
            }
        } else if mode == 1 {
            if gk == 0 {
                if c == '.' {
                    mode = 2;
                    dd = 0;
                } else if c == ',' {
                    gk = 3;
                } else {
                    proof {
                        assert(scan_group(t@.skip(i as int), gk as nat, gval) == Err::<
                            nat,
                            CentsDefect,
                        >(CentsDefect::BadSeparator(c)));
                    }
                    return Err(cents_defect_message(
                        error_prefix,
                        t,
                        &CentsDefect::BadSeparator(c),
                    ));
                }
            } else {
                if digit {
                    gk = gk - 1;
                    let g = accumulate(&mut val, &mut big, Ghost(gval), c);
                    proof {
                        gval = g@;
                    }
                } else {
                    proof {
                        assert(scan_group(t@.skip(i as int), gk as nat, gval) == Err::<
                            nat,
                            CentsDefect,
                        >(CentsDefect::GroupNonDigit(c)));
                    }
                    return Err(cents_defect_message(
                        error_prefix,
                        t,
                        &CentsDefect::GroupNonDigit(c),
                    ));
                }
            }
        } else {
            if digit {
                dd = dd + 1;
                let g = accumulate(&mut val, &mut big, Ghost(gval), c);
                proof {
                    gval = g@;
                }
            } else {
                proof {
                    assert(scan_dec(t@.skip(i as int), dd as nat, gval) == Err::<
                        nat,
                        CentsDefect,
                    >(CentsDefect::DecimalNonDigit(c)));
                }
                return Err(cents_defect_message(
                    error_prefix,
                    t,
                    &CentsDefect::DecimalNonDigit(c),
                ));
            }
        }
        i = i + 1;
    }
    proof {
        assert(t@.skip(n as int) =~= Seq::<char>::empty());
    }
    if mode != 2 {
        return Err(cents_defect_message(error_prefix, t, &CentsDefect::NoDecimalPoint));
    }
    if dd == 1 {
        return Err(cents_defect_message(error_prefix, t, &CentsDefect::OneDecimalDigit));
    }
    if dd != 2 {
        return Err(cents_defect_message(error_prefix, t, &CentsDefect::WrongDecimalCount(dd)));
    }
    if big {
        return Err(cents_defect_message(error_prefix, t, &CentsDefect::TooLarge));
    }
    Ok(val as i64)
}

/// Folds one more digit into the running value, tracking whether the exact
/// value has outgrown the cents type.
fn accumulate(val: &mut u64, big: &mut bool, Ghost(g0): Ghost<nat>, c: char) -> (g: Ghost<nat>)
    requires
        is_digit(c),
        !*old(big) ==> g0 == *old(val) as nat && *old(val) <= i64::MAX as u64,
        *old(big) ==> g0 > i64::MAX,
    ensures
        g@ == g0 * 10 + digit_val(c),
        !*final(big) ==> g@ == *final(val) as nat && *final(val) <= i64::MAX as u64,
        *final(big) ==> g@ > i64::MAX,
{
    let dv = (c as u32 - 48) as u64;
    let ghost g1: nat = g0 * 10 + digit_val(c);
    if *big {
        proof {
            assert(g0 * 10 + digit_val(c) >= g0) by (nonlinear_arith);
        }
        return Ghost(g1);
    }
    let limit = (i64::MAX as u64 - dv) / 10;
    if *val > limit {
        *big = true;
        proof {
            lemma_mul10_bound(*old(val) as nat, dv as nat, limit as nat, i64::MAX as nat);
        }
    } else {
        proof {
            lemma_mul10_bound(*old(val) as nat, dv as nat, limit as nat, i64::MAX as nat);
        }
        *val = *val * 10 + dv;
    }
    Ghost(g1)
}

/// Every character of `ds` is a decimal digit.
pub open spec fn all_digits(ds: Seq<char>) -> bool {
    forall|i: int| 0 <= i < ds.len() ==> is_digit(ds[i])
}

/// The number the digit characters `ds` denote, most significant first.
pub open spec fn digits_val(ds: Seq<char>) -> nat
    decreases ds.len(),
{
    if ds.len() == 0 {
        0
    } else {
        digits_val(ds.drop_last()) * 10 + digit_val(ds.last())
    }
}

pub open spec fn pow10(k: nat) -> nat
    decreases k,
{
    if k == 0 {
        1
    } else {
        10 * pow10((k - 1) as nat)
    }
}

proof fn lemma_digit_char_val(m: nat)
    requires
        m < 10,
    ensures
        is_digit(digit_char(m)),
        digit_val(digit_char(m)) == m,
{
}

proof fn lemma_dec_nat_digits(n: nat)
    ensures
        all_digits(dec_nat(n)),
        dec_nat(n).len() >= 1,
        digits_val(dec_nat(n)) == n,
    decreases n,
{
    if n < 10 {
        lemma_digit_char_val(n);
        assert(dec_nat(n) =~= seq![digit_char(n)]);
        assert(dec_nat(n).drop_last() =~= Seq::<char>::empty());
        assert(dec_nat(n).last() == digit_char(n));
        assert(digits_val(Seq::<char>::empty()) == 0);
        assert(digits_val(dec_nat(n)) == digit_val(digit_char(n)));
    } else {
        lemma_dec_nat_digits(n / 10);
        lemma_digit_char_val(n % 10);
        let ds = dec_nat(n / 10).push(digit_char(n % 10));
        assert(ds.drop_last() =~= dec_nat(n / 10));
        assert(ds.last() == digit_char(n % 10));
        assert(digits_val(ds) == (n / 10) * 10 + n % 10);
        lemma_fundamental_div_mod(n as int, 10);
    }
}

proof fn lemma_digits_val_concat(a: Seq<char>, b: Seq<char>)
    ensures
        digits_val(a + b) == digits_val(a) * pow10(b.len()) + digits_val(b),
    decreases b.len(),
{
    if b.len() == 0 {
        assert(a + b =~= a);
        assert(pow10(0) == 1);
        assert(digits_val(b) == 0);
        assert(digits_val(a) * 1 == digits_val(a));
    } else {
        lemma_digits_val_concat(a, b.drop_last());
        assert((a + b).drop_last() =~= a + b.drop_last());
        assert((a + b).last() == b.last());
        let va = digits_val(a);
        let vb = digits_val(b.drop_last());
        let p = pow10((b.len() - 1) as nat);
        let dl = digit_val(b.last());
        assert(digits_val(a + b) == digits_val(a + b.drop_last()) * 10 + dl);
        assert(digits_val(a + b) == (va * p + vb) * 10 + dl);
        assert((va * p + vb) * 10 + dl == va * (10 * p) + (vb * 10 + dl)) by (nonlinear_arith);
        assert(pow10(b.len()) == 10 * p);
        assert(va * pow10(b.len()) == va * (10 * p));
        assert(digits_val(b) == vb * 10 + dl);
    }
}

proof fn lemma_scan_group3(g: Seq<char>, rest: Seq<char>, val: nat)
    requires
        all_digits(g),
        g.len() == 3,
    ensures
        scan_group(g + rest, 3, val) == scan_group(rest, 0, val * 1000 + digits_val(g)),
{
    let d0 = digit_val(g[0]);
    let d1 = digit_val(g[1]);
    let d2 = digit_val(g[2]);
    let s0 = g + rest;
    let s1 = g.drop_first() + rest;
    let s2 = g.drop_first().drop_first() + rest;
    assert(s0.drop_first() =~= s1);
    assert(s1.drop_first() =~= s2);
    assert(s2.drop_first() =~= rest);
    assert(s0[0] == g[0] && s1[0] == g[1] && s2[0] == g[2]);
    assert(scan_group(s0, 3, val) == scan_group(s1, 2, val * 10 + d0));
    assert(scan_group(s1, 2, val * 10 + d0) == scan_group(s2, 1, (val * 10 + d0) * 10 + d1));
    assert(scan_group(s2, 1, (val * 10 + d0) * 10 + d1) == scan_group(
        rest,
        0,
        ((val * 10 + d0) * 10 + d1) * 10 + d2,
    ));
    assert(g.drop_last() =~= g.take(2));
    assert(g.take(2).drop_last() =~= g.take(1));
    assert(g.take(1).drop_last() =~= Seq::<char>::empty());
    assert(g.last() == g[2] && g.take(2).last() == g[1] && g.take(1).last() == g[0]);
    assert(digits_val(Seq::<char>::empty()) == 0);
    assert(digits_val(g.take(1)) == d0);
    assert(digits_val(g.take(2)) == d0 * 10 + d1);
    assert(digits_val(g) == (d0 * 10 + d1) * 10 + d2);
    assert(((val * 10 + d0) * 10 + d1) * 10 + d2 == val * 1000 + ((d0 * 10 + d1) * 10 + d2));
}

/// The comma groups of a digit string after its first (shorter) group.
pub open spec fn tail_groups(e: Seq<char>) -> Seq<char>
    decreases e.len(),
{
    if e.len() == 0 {
        Seq::<char>::empty()
    } else if e.len() <= 3 {
        seq![','] + e
    } else {
        seq![','] + e.take(3) + tail_groups(e.skip(3))
    }
}

/// Digit string with thousands separators: a first group of one to three
/// digits, then comma-separated groups of three.
pub open spec fn group_digits(ds: Seq<char>) -> Seq<char> {
    if ds.len() == 0 {
        ds
    } else {
        let r = ((ds.len() - 1) as int % 3) + 1;
        ds.take(r) + tail_groups(ds.skip(r))
    }
}

/// The canonical rendering of `c` cents: `$`, the peso digits grouped in
/// thousands, and exactly two decimal digits.
pub open spec fn format_cents_spec(c: nat) -> Seq<char> {
    seq!['$'] + group_digits(dec_nat(c / 100)) + seq!['.'] + seq![
        digit_char((c / 10) % 10),
        digit_char(c % 10),
    ]
}

proof fn lemma_scan_tail(e: Seq<char>, cc: Seq<char>, val: nat)
    requires
        all_digits(e),
        e.len() % 3 == 0,
    ensures
        scan_group(tail_groups(e) + (seq!['.'] + cc), 0, val) == scan_dec(
            cc,
            0,
            val * pow10(e.len()) + digits_val(e),
        ),
    decreases e.len(),
{
    if e.len() == 0 {
        let s0 = tail_groups(e) + (seq!['.'] + cc);
        assert(s0 =~= seq!['.'] + cc);
        assert(s0[0] == '.');
        assert(s0.drop_first() =~= cc);
        assert(pow10(0) == 1);
        assert(digits_val(e) == 0);
        assert(val * pow10(0) + digits_val(e) == val) by (nonlinear_arith)
            requires pow10(0) == 1 && digits_val(e) == 0;
    } else {
        let g = e.take(3);
        let e2 = e.skip(3);
        assert(e =~= g + e2);
        assert(e2.len() % 3 == 0) by {
            assert(e.len() >= 3) by {
                lemma_mod_division_less_than_divisor(e.len() as int, 3);
            }
        }
        let s0 = tail_groups(e) + (seq!['.'] + cc);
        assert(tail_groups(e) =~= seq![','] + g + tail_groups(e2));
        assert(s0[0] == ',');
        assert(s0.drop_first() =~= g + (tail_groups(e2) + (seq!['.'] + cc)));
        assert(scan_group(s0, 0, val) == scan_group(
            g + (tail_groups(e2) + (seq!['.'] + cc)),
            3,
            val,
        ));
        lemma_scan_group3(g, tail_groups(e2) + (seq!['.'] + cc), val);
        let vg = digits_val(g);
        lemma_scan_tail(e2, cc, val * 1000 + vg);
        lemma_digits_val_concat(g, e2);
        let p2 = pow10(e2.len());
        assert(pow10(e.len()) == 1000 * p2) by {
            assert(pow10(e.len()) == 10 * pow10((e.len() - 1) as nat));
            assert(pow10((e.len() - 1) as nat) == 10 * pow10((e.len() - 2) as nat));
            assert(pow10((e.len() - 2) as nat) == 10 * pow10((e.len() - 3) as nat));
        }
        assert((val * 1000 + vg) * p2 == val * (1000 * p2) + vg * p2) by (nonlinear_arith);
    }
}

proof fn lemma_scan_lead_digits(f: Seq<char>, rest: Seq<char>, j: int)
    requires
        all_digits(f),
        1 <= j <= f.len() <= 3,
    ensures
        scan_lead(f.skip(j) + rest, j as nat, digits_val(f.take(j))) == scan_lead(
            rest,
            f.len() as nat,
            digits_val(f),
        ),
    decreases f.len() - j,
{
    if j == f.len() {
        assert(f.skip(j) + rest =~= rest);
        assert(f.take(j) =~= f);
    } else {
        let c = f[j];
        let s0 = f.skip(j) + rest;
        assert(s0[0] == c);
        assert(is_digit(c));
        assert(c as u32 != 46 && c as u32 != 44);
        assert(c != '.' && c != ',');
        assert(s0.drop_first() =~= f.skip(j + 1) + rest);
        assert(f.take(j + 1).drop_last() =~= f.take(j));
        assert(digits_val(f.take(j + 1)) == digits_val(f.take(j)) * 10 + digit_val(c));
        lemma_scan_lead_digits(f, rest, j + 1);
    }
}

proof fn lemma_scan_lead_sep(rest: Seq<char>, nd: nat, val: nat)
    requires
        rest.len() > 0,
        rest[0] == ',' || rest[0] == '.',
    ensures
        scan_lead(rest, nd, val) == scan_group(rest, 0, val),
{
    assert(!is_digit(rest[0]));
}

proof fn lemma_scan_two_dec(c1: char, c2: char, val: nat)
    requires
        is_digit(c1),
        is_digit(c2),
    ensures
        scan_dec(seq![c1, c2], 0, val) == (if val * 100 + digit_val(c1) * 10 + digit_val(c2)
            > i64::MAX {
            Err::<nat, CentsDefect>(CentsDefect::TooLarge)
        } else {
            Ok::<nat, CentsDefect>(val * 100 + digit_val(c1) * 10 + digit_val(c2))
        }),
{
    let s0 = seq![c1, c2];
    assert(s0.drop_first() =~= seq![c2]);
    assert(seq![c2].drop_first() =~= Seq::<char>::empty());
    assert(scan_dec(s0, 0, val) == scan_dec(seq![c2], 1, val * 10 + digit_val(c1)));
    assert(scan_dec(seq![c2], 1, val * 10 + digit_val(c1)) == scan_dec(
        Seq::<char>::empty(),
        2,
        (val * 10 + digit_val(c1)) * 10 + digit_val(c2),
    ));
    assert((val * 10 + digit_val(c1)) * 10 + digit_val(c2) == val * 100 + digit_val(c1) * 10
        + digit_val(c2));
}

/// Parsing is a left inverse of the canonical formatter: formatting any
/// representable cent count and parsing the text back yields that count.
#[verifier::rlimit(60)]
pub proof fn lemma_parse_cents_formats_back(c: nat)
    requires
        c <= i64::MAX,
    ensures
        parse_cents_spec(format_cents_spec(c)) == Ok::<nat, CentsDefect>(c),
{
    let p = c / 100;
    let ds = dec_nat(p);
    lemma_dec_nat_digits(p);
    let n = ds.len() as int;
    let r = ((n - 1) % 3) + 1;
    lemma_mod_division_less_than_divisor(n - 1, 3);
    if n - 1 < 3 {
        lemma_small_mod((n - 1) as nat, 3);
    }
    assert(1 <= r <= 3 && r <= n);
    let f = ds.take(r);
    let e = ds.skip(r);
    assert(ds =~= f + e);
    lemma_fundamental_div_mod(n - 1, 3);
    assert(e.len() == 3 * ((n - 1) / 3));
    lemma_mod_multiples_basic((n - 1) / 3, 3);
    assert(e.len() % 3 == 0);
    let c1 = digit_char((c / 10) % 10);
    let c2 = digit_char(c % 10);
    let cc = seq![c1, c2];
    lemma_mod_division_less_than_divisor(c as int / 10, 10);
    lemma_mod_division_less_than_divisor(c as int, 10);
    lemma_digit_char_val(((c / 10) % 10) as nat);
    lemma_digit_char_val((c % 10) as nat);
    let s = format_cents_spec(c);
    assert(s =~= seq!['$'] + (f + tail_groups(e)) + seq!['.'] + cc);
    assert(s.len() >= 4);
    assert(s[0] == '$');
    assert(s[1] == f[0]);
    assert(f[0] == ds[0] && is_digit(ds[0]));
    let tail_rest = tail_groups(e) + (seq!['.'] + cc);
    assert(s.skip(2) =~= f.skip(1) + tail_rest);
    assert(f.take(1) =~= seq![ds[0]]);
    assert(seq![ds[0]].drop_last() =~= Seq::<char>::empty());
    assert(seq![ds[0]].last() == ds[0]);
    assert(digits_val(Seq::<char>::empty()) == 0);
    assert(digits_val(f.take(1)) == digit_val(ds[0]));
    assert(parse_cents_spec(s) == scan_lead(f.skip(1) + tail_rest, 1, digits_val(f.take(1))));
    lemma_scan_lead_digits(f, tail_rest, 1);
    assert(tail_rest[0] == ',' || tail_rest[0] == '.') by {
        if e.len() == 0 {
            assert(tail_rest =~= seq!['.'] + cc);
        }
    }
    lemma_scan_lead_sep(tail_rest, f.len() as nat, digits_val(f));
    lemma_scan_tail(e, cc, digits_val(f));
    lemma_digits_val_concat(f, e);
    assert(digits_val(f) * pow10(e.len()) + digits_val(e) == p);
    lemma_scan_two_dec(c1, c2, p);
    assert(p * 100 + ((c / 10) % 10) * 10 + c % 10 == c) by {
        lemma_div_denominator(c as int, 10, 10);
        lemma_fundamental_div_mod(c as int, 10);
        lemma_fundamental_div_mod(c as int / 10, 10);
    }
}

/// Formats a cent count canonically, as `parse_cents` reads it back.
pub fn format_cents(cents: u64) -> (r: String)
    ensures
        r@ == format_cents_spec(cents as nat),
{
    let pesos = cents / 100;
    let ds = crate::text::dec_chars(pesos);
    proof {
        lemma_dec_nat_digits(pesos as nat);
    }
    let n = ds.len();
    let r_len = ((n - 1) % 3) + 1;
    proof {
        lemma_mod_division_less_than_divisor(n - 1, 3);
        if n - 1 < 3 {
            lemma_small_mod((n - 1) as nat, 3);
        }
        lemma_fundamental_div_mod(n - 1, 3);
        lemma_mod_multiples_basic((n - 1) / 3, 3);
        assert((n - r_len) % 3 == 0);
    }
    let mut out = String::new();
    push_char(&mut out, '$');
    let mut j: usize = 0;
    while j < r_len
        invariant
            0 <= j <= r_len <= n,
            n == ds@.len(),
            out@ == seq!['$'] + ds@.take(j as int),
        decreases r_len - j,
    {
        push_char(&mut out, ds[j]);
        proof {
            assert((seq!['$'] + ds@.take(j as int)).push(ds@[j as int]) =~= seq!['$'] + ds@.take(
                j + 1,
            ));
        }
        j = j + 1;
    }
    proof {
        assert(seq!['$'] + group_digits(ds@) =~= out@ + tail_groups(ds@.skip(r_len as int)));
    }
    while j < n
        invariant
            r_len <= j <= n,
            n == ds@.len(),
            (n - j) % 3 == 0,
            seq!['$'] + group_digits(ds@) == out@ + tail_groups(ds@.skip(j as int)),
        decreases n - j,
    {
        proof {
            lemma_mod_division_less_than_divisor(n - j, 3);
            assert(n - j >= 3) by {
                if n - j < 3 {
                    lemma_small_mod((n - j) as nat, 3);
                }
            }
            let rem = ds@.skip(j as int);
            assert(rem.take(3) =~= seq![ds@[j as int], ds@[j + 1], ds@[j + 2]]);
            assert(rem.skip(3) =~= ds@.skip(j + 3));
            assert(tail_groups(rem) =~= seq![','] + rem.take(3) + tail_groups(ds@.skip(j + 3)));
        }
        let ghost out0 = out@;
        push_char(&mut out, ',');
        push_char(&mut out, ds[j]);
        push_char(&mut out, ds[j + 1]);
        push_char(&mut out, ds[j + 2]);
        proof {
            let rem = ds@.skip(j as int);
            assert(out@ =~= out0 + (seq![','] + rem.take(3)));
            assert(out0 + tail_groups(rem) =~= out@ + tail_groups(ds@.skip(j + 3)));
        }
        j = j + 3;
    }
    proof {
        assert(ds@.skip(n as int) =~= Seq::<char>::empty());
        assert(out@ + tail_groups(Seq::<char>::empty()) =~= out@);
    }
    let d1 = crate::text::digit_char_exec((cents / 10) % 10);
    let d2 = crate::text::digit_char_exec(cents % 10);
    push_char(&mut out, '.');
    push_char(&mut out, d1);
    push_char(&mut out, d2);
    proof {
        lemma_mod_division_less_than_divisor(cents as int / 10, 10);
        lemma_mod_division_less_than_divisor(cents as int, 10);
        assert((cents as nat / 10) % 10 == (cents as nat) / 10 % 10);
        assert(out@ =~= format_cents_spec(cents as nat));
    }
    out
}

} // verus!
