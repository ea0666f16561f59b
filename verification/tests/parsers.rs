use fondos::date::{parse_date_opt, Date};
use fondos::money::{format_cents, parse_cents};
use fondos::percent::{parse_percent, Percent};

fn pct(input: &str) -> f64 {
    match parse_percent(Some(input), "Test: ").unwrap() {
        Percent::Na => f64::NAN,
        Percent::Num(s) => s.parse::<f64>().unwrap(),
    }
}

fn pct_err(input: &str) -> String {
    parse_percent(Some(input), "Test: ").unwrap_err()
}

fn ymd(y: u32, m: u32, d: u32) -> Date {
    Date::new(y, m, d).unwrap()
}

#[test]
fn cents0() {
    assert_eq!(parse_cents(Some("$.00"), "Test: "), Ok(0));
}

#[test]
fn cents1() {
    assert_eq!(parse_cents(Some("$1.74"), "Test: "), Ok(174));
}

#[test]
fn cents2() {
    assert_eq!(parse_cents(Some("$1,231.74"), "Test: "), Ok(123174));
}

#[test]
fn cents3() {
    assert_eq!(parse_cents(Some("$211,231.74"), "Test: "), Ok(21123174));
}

#[test]
fn cents4() {
    assert_eq!(parse_cents(Some("$9,211,231.74"), "Test: "), Ok(921123174));
}

#[test]
fn cents5() {
    assert_eq!(
        parse_cents(Some("$,211,231.74"), "Test: "),
        Err("Test: Pesos value starts with $, instead of a number. Is the value $,211,231.74 correctly formatted as pesos?".to_string())
    );
}

#[test]
fn cents6() {
    assert_eq!(
        parse_cents(Some("$1,2,1,231.74"), "Test: "),
        Err("Test: Pesos value has ',' instead of a digit. Is the value $1,2,1,231.74 correctly formatted as pesos?".to_string())
    );
}

#[test]
fn cents7() {
    assert_eq!(
        parse_cents(Some(" $1,211,231.7 "), "Test: "),
        Err("Test: Pesos value has 1 decimal digit instead of 2. Is the value $1,211,231.7 correctly formatted as pesos?".to_string())
    );
}

#[test]
fn cents8() {
    assert_eq!(
        parse_cents(Some(" $1,211,231.740 "), "Test: "),
        Err("Test: Pesos value has 3 decimal digits instead of 2. Is the value $1,211,231.740 correctly formatted as pesos?".to_string())
    );
}

#[test]
fn cents9() {
    assert_eq!(
        parse_cents(Some(" $1211,231.74 "), "Test: "),
        Err("Test: Pesos value has too many digits before the first ','. Is the value $1211,231.74 correctly formatted as pesos?".to_string())
    );
}

#[test]
fn cents_missing_field() {
    assert_eq!(
        parse_cents(None, "Test: "),
        Err("Test: No valid amount".to_string())
    );
}

#[test]
fn cents_no_dollar_sign() {
    assert_eq!(
        parse_cents(Some("1,231.74"), "Test: "),
        Err("Test: Value has no $ sign. Is the value 1,231.74 correctly formatted as pesos?".to_string())
    );
}

#[test]
fn cents_too_short() {
    assert_eq!(
        parse_cents(Some("$.0"), "Test: "),
        Err("Test: Pesos value too short. Is the value $.0 correctly formatted as pesos?".to_string())
    );
}

#[test]
fn cents_overflow() {
    assert_eq!(
        parse_cents(Some("$92,233,720,368,547,758.08"), "Test: "),
        Err("number too large to fit in target type".to_string())
    );
}

#[test]
fn cents_invalid_character() {
    assert_eq!(
        parse_cents(Some("$1a1.00"), "Test: "),
        Err("Test: Pesos value has invalid character 'a'. Is the value $1a1.00 correctly formatted as pesos?".to_string())
    );
}

#[test]
fn cents_bad_separator() {
    assert_eq!(
        parse_cents(Some("$1,234x56.00"), "Test: "),
        Err("Test: Pesos value has 'x' instead of the ',' thousands separator. Is the value $1,234x56.00 correctly formatted as pesos?".to_string())
    );
}

#[test]
fn cents_bad_decimal_digit() {
    assert_eq!(
        parse_cents(Some("$1.0x"), "Test: "),
        Err("Test: Pesos value has 'x' instead of a decimal digit. Is the value $1.0x correctly formatted as pesos?".to_string())
    );
}

#[test]
fn cents_no_decimal_point() {
    assert_eq!(
        parse_cents(Some("$1,234"), "Test: "),
        Err("Test: Pesos value has -1 decimal digits instead of 2. Is the value $1,234 correctly formatted as pesos?".to_string())
    );
}

#[test]
fn format_round_trip() {
    assert_eq!(format_cents(0), "$0.00");
    assert_eq!(format_cents(123174), "$1,231.74");
    assert_eq!(format_cents(21123174), "$211,231.74");
    assert_eq!(format_cents(921123174), "$9,211,231.74");
    for c in [0u64, 5, 99, 100, 174, 123174, 999999, 1000000, 21123174, 921123174] {
        let text = format_cents(c);
        assert_eq!(parse_cents(Some(text.as_str()), "Test: "), Ok(c as i64));
    }
}

#[test]
fn date0() {
    assert_eq!(
        parse_date_opt(None, "Test: "),
        Err("Test: No valid date".to_string())
    );
}

#[test]
fn date1() {
    assert_eq!(
        parse_date_opt(Some(" 31/12/2021 "), "Test: "),
        Ok(ymd(2021, 12, 31))
    );
}

#[test]
fn date2() {
    assert_eq!(
        parse_date_opt(Some(" 31/13/2021 "), "Test: "),
        Err("Test: input is out of range. Is the value 31/13/2021 correctly formatted as a d/m/y date?".to_string())
    );
}

#[test]
fn date3() {
    assert_eq!(
        parse_date_opt(Some(" 31 / 12 / 21 "), "Test: "),
        Ok(ymd(2021, 12, 31))
    );
}

#[test]
fn date_same_calendar_day() {
    assert_eq!(
        parse_date_opt(Some("31/12/2021"), "Test: "),
        parse_date_opt(Some("31 / 12 / 21"), "Test: ")
    );
}

#[test]
fn date_leap_year() {
    assert_eq!(parse_date_opt(Some("29/2/2024"), "Test: "), Ok(ymd(2024, 2, 29)));
    assert!(parse_date_opt(Some("29/2/2023"), "Test: ").is_err());
    assert!(parse_date_opt(Some("29/2/2100"), "Test: ").is_err());
    assert_eq!(parse_date_opt(Some("29/2/2000"), "Test: "), Ok(ymd(2000, 2, 29)));
}

#[test]
fn percent0() {
    assert_eq!(
        parse_percent(None, "Test: "),
        Err("Test: No valid amount".to_string())
    );
}

#[test]
fn percent1() {
    assert_eq!(pct("0 %"), 0.0);
}

#[test]
fn percent2() {
    assert_eq!(
        pct_err("c %EA"),
        "Test: Percentage starts with c instead of a number. Is the value c %EA correctly formatted as a percentage?"
    );
}

#[test]
fn percent3() {
    assert_eq!(
        pct_err("1000 %EA"),
        "Test: Percentage has too many digits before the first ','. Is the value 1000 %EA correctly formatted as a percentage?"
    );
}

#[test]
fn percent4() {
    assert_eq!(
        pct_err("10f %EA"),
        "Test: Percentage has invalid character 'f'. Is the value 10f %EA correctly formatted as a percentage?"
    );
}

#[test]
fn percent5() {
    assert_eq!(
        pct_err("1,000p.00 %EA"),
        "Test: Percentage has 'p' instead of a decimal point, thousands separator, space, or percent sign. Is the value 1,000p.00 %EA correctly formatted as a percentage?"
    );
}

#[test]
fn percent6() {
    assert_eq!(
        pct_err("1,00q.00 %EA"),
        "Test: Percentage has 'q' instead of a digit. Is the value 1,00q.00 %EA correctly formatted as a percentage?"
    );
}

#[test]
fn percent7() {
    assert_eq!(
        pct_err("1,000.0r %EA"),
        "Test: Percentage has 'r' instead of a decimal digit. Is the value 1,000.0r %EA correctly formatted as a percentage?"
    );
}

#[test]
fn percent8() {
    assert_eq!(pct("3 %EA"), 3.0);
}

#[test]
fn percent9() {
    assert_eq!(pct("-3,324,122,432.643 %EA"), -3_324_122_432.643);
}

#[test]
fn percent10() {
    assert_eq!(pct("-0.003 %EA"), -0.003);
}

#[test]
fn percent11() {
    assert_eq!(pct("-.003 %EA"), -0.003);
}

#[test]
fn percent12() {
    assert_eq!(pct(".003 %EA"), 0.003);
}

#[test]
fn percent_too_short() {
    assert_eq!(
        pct_err("3%"),
        "Test: Percent value too short. Is the value 3% correctly formatted as a percentage?"
    );
}

#[test]
fn percent_without_digits() {
    assert_eq!(pct_err("- %EA"), "invalid float literal");
}

#[test]
fn date_defects() {
    assert_eq!(
        parse_date_opt(Some("   "), "Test: "),
        Err("Test: Empty date. Is the value  correctly formatted as a d/m/y date?".to_string())
    );
    assert_eq!(
        parse_date_opt(Some("31/12"), "Test: "),
        Err("Test: premature end of input. Is the value 31/12 correctly formatted as a d/m/y date?".to_string())
    );
    assert_eq!(
        parse_date_opt(Some("31/12/20/21"), "Test: "),
        Err("Test: trailing input. Is the value 31/12/20/21 correctly formatted as a d/m/y date?".to_string())
    );
    assert_eq!(
        parse_date_opt(Some("3a/12/2021"), "Test: "),
        Err("Test: input contains invalid characters. Is the value 3a/12/2021 correctly formatted as a d/m/y date?".to_string())
    );
}

#[test]
fn percent_not_published() {
    let p = parse_percent(Some("NA"), "Test: ").unwrap();
    assert!(matches!(p, Percent::Na));
    assert!(p.is_na());
}
