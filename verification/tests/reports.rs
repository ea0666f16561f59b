use fondos::date::{checked_sub_days, Date};
use fondos::ingest::{ingest_balance_report, ingest_history, ingest_profit_report};
use fondos::ledger::{Balance, Table};
use fondos::percent::Percent;

fn ymd(y: u32, m: u32, d: u32) -> Date {
    Date::new(y, m, d).unwrap()
}

fn lines(texts: &[&str]) -> Vec<String> {
    texts.iter().map(|t| t.to_string()).collect()
}

#[test]
fn balance_report_merges_rows() {
    let mut table = Table { table: Vec::new() };
    let input = lines(&[
        "some banner",
        "Anual**",
        "CAPITAL\t$1,000.00\ta\tb\tc\td",
        "Estable\t$2,500.50\ta\tb\tc\td",
        "Total\t$3,500.50",
        "*Los valores presentados están a la fecha de cierre 20/11/2021",
    ]);
    let warnings = ingest_balance_report(&mut table, &input).unwrap();
    assert!(warnings.is_empty());
    assert_eq!(table.table.len(), 2);
    assert_eq!(table.table[0].fund, "capital");
    assert_eq!(
        table.table[0].balance,
        vec![Balance { date: ymd(2021, 11, 20), balance: 100_000 }]
    );
    assert_eq!(table.table[1].fund, "estable");
    assert_eq!(table.table[1].balance[0].balance, 250_050);
}

#[test]
fn balance_report_without_table_is_no_data() {
    let mut table = Table { table: Vec::new() };
    let input = lines(&["nothing here", "at all"]);
    assert!(ingest_balance_report(&mut table, &input).unwrap().is_empty());
    assert!(table.table.is_empty());
}

#[test]
fn balance_report_bad_amount_aborts() {
    let mut table = Table { table: Vec::new() };
    let input = lines(&[
        "Anual**",
        "capital\t$1,00.00\ta\tb\tc\td",
        "Total\t$1,00.00",
        "*Los valores presentados están a la fecha de cierre 20/11/2021",
    ]);
    let err = ingest_balance_report(&mut table, &input).unwrap_err();
    assert!(err.contains("instead of a digit"));
    assert!(table.table.is_empty());
}

#[test]
fn balance_report_missing_footer_aborts() {
    let mut table = Table { table: Vec::new() };
    let input = lines(&["Anual**", "capital\t$1,000.00\ta\tb\tc\td"]);
    assert!(ingest_balance_report(&mut table, &input).is_err());
    assert!(table.table.is_empty());
}

#[test]
fn history_report_reconciles_actions() {
    let mut table = Table { table: Vec::new() };
    let input = lines(&[
        "banner",
        "Fecha\tNombre del portafolio",
        "20/11/2021\tCAPITAL\tAporte\ttipo\t$100.00",
        "20/11/2021\tCAPITAL\tAporte\ttipo\t$100.00",
        "21/11/2021\tCAPITAL\tRetiro parcial\ttipo\t$25.00",
        "",
        "Fecha\tNombre del portafolio",
        "21/11/2021\tEstable\tAporte por traslado de otro portafolio\ttipo\t$25.00",
    ]);
    ingest_history(&mut table, &input).unwrap();
    assert_eq!(table.table.len(), 2);
    let capital = &table.table[0];
    assert_eq!(capital.fund, "capital");
    assert_eq!(capital.action.len(), 3);
    let deposits = capital
        .action
        .iter()
        .filter(|a| a.date == ymd(2021, 11, 20) && a.change == 10_000)
        .count();
    assert_eq!(deposits, 2);
    let withdrawals = capital
        .action
        .iter()
        .filter(|a| a.date == ymd(2021, 11, 21) && a.change == -2_500)
        .count();
    assert_eq!(withdrawals, 1);
    assert_eq!(table.table[1].fund, "estable");
    assert_eq!(table.table[1].action[0].change, 2_500);
}

#[test]
fn history_unknown_label_aborts() {
    let mut table = Table { table: Vec::new() };
    let input = lines(&[
        "Fecha\tNombre del portafolio",
        "20/11/2021\tcapital\tRescate total\ttipo\t$100.00",
    ]);
    let err = ingest_history(&mut table, &input).unwrap_err();
    assert!(err.contains("'Rescate total' not recognized"));
    assert!(table.table.is_empty());
}

#[test]
fn profit_report_merges_values_and_aggregates() {
    let mut table = Table { table: Vec::new() };
    let input = lines(&[
        "PORTAFOLIO \tFECHA DE CORTE DE LA INFORMACION",
        "subheader to skip",
        "CAPITAL\t20/11/2021\t$1,000,000.00\t$50.00\t$.00\t \t3 %EA\tNA\t1.25 %EA",
        "VALOR TOTAL DEL FONDO \t$1,000,000.00",
        "intermission line",
        "Diaria \tE.A.",
        "CAPITAL\t0.01 %\t3.72 %EA\t0.3 %\t0.9 %\t1.8 %\t3.6 %\t7.4 %\t12.5 %\t1.2 %",
        "",
        "ignored trailing line",
    ]);
    let (warnings, aggregates) = ingest_profit_report(&mut table, &input).unwrap();
    assert!(warnings.is_empty());
    assert_eq!(table.table.len(), 1);
    assert_eq!(table.table[0].fund, "capital");
    assert_eq!(table.table[0].fund_value[0].fund_value, 100_000_000);
    assert_eq!(table.table[0].fund_value[0].unit_value, 5_000);
    assert_eq!(aggregates.len(), 1);
    let agg = &aggregates[0];
    assert_eq!(agg.fund, "capital");
    assert_eq!(agg.roe_next_to_last_year, Percent::Num("3".to_string()));
    assert!(matches!(agg.roe_last_year, Percent::Na));
    assert_eq!(agg.roe_year_to_date, Percent::Num("1.25".to_string()));
    assert_eq!(agg.roe_day, Percent::Num("0.01".to_string()));
    assert_eq!(agg.roe_total, Percent::Num("12.5".to_string()));
}

#[test]
fn profit_report_daily_without_yearly_is_ignored() {
    let mut table = Table { table: Vec::new() };
    let input = lines(&[
        "PORTAFOLIO \tFECHA DE CORTE DE LA INFORMACION",
        "subheader",
        "CAPITAL\t20/11/2021\t$1.00\t$1.00\t$.00\t \tNA\tNA\tNA",
        "VALOR TOTAL DEL FONDO \t$1.00",
        "Diaria \tE.A.",
        "OTRO FONDO\t1 %\t1 %\t1 %\t1 %\t1 %\t1 %\t1 %\t1 %\t1 %",
        "",
    ]);
    let (_, aggregates) = ingest_profit_report(&mut table, &input).unwrap();
    assert_eq!(aggregates.len(), 1);
    assert_eq!(aggregates[0].fund, "capital");
    // the daily row named no known fund, so the daily figures stay NA
    assert!(matches!(aggregates[0].roe_day, Percent::Na));
}

#[test]
fn lookback_window_start() {
    assert_eq!(checked_sub_days(ymd(2021, 11, 20), 7), Some(ymd(2021, 11, 13)));
    assert_eq!(checked_sub_days(ymd(2021, 11, 20), 30), Some(ymd(2021, 10, 21)));
    assert_eq!(checked_sub_days(ymd(2024, 3, 1), 1), Some(ymd(2024, 2, 29)));
    assert_eq!(checked_sub_days(ymd(2021, 1, 1), 1), Some(ymd(2020, 12, 31)));
    assert_eq!(checked_sub_days(ymd(0, 1, 1), 1), None);
}
