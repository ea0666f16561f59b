use fondos::checker::check_transfers;
use fondos::date::Date;
use fondos::engine::{columns, consolidated, fund_variation, unit_series};
use fondos::ledger::{Action, Balance, BalanceRow, FundValueRow, Table};
use fondos::ledger::{merge_balance_rows, merge_fund_value_rows};
use fondos::order::{retain_recent, sort_table};
use fondos::reconcile::{ingest_actions, ActionRow};
use fondos::snapshot::{calculate_hash, needs_save};
use fondos::text::normalize_fund_name;

fn ymd(y: u32, m: u32, d: u32) -> Date {
    Date::new(y, m, d).unwrap()
}

fn action_row(fund: &str, date: Date, change: i64) -> ActionRow {
    ActionRow {
        fund: fund.to_owned(),
        action: Action { date, change },
    }
}

fn action_counts(table: &Table, fund: &str, date: Date, change: i64) -> usize {
    let mut n = 0;
    for s in table.table.iter() {
        if s.fund == fund {
            for a in s.action.iter() {
                if a.date == date && a.change == change {
                    n += 1;
                }
            }
            break;
        }
    }
    n
}

#[test]
fn normalization_lowers_and_trims() {
    assert_eq!(normalize_fund_name("  ACCIONES Colombia  "), "acciones colombia");
    assert_eq!(normalize_fund_name("Renta Fija PESOS"), "renta fija pesos");
}

#[test]
fn reconcile_multiplicity() {
    // A batch holding the same signature twice lands as exactly two
    // records, and repeating the batch leaves exactly two.
    let mut table = Table { table: Vec::new() };
    let day = ymd(2021, 11, 20);
    let batch = vec![
        action_row("capital", day, 10_000),
        action_row("capital", day, 10_000),
    ];
    ingest_actions(&mut table, &batch);
    assert_eq!(action_counts(&table, "capital", day, 10_000), 2);
    ingest_actions(&mut table, &batch);
    assert_eq!(action_counts(&table, "capital", day, 10_000), 2);
    ingest_actions(&mut table, &batch);
    assert_eq!(action_counts(&table, "capital", day, 10_000), 2);
}

#[test]
fn reconcile_idempotent() {
    let mut once = Table { table: Vec::new() };
    let mut twice = Table { table: Vec::new() };
    let batch = vec![
        action_row("capital", ymd(2021, 11, 20), 10_000),
        action_row("capital", ymd(2021, 11, 21), -2_500),
        action_row("estable", ymd(2021, 11, 20), 10_000),
        action_row("capital", ymd(2021, 11, 20), 10_000),
    ];
    ingest_actions(&mut once, &batch);
    ingest_actions(&mut twice, &batch);
    ingest_actions(&mut twice, &batch);
    assert_eq!(once.table.len(), twice.table.len());
    for (a, b) in once.table.iter().zip(twice.table.iter()) {
        assert_eq!(a.fund, b.fund);
        assert_eq!(a.action, b.action);
    }
    assert_eq!(calculate_hash(&once), calculate_hash(&twice));
}

#[test]
fn reconcile_additive_disjoint_dates() {
    let batch1 = vec![
        action_row("capital", ymd(2021, 11, 20), 10_000),
        action_row("estable", ymd(2021, 11, 20), -3_000),
    ];
    let batch2 = vec![
        action_row("capital", ymd(2021, 11, 22), 7_000),
        action_row("preserva", ymd(2021, 11, 23), 1_000),
    ];
    let mut sequential = Table { table: Vec::new() };
    ingest_actions(&mut sequential, &batch1);
    ingest_actions(&mut sequential, &batch2);
    let mut combined = Table { table: Vec::new() };
    let mut all = Vec::new();
    for r in batch1.iter().chain(batch2.iter()) {
        all.push(ActionRow {
            fund: r.fund.clone(),
            action: r.action,
        });
    }
    ingest_actions(&mut combined, &all);
    assert_eq!(sequential.table.len(), combined.table.len());
    for (a, b) in sequential.table.iter().zip(combined.table.iter()) {
        assert_eq!(a.fund, b.fund);
        let mut lhs = a.action.clone();
        let mut rhs = b.action.clone();
        lhs.sort_by_key(|x| (x.date.year, x.date.month, x.date.day, x.change));
        rhs.sort_by_key(|x| (x.date.year, x.date.month, x.date.day, x.change));
        assert_eq!(lhs, rhs);
    }
}

#[test]
fn balance_overwrite_same_date() {
    let mut table = Table { table: Vec::new() };
    let day = ymd(2021, 11, 20);
    let rows = vec![BalanceRow {
        fund: "capital".to_owned(),
        balance: 100_000,
    }];
    let w1 = merge_balance_rows(&mut table, day, &rows);
    assert!(w1.is_empty());
    let w2 = merge_balance_rows(&mut table, day, &rows);
    assert!(w2.is_empty());
    assert_eq!(table.table[0].balance.len(), 1);
    let changed = vec![BalanceRow {
        fund: "capital".to_owned(),
        balance: 110_000,
    }];
    let w3 = merge_balance_rows(&mut table, day, &changed);
    assert_eq!(w3.len(), 1);
    assert_eq!(table.table[0].balance, vec![Balance { date: day, balance: 110_000 }]);
}

#[test]
fn snapshot_hash_unchanged_without_changes() {
    let mut table = Table { table: Vec::new() };
    let batch = vec![action_row("capital", ymd(2021, 11, 20), 10_000)];
    ingest_actions(&mut table, &batch);
    let rows = vec![BalanceRow {
        fund: "capital".to_owned(),
        balance: 100_000,
    }];
    merge_balance_rows(&mut table, ymd(2021, 11, 21), &rows);
    let original = calculate_hash(&table);
    assert!(!needs_save(&table, original));
    // re-running the same ingestion changes nothing, so no write happens
    ingest_actions(&mut table, &batch);
    merge_balance_rows(&mut table, ymd(2021, 11, 21), &rows);
    assert_eq!(calculate_hash(&table), original);
    assert!(!needs_save(&table, original));
    // a real change does flip the decision
    ingest_actions(&mut table, &vec![action_row("capital", ymd(2021, 11, 22), 1)]);
    assert!(needs_save(&table, original));
}

#[test]
fn fund_value_remerge_changes_nothing() {
    let mut table = Table { table: Vec::new() };
    let rows = vec![FundValueRow {
        fund: "capital".to_owned(),
        date: ymd(2021, 11, 20),
        fund_value: 1_000_000,
        unit_value: 50_000,
    }];
    merge_fund_value_rows(&mut table, &rows);
    let original = calculate_hash(&table);
    let warnings = merge_fund_value_rows(&mut table, &rows);
    assert!(warnings.is_empty());
    assert_eq!(table.table[0].fund_value.len(), 1);
    assert_eq!(calculate_hash(&table), original);
    assert!(!needs_save(&table, original));
}

#[test]
fn variation_single_balance_is_zero() {
    let mut table = Table { table: Vec::new() };
    let day = ymd(2021, 11, 20);
    let rows = vec![BalanceRow {
        fund: "capital".to_owned(),
        balance: 100_000,
    }];
    merge_balance_rows(&mut table, day, &rows);
    sort_table(&mut table);
    let v = fund_variation(&table.table[0], ymd(2021, 11, 1)).unwrap();
    assert_eq!(v, vec![(day, 0i128)]);
}

#[test]
fn variation_outside_window_is_excluded() {
    let mut table = Table { table: Vec::new() };
    let rows = vec![BalanceRow {
        fund: "capital".to_owned(),
        balance: 100_000,
    }];
    merge_balance_rows(&mut table, ymd(2021, 10, 1), &rows);
    sort_table(&mut table);
    assert!(fund_variation(&table.table[0], ymd(2021, 11, 1)).is_none());
}

#[test]
fn end_to_end_adjusted_variation() {
    // Balance $1,000.00 on day 0, a $100.00 contribution on day 1, and
    // balance $1,150.00 on day 2: the growth net of the contribution is
    // $50.00, over a consolidated investment of $1,100.00.
    let mut table = Table { table: Vec::new() };
    let day0 = ymd(2021, 11, 20);
    let day1 = ymd(2021, 11, 21);
    let day2 = ymd(2021, 11, 22);
    let b0 = fondos::money::parse_cents(Some("$1,000.00"), "Test: ").unwrap();
    let flow = fondos::money::parse_cents(Some("$100.00"), "Test: ").unwrap();
    let b2 = fondos::money::parse_cents(Some("$1,150.00"), "Test: ").unwrap();
    merge_balance_rows(
        &mut table,
        day0,
        &vec![BalanceRow { fund: "capital".to_owned(), balance: b0 }],
    );
    ingest_actions(&mut table, &vec![action_row("capital", day1, flow)]);
    merge_balance_rows(
        &mut table,
        day2,
        &vec![BalanceRow { fund: "capital".to_owned(), balance: b2 }],
    );
    sort_table(&mut table);
    let v = fund_variation(&table.table[0], day0).unwrap();
    assert_eq!(v, vec![(day0, 0i128), (day2, 5_000i128)]);
    let figures = consolidated(&table, day0);
    assert_eq!(figures.investment, 110_000);
    assert_eq!(figures.balance, 115_000);
    assert_eq!(figures.profit, 5_000);
}

#[test]
fn unit_value_series_starts_in_window() {
    let mut table = Table { table: Vec::new() };
    let rows = vec![
        FundValueRow {
            fund: "capital".to_owned(),
            date: ymd(2021, 11, 10),
            fund_value: 1_000_000,
            unit_value: 50_000,
        },
        FundValueRow {
            fund: "capital".to_owned(),
            date: ymd(2021, 11, 20),
            fund_value: 1_100_000,
            unit_value: 55_000,
        },
    ];
    merge_fund_value_rows(&mut table, &rows);
    sort_table(&mut table);
    let v = unit_series(&table.table[0], ymd(2021, 11, 15)).unwrap();
    assert_eq!(v, vec![(ymd(2021, 11, 20), 55_000i64)]);
}

#[test]
fn retain_drops_old_records() {
    let mut table = Table { table: Vec::new() };
    merge_balance_rows(
        &mut table,
        ymd(2021, 10, 1),
        &vec![BalanceRow { fund: "capital".to_owned(), balance: 1 }],
    );
    merge_balance_rows(
        &mut table,
        ymd(2021, 11, 20),
        &vec![BalanceRow { fund: "capital".to_owned(), balance: 2 }],
    );
    retain_recent(&mut table, ymd(2021, 11, 1));
    assert_eq!(table.table[0].balance.len(), 1);
    assert_eq!(table.table[0].balance[0].balance, 2);
}

#[test]
fn transfer_without_counterpart_is_reported() {
    let mut table = Table { table: Vec::new() };
    merge_balance_rows(
        &mut table,
        ymd(2021, 11, 20),
        &vec![
            BalanceRow { fund: "capital".to_owned(), balance: 90_000 },
            BalanceRow { fund: "estable".to_owned(), balance: 60_000 },
        ],
    );
    // a matched pair of transfer legs, and one unmatched withdrawal
    ingest_actions(
        &mut table,
        &vec![
            action_row("capital", ymd(2021, 11, 21), -10_000),
            action_row("estable", ymd(2021, 11, 21), 10_000),
            action_row("capital", ymd(2021, 11, 22), -5_000),
        ],
    );
    sort_table(&mut table);
    let reports = check_transfers(&table, ymd(2021, 11, 13));
    assert_eq!(reports.len(), 1);
    assert_eq!(reports[0].fund, "capital");
    assert_eq!(reports[0].action.change, -5_000);
    assert_eq!(reports[0].action.date, ymd(2021, 11, 22));
}

#[test]
fn chart_columns_round_up() {
    assert_eq!(columns(4), 2);
    assert_eq!(columns(5), 3);
    assert_eq!(columns(1), 1);
    assert_eq!(columns(0), 0);
}
