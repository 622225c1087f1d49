use ledger::import::{date_span, plan_import};
use ledger::statement::ParsedTransaction;
use ledger::transactions::{js_safe_id, Transaction, MAX_SAFE_INTEGER};

fn parsed(date: &str, description: &str, amount: f64) -> ParsedTransaction<f64> {
    ParsedTransaction { date: date.to_string(), description: description.to_string(), amount }
}

fn stored(id: i64, date: &str, description: &str, amount: f64) -> Transaction<f64> {
    Transaction::from_columns(id, date.to_string(), description.to_string(), amount, 0)
}

fn same(a: &f64, b: &f64) -> bool {
    (a - b).abs() < 1e-9
}

#[test]
fn date_span_takes_text_order_extremes() {
    let incoming = vec![
        parsed("01/15/2026", "A", 1.0),
        parsed("01/03/2026", "B", 2.0),
        parsed("01/20/2026", "C", 3.0),
    ];
    assert_eq!(
        date_span(&incoming),
        Some(("01/03/2026".to_string(), "01/20/2026".to_string()))
    );
    let none: Vec<ParsedTransaction<f64>> = vec![];
    assert_eq!(date_span(&none), None);
}

#[test]
fn repeats_within_an_import_are_stored_once() {
    let incoming = vec![
        parsed("01/15/2026", "AMAZON.COM", 45.99),
        parsed("01/15/2026", "AMAZON.COM", 45.99),
        parsed("01/15/2026", "AMAZON.COM", 12.00),
        parsed("01/16/2026", "AMAZON.COM", 45.99),
    ];
    let plan = plan_import(&incoming, &vec![], same);
    assert_eq!(plan.to_store.len(), 3);
    assert_eq!(plan.result.imported, 3);
    assert_eq!(plan.to_store[1].amount, 12.00);
    assert!(plan.result.possible_duplicates.is_empty());
}

#[test]
fn stored_repeats_are_reported() {
    let incoming = vec![parsed("01/15/2026", "AMAZON.COM", 45.99), parsed("01/17/2026", "STARBUCKS", 5.50)];
    let existing = vec![
        stored(1, "01/15/2026", "AMAZON.COM", 45.99),
        stored(2, "01/16/2026", "STARBUCKS", 5.50),
        stored(3, "01/17/2026", "STARBUCKS", 5.50),
    ];
    let plan = plan_import(&incoming, &existing, same);
    let ids: Vec<i64> = plan.result.possible_duplicates.iter().map(|t| t.id).collect();
    assert_eq!(ids, vec![1, 3]);
    assert_eq!(plan.result.imported, 2);
}

#[test]
fn ids_above_javascript_range_are_refused() {
    assert_eq!(js_safe_id(MAX_SAFE_INTEGER), Ok(MAX_SAFE_INTEGER));
    assert_eq!(js_safe_id(-4), Ok(-4));
    assert_eq!(
        js_safe_id(MAX_SAFE_INTEGER + 1),
        Err("id 9007199254740992 exceeds Number.MAX_SAFE_INTEGER (9007199254740991)".to_string())
    );
}

#[test]
fn accounted_column_reads_as_flag() {
    let t: Transaction<f64> = Transaction::from_columns(1, "d".to_string(), "x".to_string(), 1.0, 1);
    assert!(t.accounted);
    assert!(!stored(2, "d", "x", 1.0).accounted);
}
