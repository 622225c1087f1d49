use ledger::filters::Filter;
use ledger::report::{
    date_sort_key, finish_report, like_pattern, list_newest_first, order_newest_first,
    plan_report, within_dates, ReportGroup,
};
use ledger::transactions::Transaction;

fn filter(id: i64, name: &str, pattern: &str) -> Filter {
    Filter { id, name: name.to_string(), pattern: pattern.to_string() }
}

fn tx(id: i64, date: &str, description: &str, amount: f64) -> Transaction<f64> {
    Transaction { id, date: date.to_string(), description: description.to_string(), amount, accounted: false }
}

/// Totals and their text as the report shows them: the sum divided by the
/// split count, with two decimals.
fn totals(groups: &[ReportGroup<f64>], split_count: i64) -> (Vec<f64>, Vec<String>) {
    let totals: Vec<f64> = groups
        .iter()
        .map(|g| g.transactions.iter().map(|t| t.amount).sum::<f64>() / split_count as f64)
        .collect();
    let texts = totals.iter().map(|t| format!("{:.2}", t)).collect();
    (totals, texts)
}

#[test]
fn date_sort_key_orders_correctly_across_years() {
    assert!(date_sort_key("01/17/2026") > date_sort_key("12/01/2025"));
    assert!(date_sort_key("12/31/2025") < date_sort_key("01/01/2026"));
}

#[test]
fn date_sort_key_reorders_parts() {
    assert_eq!(date_sort_key("01/17/2026"), "20260117");
    assert_eq!(date_sort_key("2026-01-17"), "2026-01-17");
    assert_eq!(date_sort_key("a/b"), "a/b");
    assert_eq!(date_sort_key("a/b/c/d"), "a/b/c/d");
    assert_eq!(date_sort_key("//"), "");
    assert_eq!(date_sort_key(""), "");
}

#[test]
fn like_pattern_wraps_in_wildcards() {
    assert_eq!(like_pattern("STARBUCKS"), "%STARBUCKS%");
    assert_eq!(like_pattern(""), "%%");
}

#[test]
fn report_sums_amounts_per_filter() {
    let filters = vec![filter(1, "Coffee", "STARBUCKS")];
    let matches = vec![vec![
        tx(1, "01/10/2026", "STARBUCKS STORE 123", 4.50),
        tx(2, "01/15/2026", "STARBUCKS RESERVE", 6.75),
    ]];
    let plan = plan_report(&filters, &matches);
    let (t, texts) = totals(&plan.groups, 1);
    let output = finish_report(&plan.groups, &t, &texts);

    assert_eq!(output.rows.len(), 1);
    assert_eq!(output.rows[0].filter_name, "Coffee");
    assert!((output.rows[0].total_amount - 11.25).abs() < 0.001);
    assert_eq!(output.rows[0].transactions.len(), 2);
}

#[test]
fn report_finds_last_date() {
    let filters = vec![filter(1, "Coffee", "STARBUCKS")];
    let matches = vec![vec![
        tx(1, "01/10/2026", "STARBUCKS A", 4.00),
        tx(2, "01/20/2026", "STARBUCKS B", 5.00),
        tx(3, "01/05/2026", "STARBUCKS C", 3.00),
    ]];
    let plan = plan_report(&filters, &matches);
    assert_eq!(plan.groups[0].last_date, "01/20/2026");
    assert_eq!(plan.groups[0].transactions.len(), 3);
}

#[test]
fn report_last_date_spans_years() {
    let filters = vec![filter(1, "Rent", "LANDLORD")];
    let matches = vec![vec![
        tx(1, "12/31/2025", "LANDLORD", 1.0),
        tx(2, "01/01/2026", "LANDLORD", 1.0),
        tx(3, "11/30/2025", "LANDLORD", 1.0),
    ]];
    let plan = plan_report(&filters, &matches);
    assert_eq!(plan.groups[0].last_date, "01/01/2026");
}

#[test]
fn report_marks_matched_transactions_accounted() {
    let filters = vec![filter(1, "Coffee", "STARBUCKS"), filter(2, "Groceries", "WHOLEFDS")];
    let matches = vec![vec![tx(7, "01/10/2026", "STARBUCKS A", 4.00)], vec![]];
    let plan = plan_report(&filters, &matches);
    assert_eq!(plan.accounted_ids, vec![7]);
    assert_eq!(plan.groups.len(), 1);
}

#[test]
fn report_multiple_filters() {
    let filters = vec![filter(1, "Coffee", "STARBUCKS"), filter(2, "Groceries", "WHOLEFDS")];
    let matches = vec![
        vec![tx(1, "01/10/2026", "STARBUCKS A", 4.50)],
        vec![tx(2, "01/12/2026", "WHOLEFDS MARKET", 55.00)],
    ];
    let plan = plan_report(&filters, &matches);
    let (t, texts) = totals(&plan.groups, 1);
    let output = finish_report(&plan.groups, &t, &texts);

    assert_eq!(output.rows.len(), 2);
    let lines: Vec<&str> = output.text.lines().collect();
    assert_eq!(lines.len(), 2);
    assert_eq!(plan.accounted_ids, vec![1, 2]);
}

#[test]
fn report_text_is_tab_separated() {
    let filters = vec![filter(1, "Coffee", "STARBUCKS")];
    let matches = vec![vec![tx(1, "01/10/2026", "STARBUCKS A", 4.50)]];
    let plan = plan_report(&filters, &matches);
    let (t, texts) = totals(&plan.groups, 1);
    let output = finish_report(&plan.groups, &t, &texts);

    assert!(output.text.contains('\t'));
    assert!(output.text.contains("Coffee"));
    assert!(output.text.contains("4.50"));
    assert_eq!(output.text, "01/10/2026\tCoffee\t4.50");
}

#[test]
fn report_empty_when_no_matches() {
    let filters = vec![filter(1, "Coffee", "STARBUCKS")];
    let matches: Vec<Vec<Transaction<f64>>> = vec![vec![]];
    let plan = plan_report(&filters, &matches);
    let (t, texts) = totals(&plan.groups, 1);
    let output = finish_report(&plan.groups, &t, &texts);

    assert!(output.rows.is_empty());
    assert!(output.text.is_empty());
    assert!(plan.accounted_ids.is_empty());
}

#[test]
fn report_divides_amounts_by_split_count() {
    let filters = vec![filter(1, "Coffee", "STARBUCKS")];
    let matches = vec![vec![
        tx(1, "01/10/2026", "STARBUCKS A", 4.50),
        tx(2, "01/15/2026", "STARBUCKS B", 6.75),
    ]];
    let plan = plan_report(&filters, &matches);
    let (t, texts) = totals(&plan.groups, 2);
    let output = finish_report(&plan.groups, &t, &texts);

    assert_eq!(output.rows.len(), 1);
    // 11.25 / 2 = 5.625
    assert!((output.rows[0].total_amount - 5.625).abs() < 0.001);
    assert!(output.text.contains("5.6"));
}

#[test]
fn report_text_joins_lines_in_row_order() {
    let filters = vec![filter(1, "B", "x"), filter(2, "A", "y")];
    let matches = vec![
        vec![tx(1, "02/01/2026", "x", 1.0)],
        vec![tx(2, "03/01/2026", "y", 2.0)],
    ];
    let plan = plan_report(&filters, &matches);
    let texts = vec!["1.00".to_string(), "2.00".to_string()];
    let output = finish_report(&plan.groups, &vec![1.0, 2.0], &texts);
    assert_eq!(output.text, "02/01/2026\tB\t1.00\n03/01/2026\tA\t2.00");
    assert_eq!(output.rows[1].total_amount, 2.0);
}

#[test]
fn report_filters_by_date_range() {
    let stored = vec![
        tx(1, "01/05/2026", "STARBUCKS EARLY", 3.00),
        tx(2, "01/15/2026", "STARBUCKS MID", 5.00),
        tx(3, "01/25/2026", "STARBUCKS LATE", 7.00),
    ];
    let filters = vec![filter(1, "Coffee", "STARBUCKS")];
    let matches = vec![within_dates(&stored, Some("01/10/2026"), Some("01/20/2026"))];
    let plan = plan_report(&filters, &matches);
    let (t, texts) = totals(&plan.groups, 1);
    let output = finish_report(&plan.groups, &t, &texts);

    assert_eq!(output.rows.len(), 1);
    assert!((output.rows[0].total_amount - 5.00).abs() < 0.001);
}

#[test]
fn date_range_follows_the_calendar_across_years() {
    let stored = vec![
        tx(1, "12/30/2025", "A", 1.0),
        tx(2, "01/02/2026", "B", 1.0),
        tx(3, "12/30/2026", "C", 1.0),
        tx(4, "02/01/2025", "D", 1.0),
    ];
    let kept: Vec<i64> =
        within_dates(&stored, Some("12/15/2025"), Some("01/15/2026")).iter().map(|t| t.id).collect();
    assert_eq!(kept, vec![1, 2]);
    let all: Vec<i64> = within_dates(&stored, None, None).iter().map(|t| t.id).collect();
    assert_eq!(all, vec![1, 2, 3, 4]);
    let from_only: Vec<i64> =
        within_dates(&stored, Some("01/02/2026"), None).iter().map(|t| t.id).collect();
    assert_eq!(from_only, vec![2, 3]);
}

/// The transactions as stored: ids in insertion order.
fn stored_pair() -> Vec<Transaction<f64>> {
    vec![tx(1, "01/15/2026", "AMAZON.COM", 45.99), tx(2, "01/17/2026", "STARBUCKS", 5.50)]
}

#[test]
fn list_transactions_ordered_by_date_desc() {
    let result = list_newest_first(&stored_pair(), None, None);
    assert_eq!(result[0].date, "01/17/2026");
    assert_eq!(result[1].date, "01/15/2026");
}

#[test]
fn list_transactions_filters_by_date_from() {
    let result = list_newest_first(&stored_pair(), Some("01/17/2026"), None);
    assert_eq!(result.len(), 1);
    assert_eq!(result[0].description, "STARBUCKS");
}

#[test]
fn list_transactions_filters_by_date_to() {
    let result = list_newest_first(&stored_pair(), None, Some("01/15/2026"));
    assert_eq!(result.len(), 1);
    assert_eq!(result[0].description, "AMAZON.COM");
}

#[test]
fn listing_goes_newest_first_across_a_year_boundary() {
    let stored = vec![
        tx(1, "12/20/2025", "STARBUCKS A", 4.00),
        tx(2, "01/10/2026", "AMAZON.COM", 45.99),
    ];
    let result = list_newest_first(&stored, Some("12/15/2025"), Some("01/15/2026"));
    assert_eq!(result.len(), 2);
    assert_eq!(result[0].date, "01/10/2026");
    assert_eq!(result[1].date, "12/20/2025");
}

#[test]
fn ordering_newest_first_keeps_every_transaction() {
    let stored = vec![
        tx(1, "12/01/2025", "A", 1.0),
        tx(2, "01/17/2026", "B", 2.0),
        tx(3, "12/01/2025", "C", 3.0),
        tx(4, "06/30/2024", "D", 4.0),
        tx(5, "02/01/2026", "E", 5.0),
    ];
    let ordered = order_newest_first(&stored);
    let dates: Vec<&str> = ordered.iter().map(|t| t.date.as_str()).collect();
    assert_eq!(dates, vec!["02/01/2026", "01/17/2026", "12/01/2025", "12/01/2025", "06/30/2024"]);
    let mut ids: Vec<i64> = ordered.iter().map(|t| t.id).collect();
    ids.sort();
    assert_eq!(ids, vec![1, 2, 3, 4, 5]);
    assert!(order_newest_first(&Vec::<Transaction<f64>>::new()).is_empty());
}
