use ledger::error::AppError;
use ledger::statement::{
    detect_format, get_field, normalize_amount, scan_statement, scan_table, select_spend,
    CsvFormat, CsvRecord, CsvTable, ParsedAmount, ParsedTransaction,
};

/// Reads the spend transactions of a statement text, reading each amount
/// as an `f64` (spend when negative, kept as its absolute value).
fn read_spend(content: &str) -> Result<Vec<ParsedTransaction<f64>>, AppError> {
    let scan = scan_statement(content.as_bytes());
    let amounts: Vec<Option<ParsedAmount<f64>>> = scan
        .rows
        .iter()
        .map(|row| {
            normalize_amount(&row.amount)
                .parse::<f64>()
                .ok()
                .map(|a| ParsedAmount { spend: !(a >= 0.0), magnitude: a.abs() })
        })
        .collect();
    select_spend(&scan, &amounts)
}

fn strings(v: &[&str]) -> Vec<String> {
    v.iter().map(|s| s.to_string()).collect()
}

fn record(v: &[&str], position: Option<(u64, u64, u64)>) -> CsvRecord {
    CsvRecord { fields: strings(v), position }
}

// ── detect_format ──────────────────────────────────────────────────────────

#[test]
fn detects_credit_card_format() {
    let headers = vec![
        "Transaction Date",
        "Post Date",
        "Description",
        "Category",
        "Type",
        "Amount",
        "Memo",
    ];
    assert_eq!(detect_format(&headers), CsvFormat::CreditCard);
}

#[test]
fn detects_checking_format() {
    let headers = vec![
        "Details",
        "Posting Date",
        "Description",
        "Amount",
        "Type",
        "Balance",
        "Check or Slip #",
    ];
    assert_eq!(detect_format(&headers), CsvFormat::Checking);
}

#[test]
fn credit_card_needs_both_headers() {
    assert_eq!(detect_format(&["Transaction Date", "Amount"]), CsvFormat::Checking);
    assert_eq!(detect_format(&["Category", "Amount"]), CsvFormat::Checking);
    assert_eq!(detect_format(&[]), CsvFormat::Checking);
}

// ── checking CSV ───────────────────────────────────────────────────────────

const CHECKING_CSV: &str = "\
Details,Posting Date,Description,Amount,Type,Balance,Check or Slip #
DEBIT,01/15/2026,AMAZON.COM,-45.99,DEBIT_CARD,1234.56,
CREDIT,01/16/2026,PAYROLL,2000.00,ACH_CREDIT,3234.56,
DEBIT,01/17/2026,STARBUCKS,-5.50,DEBIT_CARD,3229.06,
DEBIT,01/18/2026,WHOLE FOODS,-32.10,DEBIT_CARD,3196.96,
";

#[test]
fn checking_filters_out_credits() {
    let txs = read_spend(CHECKING_CSV).unwrap();
    assert!(txs.iter().all(|t| t.description != "PAYROLL"));
}

#[test]
fn checking_keeps_debits_as_positive_amounts() {
    let txs = read_spend(CHECKING_CSV).unwrap();
    assert_eq!(txs.len(), 3);
    assert!(txs.iter().all(|t| t.amount > 0.0));
}

#[test]
fn checking_preserves_correct_values() {
    let txs = read_spend(CHECKING_CSV).unwrap();
    let amazon = txs.iter().find(|t| t.description == "AMAZON.COM").unwrap();
    assert_eq!(amazon.date, "01/15/2026");
    assert!((amazon.amount - 45.99).abs() < f64::EPSILON);
}

// ── credit card CSV ────────────────────────────────────────────────────────

const CREDIT_CSV: &str = "\
Transaction Date,Post Date,Description,Category,Type,Amount,Memo
01/15/2026,01/17/2026,AMAZON.COM,Shopping,Sale,-45.99,
01/16/2026,01/18/2026,AUTOPAY,Payment,Payment,100.00,
01/17/2026,01/19/2026,STARBUCKS,Food & Drink,Sale,-5.50,
01/18/2026,01/20/2026,RETURN CREDIT,Shopping,Return,15.00,
";

#[test]
fn credit_filters_out_payments_and_returns() {
    let txs = read_spend(CREDIT_CSV).unwrap();
    assert!(txs.iter().all(|t| t.description != "AUTOPAY"));
    assert!(txs.iter().all(|t| t.description != "RETURN CREDIT"));
}

#[test]
fn credit_keeps_sales_as_positive_amounts() {
    let txs = read_spend(CREDIT_CSV).unwrap();
    assert_eq!(txs.len(), 2);
    assert!(txs.iter().all(|t| t.amount > 0.0));
}

#[test]
fn credit_preserves_correct_values() {
    let txs = read_spend(CREDIT_CSV).unwrap();
    let starbucks = txs.iter().find(|t| t.description == "STARBUCKS").unwrap();
    assert_eq!(starbucks.date, "01/17/2026");
    assert!((starbucks.amount - 5.50).abs() < f64::EPSILON);
}

// ── rows and fields ────────────────────────────────────────────────────────

#[test]
fn credit_rows_mark_only_sales() {
    let scan = scan_statement(CREDIT_CSV.as_bytes());
    assert!(scan.error.is_none());
    let kinds: Vec<bool> = scan.rows.iter().map(|r| r.is_sale).collect();
    assert_eq!(kinds, vec![true, false, true, false]);
    assert_eq!(scan.rows[1].amount, "100.00");
}

#[test]
fn checking_rows_all_count_as_sales() {
    let scan = scan_statement(CHECKING_CSV.as_bytes());
    assert_eq!(scan.rows.len(), 4);
    assert!(scan.rows.iter().all(|r| r.is_sale));
    assert_eq!(scan.rows[2].date, "01/17/2026");
}

#[test]
fn get_field_trims_value() {
    let headers = strings(&["Date", "Amount"]);
    let record = strings(&["  01/02/2026 ", "\t-3.00\u{a0}"]);
    assert_eq!(get_field(&record, &headers, "Date").unwrap(), "01/02/2026");
    assert_eq!(get_field(&record, &headers, "Amount").unwrap(), "-3.00");
}

#[test]
fn get_field_uses_first_matching_column() {
    let headers = strings(&["A", "B", "A"]);
    let record = strings(&["first", "b", "second"]);
    assert_eq!(get_field(&record, &headers, "A").unwrap(), "first");
}

#[test]
fn get_field_reports_missing_column() {
    let headers = strings(&["Date"]);
    let record = strings(&["x"]);
    assert_eq!(
        get_field(&record, &headers, "Amount"),
        Err(AppError::Csv("missing column: Amount".to_string()))
    );
}

#[test]
fn get_field_reports_missing_value() {
    let headers = strings(&["Date", "Amount"]);
    let record = strings(&["x"]);
    assert_eq!(
        get_field(&record, &headers, "Amount"),
        Err(AppError::Csv("missing value for column: Amount".to_string()))
    );
}

#[test]
fn missing_column_is_reported() {
    let csv = "Details,Posting Date,Amount\nDEBIT,01/15/2026,-3.00\n";
    let err = read_spend(csv).unwrap_err();
    assert_eq!(err, AppError::Csv("missing column: Description".to_string()));
    assert_eq!(err.message(), "csv parse error: missing column: Description");
}

#[test]
fn invalid_amount_is_reported() {
    let csv = "Posting Date,Description,Amount\n01/15/2026,SHOP,abc\n";
    assert_eq!(read_spend(csv).unwrap_err(), AppError::Csv("invalid amount: abc".to_string()));
}

#[test]
fn thousands_separators_are_removed() {
    assert_eq!(normalize_amount(" -1,234.50 "), "-1234.50");
    let csv = "Posting Date,Description,Amount\n01/15/2026,RENT,\"-1,200.00\"\n";
    let txs = read_spend(csv).unwrap();
    assert_eq!(txs.len(), 1);
    assert!((txs[0].amount - 1200.0).abs() < 1e-9);
}

#[test]
fn earlier_short_record_wins_over_later_bad_amount() {
    let table = CsvTable {
        headers: Ok(strings(&["Posting Date", "Description", "Amount"])),
        records: vec![
            record(&["01/01/2026", "A"], None),
            record(&["01/02/2026", "B", "zz"], None),
        ],
        error: None,
    };
    let scan = scan_table(&table);
    assert_eq!(scan.rows.len(), 0);
    assert_eq!(
        scan.error,
        Some(AppError::Csv(
            "CSV error: found record with 2 fields, but the previous record has 3 fields".to_string()
        ))
    );
}

#[test]
fn short_record_error_names_its_position() {
    let table = CsvTable {
        headers: Ok(strings(&["Posting Date", "Description", "Amount"])),
        records: vec![
            record(&["01/01/2026", "A", "-1.00"], Some((1, 2, 32))),
            record(&["01/02/2026"], Some((2, 3, 50))),
        ],
        error: None,
    };
    let scan = scan_table(&table);
    assert_eq!(scan.rows.len(), 1);
    assert_eq!(
        scan.error,
        Some(AppError::Csv(
            "CSV error: record 2 (line: 3, byte: 50): found record with 1 fields, \
             but the previous record has 3 fields"
                .to_string()
        ))
    );
}

#[test]
fn unreadable_record_ends_the_rows() {
    let table = CsvTable {
        headers: Ok(strings(&["Posting Date", "Description", "Amount"])),
        records: vec![record(&["01/01/2026", "A", "-1.00"], Some((1, 2, 32)))],
        error: Some("bad record".to_string()),
    };
    let scan = scan_table(&table);
    assert_eq!(scan.rows.len(), 1);
    assert_eq!(scan.error, Some(AppError::Csv("bad record".to_string())));
    let amounts = vec![Some(ParsedAmount { spend: true, magnitude: 1.0 })];
    assert_eq!(select_spend(&scan, &amounts).unwrap_err(), AppError::Csv("bad record".to_string()));
}

#[test]
fn unreadable_header_row_is_reported() {
    let table = CsvTable { headers: Err("no header".to_string()), records: vec![], error: None };
    let scan = scan_table(&table);
    assert!(scan.rows.is_empty());
    assert_eq!(scan.error, Some(AppError::Csv("no header".to_string())));
}

#[test]
fn documented_checking_row_with_trailing_commas_is_imported() {
    let csv = "Details,Posting Date,Description,Amount,Type,Balance,Check or Slip #\n\
DEBIT,03/06/2026,\"NETFLIX.COM\",-17.99,ACH_DEBIT,999.99,,\n";
    let txs = read_spend(csv).unwrap();
    assert_eq!(txs.len(), 1);
    assert_eq!(txs[0].date, "03/06/2026");
    assert_eq!(txs[0].description, "NETFLIX.COM");
    assert!((txs[0].amount - 17.99).abs() < 1e-9);
}

#[test]
fn short_record_is_refused_as_a_strict_reader_refuses_it() {
    let csv = "Posting Date,Description,Amount\n01/15/2026,SHOP\n";
    let strict = csv::Reader::from_reader(csv.as_bytes())
        .records()
        .find_map(|r| r.err())
        .unwrap()
        .to_string();
    assert_eq!(
        strict,
        "CSV error: record 1 (line: 2, byte: 32): found record with 2 fields, \
         but the previous record has 3 fields"
    );
    assert_eq!(read_spend(csv).unwrap_err(), AppError::Csv(strict));
}

#[test]
fn documented_credit_card_row_is_imported() {
    let csv = "Transaction Date,Post Date,Description,Category,Type,Amount,Memo\n\
03/03/2026,03/03/2026,APPLE.COM/BILL,Shopping,Sale,-1.99,\n";
    let txs = read_spend(csv).unwrap();
    assert_eq!(txs.len(), 1);
    assert_eq!(txs[0].description, "APPLE.COM/BILL");
    assert!((txs[0].amount - 1.99).abs() < 1e-9);
}
