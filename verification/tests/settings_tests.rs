use ledger::error::AppError;
use ledger::settings::{parse_split_count, split_count_value, DEFAULT_SPLIT_COUNT, SPLIT_COUNT_KEY};

#[test]
fn get_returns_default() {
    assert_eq!(SPLIT_COUNT_KEY, "split_count");
    assert_eq!(parse_split_count(DEFAULT_SPLIT_COUNT).unwrap(), 2);
}

#[test]
fn set_and_get_roundtrip() {
    let stored = split_count_value(4).unwrap();
    assert_eq!(stored, "4");
    assert_eq!(parse_split_count(&stored).unwrap(), 4);
}

#[test]
fn set_rejects_zero() {
    let result = split_count_value(0);
    assert!(result.is_err());
}

#[test]
fn set_rejects_negative() {
    let result = split_count_value(-1);
    assert_eq!(result, Err(AppError::Other("split_count must be at least 1".to_string())));
}

#[test]
fn large_split_counts_round_trip() {
    for n in [1i64, 9, 10, 99, 100, 12345, i64::MAX] {
        let stored = split_count_value(n).unwrap();
        assert_eq!(stored, n.to_string());
        assert_eq!(parse_split_count(&stored).unwrap(), n);
    }
}

#[test]
fn unreadable_split_count_is_an_error() {
    assert_eq!(
        parse_split_count("two"),
        Err(AppError::Other("invalid digit found in string".to_string()))
    );
    assert!(parse_split_count("").is_err());
    assert!(parse_split_count(" 2").is_err());
    assert_eq!(parse_split_count("+7"), Ok(7));
    assert_eq!(parse_split_count("-3"), Ok(-3));
    assert!(parse_split_count("9223372036854775808").is_err());
}
