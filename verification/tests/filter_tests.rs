use ledger::error::AppError;
use ledger::filters::{created_filter, delete_outcome, update_outcome};

#[test]
fn create_filter_returns_inserted_row() {
    let f = created_filter(1, "Rent", "LANDLORD");
    assert_eq!(f.name, "Rent");
    assert_eq!(f.pattern, "LANDLORD");
    assert!(f.id > 0);
}

#[test]
fn update_filter_changes_fields() {
    let updated = update_outcome(5, "New Name", "NEW", 1).unwrap();
    assert_eq!(updated.id, 5);
    assert_eq!(updated.name, "New Name");
    assert_eq!(updated.pattern, "NEW");
}

#[test]
fn update_filter_missing_id_returns_error() {
    let result = update_outcome(999, "X", "Y", 0);
    assert!(result.is_err());
    assert_eq!(result.unwrap_err(), AppError::Other("filter with id 999 not found".to_string()));
}

#[test]
fn delete_filter_removes_row() {
    assert_eq!(delete_outcome(3, 1), Ok(()));
}

#[test]
fn delete_filter_missing_id_returns_error() {
    let result = delete_outcome(999, 0);
    assert!(result.is_err());
    assert_eq!(
        delete_outcome(-12, 0).unwrap_err().message(),
        "filter with id -12 not found"
    );
}
