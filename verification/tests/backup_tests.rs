use ledger::backup::{
    check_backup, restore_plan, BackupData, BackupFilter, BackupTransaction, ImportDbResult,
    RestoreStep, BACKUP_VERSION,
};
use ledger::error::AppError;

fn sample() -> BackupData<f64> {
    BackupData::new(
        "1700000000".to_string(),
        vec![BackupTransaction::from_columns("01/15/2026".to_string(), "AMAZON".to_string(), 45.99, 1)],
        vec![BackupFilter { name: "Groceries".to_string(), pattern: "WHOLEFDS".to_string() }],
        vec![("split_count".to_string(), "4".to_string())],
    )
}

#[test]
fn export_empty_db() {
    let backup: BackupData<f64> =
        BackupData::new("0".to_string(), vec![], vec![], vec![("split_count".to_string(), "2".to_string())]);
    assert_eq!(backup.version, 1);
    assert!(backup.transactions.is_empty());
    assert!(backup.filters.is_empty());
    assert_eq!(backup.settings[0], ("split_count".to_string(), "2".to_string()));
}

#[test]
fn round_trip_preserves_data() {
    let backup = sample();
    assert!(backup.transactions[0].accounted);
    let steps = restore_plan(&backup);
    assert_eq!(steps.len(), 3 + 1 + 1 + 1 + 1);
    assert!(matches!(steps[0], RestoreStep::ClearTransactions));
    assert!(matches!(steps[1], RestoreStep::ClearFilters));
    assert!(matches!(steps[2], RestoreStep::ClearSettings));
    match &steps[3] {
        RestoreStep::InsertTransaction(t) => {
            assert_eq!(t.description, "AMAZON");
            assert!(t.accounted);
            assert_eq!(t.amount, 45.99);
        }
        other => panic!("unexpected step {:?}", other),
    }
    match &steps[4] {
        RestoreStep::InsertFilter(f) => assert_eq!(f.name, "Groceries"),
        other => panic!("unexpected step {:?}", other),
    }
    match &steps[5] {
        RestoreStep::PutSetting(k, v) => {
            assert_eq!(k, "split_count");
            assert_eq!(v, "4");
        }
        other => panic!("unexpected step {:?}", other),
    }
    assert!(matches!(steps[6], RestoreStep::EnsureSplitCount));
}

#[test]
fn import_replaces_existing_data() {
    let new_backup: BackupData<f64> = BackupData {
        version: 1,
        exported_at: "0".to_string(),
        transactions: vec![BackupTransaction {
            date: "02/01/2026".to_string(),
            description: "NEW".to_string(),
            amount: 99.0,
            accounted: false,
        }],
        filters: vec![],
        settings: vec![("split_count".to_string(), "3".to_string())],
    };
    let steps = restore_plan(&new_backup);
    let inserted: Vec<&str> = steps
        .iter()
        .filter_map(|s| match s {
            RestoreStep::InsertTransaction(t) => Some(t.description.as_str()),
            _ => None,
        })
        .collect();
    assert_eq!(inserted, vec!["NEW"]);
    assert!(matches!(steps[0], RestoreStep::ClearTransactions));
}

#[test]
fn check_counts_what_a_backup_brings() {
    let backup = sample();
    assert_eq!(
        check_backup(&backup),
        Ok(ImportDbResult { transactions: 1, filters: 1, settings: 1 })
    );
}

#[test]
fn check_counts_distinct_setting_keys() {
    let mut backup = sample();
    backup.settings.push(("split_count".to_string(), "5".to_string()));
    backup.settings.push(("theme".to_string(), "dark".to_string()));
    assert_eq!(check_backup(&backup).unwrap().settings, 2);
}

#[test]
fn check_rejects_other_versions() {
    let mut backup = sample();
    backup.version = 2;
    assert_eq!(
        check_backup(&backup),
        Err(AppError::Other(
            "Unsupported backup version: 2. This version of Ledger supports version 1.".to_string()
        ))
    );
    assert_eq!(BACKUP_VERSION, 1);
}

#[test]
fn zero_accounted_column_is_not_accounted() {
    let t = BackupTransaction::from_columns("d".to_string(), "x".to_string(), 1.0, 0);
    assert!(!t.accounted);
    let t = BackupTransaction::from_columns("d".to_string(), "x".to_string(), 1.0, -5);
    assert!(t.accounted);
}
