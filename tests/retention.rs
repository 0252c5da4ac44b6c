use lumberjack::error::ServiceError;
use lumberjack::retention::{
    days_from_config, expired_ledgers, expired_ledgers_now, ledger_expired, mode_from_config,
    mode_from_lowercase, parse_ledger_name, RetentionMode, RetentionPolicy,
};

const FEB_1_2024: i64 = 1706745600;

fn names(list: &[&str]) -> Vec<String> {
    list.iter().map(|s| s.to_string()).collect()
}

#[test]
fn fourteen_days_at_february_first() {
    let policy = RetentionPolicy { mode: RetentionMode::Delete, days_retained: 14 };
    let found = expired_ledgers(
        &policy,
        FEB_1_2024,
        &names(&["2024-01-10.jsonl", "2024-01-25.jsonl", "notes.txt"]),
    );
    assert_eq!(found, Ok(vec!["2024-01-10".to_string()]));
}

#[test]
fn cutoff_day_itself_is_kept_at_midnight_and_removed_after() {
    let policy = RetentionPolicy { mode: RetentionMode::Delete, days_retained: 14 };
    let ledgers = names(&["2024-01-18.jsonl", "2024-01-17.jsonl"]);
    assert_eq!(expired_ledgers(&policy, FEB_1_2024, &ledgers), Ok(vec!["2024-01-17".to_string()]));
    assert_eq!(
        expired_ledgers(&policy, FEB_1_2024 + 1, &ledgers),
        Ok(vec!["2024-01-18".to_string(), "2024-01-17".to_string()])
    );
}

#[test]
fn archive_mode_is_not_implemented() {
    let policy = RetentionPolicy { mode: RetentionMode::Archive, days_retained: 14 };
    assert_eq!(
        expired_ledgers(&policy, FEB_1_2024, &names(&["2024-01-10.jsonl"])),
        Err(ServiceError::NotImplemented)
    );
    assert_eq!(expired_ledgers(&policy, FEB_1_2024, &names(&["2024-01-31.jsonl"])), Ok(vec![]));
}

#[test]
fn retention_now_removes_old_ledgers() {
    let policy = RetentionPolicy { mode: RetentionMode::Delete, days_retained: 1 };
    let found = expired_ledgers_now(&policy, &names(&["2001-01-01.jsonl", "9999-12-31.jsonl"]));
    assert_eq!(found, Ok(vec!["2001-01-01".to_string()]));
}

#[test]
fn huge_retention_expires_nothing() {
    let policy = RetentionPolicy { mode: RetentionMode::Delete, days_retained: u32::MAX };
    assert_eq!(expired_ledgers(&policy, i64::MIN + 5, &names(&["2001-01-01.jsonl"])), Ok(vec![]));
}

#[test]
fn ledger_names() {
    assert_eq!(parse_ledger_name("2024-01-10.jsonl"), Some((2024, 1, 10)));
    assert_eq!(parse_ledger_name("2024-01-10.json"), None);
    assert_eq!(parse_ledger_name("2024/01/10.jsonl"), None);
    assert_eq!(parse_ledger_name("20x4-01-10.jsonl"), None);
    assert!(ledger_expired("2024-01-10.jsonl", FEB_1_2024));
    assert!(!ledger_expired("2024-02-01.jsonl", FEB_1_2024));
}

#[test]
fn configuration_values() {
    assert_eq!(mode_from_config("ARCHIVE"), RetentionMode::Archive);
    assert_eq!(mode_from_config("delete"), RetentionMode::Delete);
    assert_eq!(mode_from_config("anything"), RetentionMode::Delete);
    assert_eq!(days_from_config("30"), 30);
    assert_eq!(days_from_config(""), 14);
    assert_eq!(days_from_config("-3"), 14);
    assert_eq!(RetentionMode::Delete.name(), "DELETE");
    assert_eq!(RetentionMode::Archive.name(), "ARCHIVE");
}

#[test]
fn lower_cased_mode_names() {
    assert_eq!(mode_from_lowercase("archive"), RetentionMode::Archive);
    assert_eq!(mode_from_lowercase("ARCHIVE"), RetentionMode::Delete);
}
