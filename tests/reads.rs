use lumberjack::error::ServiceError;
use lumberjack::reads::{read_target, record_ids_from_listing};

#[test]
fn read_target_is_made_safe() {
    assert_eq!(
        read_target("../Billing", "2024-01-15.jsonl"),
        Ok(("billing".to_string(), "2024-01-15jsonl".to_string()))
    );
    assert_eq!(read_target("./..", "2024-01-15"), Err(ServiceError::ValidationError));
    assert_eq!(read_target("app", "/"), Err(ServiceError::ValidationError));
}

#[test]
fn listing_gives_last_path_components() {
    let out = "./data/app/search/2024-01-15/0190a\n\n./data/app/search/2024-01-15/0190b\nplain\n";
    assert_eq!(
        record_ids_from_listing(out),
        vec!["0190a".to_string(), "0190b".to_string(), "plain".to_string()]
    );
    assert!(record_ids_from_listing("").is_empty());
}
