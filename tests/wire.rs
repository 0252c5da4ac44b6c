use lumberjack::clock::day_bucket;
use lumberjack::error::ServiceError;
use lumberjack::wire::{
    apply_field_lines, parse_batch, parse_log_message, parse_unsigned, split_lines, Level,
};

fn chars(s: &str) -> Vec<char> {
    s.chars().collect()
}

#[test]
fn ingest_error_record_with_multiline_message() {
    let body = "ERROR - 2024-01-15T10:30:00Z\nFILE: server.rs\nLINE: 42\nMESSAGE:\nNullPointerException\nat foo.bar\n---[EOL]---";
    let records = parse_batch(body, "production").unwrap();
    assert_eq!(records.len(), 1);
    let r = &records[0];
    assert_eq!(r.level, Level::Error);
    assert_eq!(r.file, "server.rs");
    assert_eq!(r.line, Some(42));
    assert_eq!(r.message, "NullPointerException\nat foo.bar");
    assert_eq!(r.timestamp, "2024-01-15T10:30:00Z");
    assert_eq!(r.seconds, 1705314600);
    assert_eq!(r.bucket, "2024-01-15");
    assert_eq!(r.environment, "production");
    assert!(!r.id.is_empty());
}

#[test]
fn malformed_line_defaults_to_zero() {
    let body = "warning - 2024-01-15T10:30:00Z\nLINE: forty-two\nFUNCTION: main\n---[EOL]---\n";
    let records = parse_batch(body, "dev").unwrap();
    assert_eq!(records.len(), 1);
    assert_eq!(records[0].line, Some(0));
    assert_eq!(records[0].function, "main");
    assert_eq!(records[0].level, Level::Warning);
}

#[test]
fn line_absent_stays_none_and_large_line_defaults() {
    let body = "DEBUG - 2024-01-15T10:30:00Z\n---[EOL]---\nDEBUG - 2024-01-15T10:30:00Z\nline: 4294967296\n---[EOL]---";
    let records = parse_batch(body, "dev").unwrap();
    assert_eq!(records[0].line, None);
    assert_eq!(records[1].line, Some(0));
}

#[test]
fn bad_timestamp_refuses_batch_with_position() {
    let body = "INFORMATIONAL - 2024-01-15T10:30:00Z\n---[EOL]---\nALERT - yesterday\n---[EOL]---\nALERT - nope\n---[EOL]---";
    assert_eq!(parse_batch(body, "dev").err(), Some(ServiceError::ParseError { index: 1 }));
    let no_dash = "NOTICE 2024\n---[EOL]---";
    assert_eq!(parse_batch(no_dash, "dev").err(), Some(ServiceError::ParseError { index: 0 }));
}

#[test]
fn levels_match_without_regard_to_case() {
    let body = "emergency - 2024-01-15T10:30:00Z\n---[EOL]---\nCritical - 2024-01-15T10:30:00Z\n---[EOL]---\nInformational - 2024-01-15T10:30:00Z\n---[EOL]---\n[ERROR] - 2024-01-15T10:30:00Z\n---[EOL]---";
    let records = parse_batch(body, "dev").unwrap();
    let levels: Vec<Level> = records.iter().map(|r| r.level).collect();
    assert_eq!(levels, vec![Level::Emergency, Level::Critical, Level::Info, Level::Unknown]);
}

#[test]
fn custom_fields_split_once_and_last_value_wins() {
    let body = "NOTICE - 2024-01-15T10:30:00+02:00\nurl: http://host:8080/x\n  Region : eu \nurl: again\nBRANCH: main\nCATEGORY: db\n---[EOL]---";
    let records = parse_batch(body, "dev").unwrap();
    let r = &records[0];
    assert_eq!(
        r.custom,
        vec![
            ("url".to_string(), "again".to_string()),
            ("Region".to_string(), "eu".to_string())
        ]
    );
    assert_eq!(r.branch, "main");
    assert_eq!(r.category, "db");
    assert_eq!(r.bucket, "2024-01-15");
    assert_eq!(r.seconds, 1705307400);
}

#[test]
fn message_keeps_blank_lines_and_colons() {
    let body = "ERROR - 2024-01-15T23:30:00-02:00\nMESSAGE: first\n\n  key: value\nFILE: not a field\n---[EOL]---";
    let records = parse_batch(body, "dev").unwrap();
    let r = &records[0];
    assert_eq!(r.message, "first\n\n  key: value\nFILE: not a field");
    assert_eq!(r.file, "");
    assert_eq!(r.bucket, "2024-01-16");
}

#[test]
fn unterminated_record_is_dropped_and_crlf_is_accepted() {
    let body = "ERROR - 2024-01-15T10:30:00Z\r\nFILE: a.rs\r\n---[EOL]---\r\nERROR - 2024-01-15T10:30:00Z\nFILE: b.rs";
    let records = parse_batch(body, "dev").unwrap();
    assert_eq!(records.len(), 1);
    assert_eq!(records[0].file, "a.rs");
}

#[test]
fn empty_body_has_no_records() {
    assert_eq!(parse_batch("", "dev").unwrap().len(), 0);
}

#[test]
fn records_get_distinct_ids() {
    let body = "ERROR - 2024-01-15T10:30:00Z\n---[EOL]---\nERROR - 2024-01-15T10:30:00Z\n---[EOL]---";
    let records = parse_batch(body, "dev").unwrap();
    assert_ne!(records[0].id, records[1].id);
}

#[test]
fn log_message_joins_and_trims() {
    let lines = vec![chars("  a"), chars(""), chars("b  ")];
    assert_eq!(parse_log_message(&chars(" "), &lines, 0, 3), "a\n\nb");
    assert_eq!(parse_log_message(&chars("x"), &lines, 3, 3), "x");
}

#[test]
fn split_lines_like_str_lines() {
    let lines = split_lines(&chars("a\r\nb\n\nc\n"));
    assert_eq!(lines, vec![chars("a"), chars("b"), chars(""), chars("c")]);
    assert!(split_lines(&chars("")).is_empty());
}

#[test]
fn unsigned_parse_bounds() {
    let s = chars("4294967295x");
    assert_eq!(parse_unsigned(&s, 0, 10), Some(4294967295));
    assert_eq!(parse_unsigned(&s, 0, 11), None);
    assert_eq!(parse_unsigned(&s, 0, 0), None);
}

#[test]
fn day_bucket_is_utc_date() {
    assert_eq!(day_bucket(1705314600).as_deref(), Some("2024-01-15"));
    assert_eq!(day_bucket(-1).as_deref(), Some("1969-12-31"));
    assert_eq!(day_bucket(0).as_deref(), Some("1970-01-01"));
    assert_eq!(day_bucket(i64::MAX), None);
}

#[test]
fn field_lines_apply_to_a_record() {
    let mut rec = parse_batch("DEBUG - 2024-01-15T10:30:00Z\n---[EOL]---", "qa").unwrap().remove(0);
    let lines = vec![chars("FILE: a.rs"), chars("   "), chars("Line: 7"), chars("message: hi"), chars("there")];
    apply_field_lines(&mut rec, &lines, 0, 5);
    assert_eq!(rec.file, "a.rs");
    assert_eq!(rec.line, Some(7));
    assert_eq!(rec.message, "hi\nthere");
    assert_eq!(rec.environment, "qa");
}
