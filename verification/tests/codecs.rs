use rollout_sessions::timestamp::Timestamp;
use rollout_sessions::timestamp::parse_timestamp;
use rollout_sessions::timestamp::format_timestamp;
use rollout_sessions::filename::parse_timestamp_uuid_from_filename;
use rollout_sessions::cursor::parse_cursor;
use rollout_sessions::cursor::format_cursor;

fn ts(year: u16, month: u8, day: u8, hour: u8, minute: u8, second: u8) -> Timestamp {
    Timestamp { year, month, day, hour, minute, second }
}

#[test]
fn timestamp_parses_exact_format() {
    let t = parse_timestamp("2024-01-02T10-00-00").expect("valid timestamp");
    assert_eq!(t, ts(2024, 1, 2, 10, 0, 0));
}

#[test]
fn timestamp_format_round_trips() {
    let t = ts(987, 1, 2, 3, 4, 5);
    let s = format_timestamp(&t);
    assert_eq!(s, "0987-01-02T03-04-05");
    assert_eq!(parse_timestamp(&s), Some(t));
}

#[test]
fn timestamp_rejects_bad_calendar_dates() {
    assert_eq!(parse_timestamp("2023-02-29T00-00-00"), None);
    assert!(parse_timestamp("2024-02-29T00-00-00").is_some());
    assert_eq!(parse_timestamp("1900-02-29T00-00-00"), None);
    assert!(parse_timestamp("2000-02-29T00-00-00").is_some());
    assert_eq!(parse_timestamp("2024-13-01T00-00-00"), None);
    assert_eq!(parse_timestamp("2024-00-01T00-00-00"), None);
    assert_eq!(parse_timestamp("2024-04-31T00-00-00"), None);
    assert_eq!(parse_timestamp("2024-01-02T24-00-00"), None);
    assert_eq!(parse_timestamp("2024-01-02T10-60-00"), None);
    assert_eq!(parse_timestamp("2024-01-02T10-00-60"), None);
}

#[test]
fn timestamp_rejects_bad_shapes() {
    assert_eq!(parse_timestamp("2024-1-02T10-00-00"), None);
    assert_eq!(parse_timestamp("2024-01-02 10-00-00"), None);
    assert_eq!(parse_timestamp("2024-01-02T10:00:00"), None);
    assert_eq!(parse_timestamp(""), None);
    assert_eq!(parse_timestamp("2024-01-02T10-00-001"), None);
}

#[test]
fn filename_decodes_canonical_name() {
    let id = "550e8400-e29b-41d4-a716-446655440000";
    let name = format!("rollout-2024-01-02T10-00-00-{id}.jsonl");
    let key = parse_timestamp_uuid_from_filename(&name).expect("valid name");
    assert_eq!(key.ts, ts(2024, 1, 2, 10, 0, 0));
    assert_eq!(key.id, uuid::Uuid::parse_str(id).unwrap().as_u128());
}

#[test]
fn filename_rejects_nonmatching_names() {
    assert!(parse_timestamp_uuid_from_filename("notes.txt").is_none());
    assert!(parse_timestamp_uuid_from_filename("rollout-.jsonl").is_none());
    assert!(
        parse_timestamp_uuid_from_filename("rollout-2024-01-02T10-00-00-zzz.jsonl").is_none()
    );
    assert!(
        parse_timestamp_uuid_from_filename(
            "rollout-2024-13-40T10-00-00-550e8400-e29b-41d4-a716-446655440000.jsonl"
        )
        .is_none()
    );
    assert!(
        parse_timestamp_uuid_from_filename(
            "prefix-2024-01-02T10-00-00-550e8400-e29b-41d4-a716-446655440000.jsonl"
        )
        .is_none()
    );
    assert!(
        parse_timestamp_uuid_from_filename(
            "rollout-2024-01-02T10-00-00-550e8400-e29b-41d4-a716-446655440000.json"
        )
        .is_none()
    );
}

#[test]
fn filename_accepts_simple_uuid_form() {
    // the id half may be any textual uuid form the id parser accepts
    let name = "rollout-2024-01-02T10-00-00-550e8400e29b41d4a716446655440000.jsonl";
    let key = parse_timestamp_uuid_from_filename(name).expect("valid name");
    assert_eq!(
        key.id,
        uuid::Uuid::parse_str("550e8400-e29b-41d4-a716-446655440000")
            .unwrap()
            .as_u128()
    );
}

#[test]
fn cursor_round_trips_through_text() {
    let id = "550e8400-e29b-41d4-a716-446655440000";
    let name = format!("rollout-2024-01-02T10-00-00-{id}.jsonl");
    let key = parse_timestamp_uuid_from_filename(&name).unwrap();
    let tok = format_cursor(&key);
    assert_eq!(tok, format!("2024-01-02T10-00-00|{id}"));
    let back = parse_cursor(&tok).expect("cursor decodes");
    assert_eq!(back, key);
}

#[test]
fn cursor_rejects_malformed_tokens() {
    assert!(parse_cursor("").is_none());
    assert!(parse_cursor("no separator here").is_none());
    assert!(parse_cursor("2024-01-02T10-00-00|not-a-uuid").is_none());
    assert!(parse_cursor("2024-01-99T10-00-00|550e8400-e29b-41d4-a716-446655440000").is_none());
    assert!(parse_cursor("|550e8400-e29b-41d4-a716-446655440000").is_none());
    assert!(parse_cursor("2024-01-02T10-00-00|").is_none());
}
