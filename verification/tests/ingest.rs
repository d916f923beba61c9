use logdrain::ingest::{build_masks, extract_field, split_on, Ingestor};
use logdrain::miner::Miner;
use std::time::{Duration, UNIX_EPOCH};

/// Ingestor with no key / time options, for the simple cases.
fn plain() -> Ingestor {
    Ingestor::new(None, None, None)
}

#[test]
fn extracts_top_level_string() {
    let line = r#"{"message":"hello world","level":"info"}"#;
    assert_eq!(extract_field(line, "message").as_deref(), Some("hello world"));
}

#[test]
fn extracts_nested_dot_path() {
    let line = r#"{"event":{"type":"login","user":{"id":42}}}"#;
    assert_eq!(extract_field(line, "event.type").as_deref(), Some("login"));
    assert_eq!(extract_field(line, "event.user.id").as_deref(), Some("42"));
}

#[test]
fn missing_field_is_none() {
    let line = r#"{"message":"x"}"#;
    assert_eq!(extract_field(line, "nope"), None);
    assert_eq!(extract_field(line, "a.b.c"), None);
}

#[test]
fn non_json_is_none() {
    assert_eq!(extract_field("just a plain log line", "message"), None);
}

#[test]
fn extract_field_null_is_none_and_containers_are_compact() {
    let line = r#"{"a":null,"b":{"y":[1, 2],"x":true},"c":1.5}"#;
    assert_eq!(extract_field(line, "a"), None);
    assert_eq!(extract_field(line, "b").as_deref(), Some(r#"{"x":true,"y":[1,2]}"#));
    assert_eq!(extract_field(line, "b.y").as_deref(), Some("[1,2]"));
    assert_eq!(extract_field(line, "c").as_deref(), Some("1.5"));
    assert_eq!(extract_field(line, "b.y.0"), None);
}

#[test]
fn split_on_keeps_empty_pieces() {
    assert_eq!(split_on("a,,b", ','), vec!["a", "", "b"]);
    assert_eq!(split_on("", ','), vec![""]);
    assert_eq!(split_on("x.y", '.'), vec!["x", "y"]);
}

#[test]
fn build_masks_parses_known_and_rejects_unknown() {
    assert_eq!(build_masks("uuid,ipv4").unwrap().len(), 2);
    assert!(build_masks("").unwrap().is_empty());
    assert!(build_masks("uuid,bogus").is_err());
}

#[test]
fn build_masks_trims_names_and_reports_the_unknown_one() {
    let ms = build_masks(" email , ,jwt ").unwrap();
    let placeholders: Vec<&str> = ms.iter().map(|m| m.placeholder()).collect();
    assert_eq!(placeholders, vec!["<email>", "<jwt>"]);
    assert_eq!(
        build_masks("hex32, nope ,zip").unwrap_err(),
        "unknown mask 'nope' (known: uuid, hex32, email, ipv4, jwt)"
    );
}

#[test]
fn feed_skips_blank_extracts_json_and_adds_raw() {
    let mut m = Miner::builder().build().unwrap();
    let mut raw = plain();
    raw.feed(&mut m, "   "); // blank -> skipped
    assert_eq!(m.len(), 0);
    raw.feed(&mut m, "plain text line"); // raw -> added
    assert_eq!(m.len(), 1);

    let mut m2 = Miner::builder().build().unwrap();
    let mut keyed = Ingestor::new(Some("msg".to_string()), None, None);
    keyed.feed(&mut m2, r#"{"msg":"hello world"}"#); // JSON field extracted
    assert!(m2.match_only("hello world").is_some());
    keyed.feed(&mut m2, "not json"); // unparseable under the key -> skipped
    assert!(m2.match_only("not json").is_none());
}

#[test]
fn feed_with_time_key_tracks_window_and_counts_failures() {
    let mut m = Miner::builder().build().unwrap();
    let mut ing = Ingestor::new(Some("msg".to_string()), Some("ts".to_string()), None);
    ing.feed(&mut m, r#"{"msg":"user 1 in","ts":60}"#); // event t = 60s
    ing.feed(&mut m, r#"{"msg":"user 2 in","ts":180}"#); // joins, t = 180s
    ing.feed(&mut m, r#"{"msg":"user 3 in"}"#); // missing ts -> failure, still clustered

    let cs = m.clusters();
    assert_eq!(cs.len(), 1);
    let c = &cs[0];
    assert_eq!(c.size(), 3);
    assert_eq!(c.event_first_seen(), Some(UNIX_EPOCH + Duration::from_secs(60)));
    assert_eq!(c.event_last_seen(), Some(UNIX_EPOCH + Duration::from_secs(180)));
    assert_eq!(ing.time_parse_failures(), 1);
}

#[test]
fn event_ms_uses_format_and_is_silent_without_time_key() {
    let mut ing = Ingestor::new(None, Some("t".to_string()), Some("%Y-%m-%d %H:%M:%S".to_string()));
    assert_eq!(ing.event_ms(r#"{"t":"1970-01-01 00:01:00"}"#), Some(60_000));
    assert_eq!(ing.event_ms(r#"{"t":"yesterday"}"#), None);
    assert_eq!(ing.time_parse_failures(), 1);
    let mut silent = plain();
    assert_eq!(silent.event_ms(r#"{"t":1}"#), None);
    assert_eq!(silent.time_parse_failures(), 0);
}
