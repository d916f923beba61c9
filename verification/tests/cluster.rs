use logdrain::cluster::ClusterInner;
use logdrain::tokenize::{tokenize, tokenize_with, OwnedToken};
use std::time::{Duration, UNIX_EPOCH};

fn inner_from(line: &str, id: u64) -> ClusterInner {
    let toks: Vec<_> = tokenize(line).iter().map(OwnedToken::from_token).collect();
    ClusterInner::new(id, toks, 0, None, None)
}

fn inner_path(line: &str, id: u64) -> ClusterInner {
    let toks: Vec<_> = tokenize_with(line, &['/']).iter().map(OwnedToken::from_token).collect();
    ClusterInner::new(id, toks, 0, None, None)
}

#[test]
fn generalize_replaces_differing_tokens() {
    let mut c = inner_from("user 42 logged in", 1);
    let incoming = tokenize("user 99 logged in");
    let changed = c.generalize(&incoming, "<*>");
    assert!(changed);
    assert_eq!(c.render_template("<*>"), "user <*> logged in");
}

#[test]
fn generalize_is_idempotent() {
    let mut c = inner_from("user 42 logged in", 1);
    let incoming = tokenize("user 99 logged in");
    assert!(c.generalize(&incoming, "<*>"));
    // Same shape again: already wildcard at the differing slot -> no change.
    let again = tokenize("user 7 logged in");
    assert!(!c.generalize(&again, "<*>"));
    assert_eq!(c.render_template("<*>"), "user <*> logged in");
}

#[test]
fn generalize_no_diff_returns_false() {
    let mut c = inner_from("a b c", 1);
    let incoming = tokenize("a b c");
    assert!(!c.generalize(&incoming, "<*>"));
}

#[test]
fn snapshot_exposes_accessors() {
    let c = inner_from("a b", 7);
    let snap = c.to_public("<*>");
    assert_eq!(snap.id(), 7);
    assert_eq!(snap.size(), 1);
    assert_eq!(snap.template(), "a b");
    assert_eq!(snap.tokens().len(), 2);
    assert!(snap.suffix().is_none());
    assert!(snap.members().is_empty());
}

#[test]
fn suffix_is_exposed() {
    let toks: Vec<_> = tokenize("boom").iter().map(OwnedToken::from_token).collect();
    let c = ClusterInner::new(1, toks, 0, Some("at line 1\nat line 2".to_string()), None);
    assert_eq!(c.to_public("<*>").suffix(), Some("at line 1\nat line 2"));
}

#[test]
fn event_time_unset_by_default() {
    let snap = inner_from("a b", 1).to_public("<*>");
    assert!(snap.event_first_seen().is_none());
    assert!(snap.event_last_seen().is_none());
    assert!(snap.event_span_ms().is_none());
}

#[test]
fn observe_event_tracks_min_max_and_rate() {
    let toks: Vec<_> = tokenize("a b").iter().map(OwnedToken::from_token).collect();
    // Created at event t=60_000 ms; later observe earlier and later events.
    let mut c = ClusterInner::new(1, toks, 0, None, Some(60_000));
    c.observe_event(0); // earlier -> new min
    c.observe_event(180_000); // later -> new max (span 180s = 3 min)
    c.size = 6;
    let snap = c.to_public("<*>");
    assert_eq!(snap.event_first_seen(), Some(UNIX_EPOCH + Duration::from_millis(0)));
    assert_eq!(snap.event_last_seen(), Some(UNIX_EPOCH + Duration::from_millis(180_000)));
    assert_eq!(snap.event_span_ms(), Some(180_000));
    assert_eq!(snap.size(), 6);
}

#[test]
fn members_dedup() {
    let mut c = inner_from("a b", 1);
    c.add_member("svc-a");
    c.add_member("svc-b");
    c.add_member("svc-a"); // duplicate ignored
    let snap = c.to_public("<*>");
    let members: Vec<&str> = snap.members().iter().map(|m| m.as_str()).collect();
    assert_eq!(members, vec!["svc-a", "svc-b"]);
}

#[test]
fn render_round_trips_path_template() {
    let c = inner_path("/servers/409/foo", 1);
    assert_eq!(c.render_template("<*>"), "/servers/409/foo");
}

#[test]
fn render_round_trips_mixed() {
    let c = inner_path("GET /servers/409 ok", 1);
    assert_eq!(c.render_template("<*>"), "GET /servers/409 ok");
}

#[test]
fn render_round_trips_trailing_delim() {
    let c = inner_path("dir/", 1);
    assert_eq!(c.render_template("<*>"), "dir/");
}

#[test]
fn generalize_preserves_path_structure() {
    let mut c = inner_path("/servers/409/foo", 1);
    let incoming = tokenize_with("/servers/410/foo", &['/']);
    assert!(c.generalize(&incoming, "<*>"));
    assert_eq!(c.render_template("<*>"), "/servers/<*>/foo");
}

#[test]
fn generalize_path_is_idempotent() {
    let mut c = inner_path("/servers/409/foo", 1);
    assert!(c.generalize(&tokenize_with("/servers/410/foo", &['/']), "<*>"));
    assert!(!c.generalize(&tokenize_with("/servers/999/foo", &['/']), "<*>"));
    assert_eq!(c.render_template("<*>"), "/servers/<*>/foo");
}

#[test]
fn observed_span_measures_processing_window() {
    let mut c = inner_from("a b", 1);
    c.updated_at_ms = 120_000;
    assert_eq!(c.to_public("<*>").observed_span_ms(), 120_000);
    c.updated_at_ms = 0;
    c.created_at_ms = 5;
    assert_eq!(c.to_public("<*>").observed_span_ms(), 0);
}

#[test]
fn touch_counts_and_stamps() {
    let mut c = inner_from("a b", 1);
    c.touch(9, 777);
    assert_eq!(c.size, 2);
    assert_eq!(c.updated_at_ms, 777);
    assert_eq!(c.recency(), 9);
    c.size = u64::MAX;
    c.touch(10, 778);
    assert_eq!(c.size, 0);
}

#[test]
fn rendered_template_gives_back_the_line() {
    for line in ["/servers/409/foo", "GET /servers/409 ok", "dir/", "a / b", "x/y /z w"] {
        assert_eq!(inner_path(line, 1).render_template("<*>"), line);
    }
}
