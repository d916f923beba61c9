use logdrain::builtin_masks::uuid;
use logdrain::miner::{Miner, UpdateType};
use logdrain::options::{MinerBuilder, Ratio};

fn miner() -> Miner {
    Miner::from_options(MinerBuilder::new().build_options().unwrap())
}

fn miner_with(b: MinerBuilder) -> Miner {
    Miner::from_options(b.build_options().unwrap())
}

#[test]
fn first_line_creates_cluster() {
    let mut m = miner();
    let r = m.add("user 42 logged in");
    assert_eq!(r.update, UpdateType::Created);
    assert_eq!(r.cluster_id, 1);
    assert_eq!(m.len(), 1);
}

#[test]
fn similar_line_joins_and_generalizes() {
    let mut m = miner();
    let a = m.add("user 42 logged in");
    let b = m.add("user 99 logged in");
    assert_eq!(b.cluster_id, a.cluster_id);
    assert_eq!(b.update, UpdateType::TemplateChanged);
    assert_eq!(m.len(), 1);
}

#[test]
fn identical_line_is_update_none() {
    let mut m = miner();
    m.add("a b c d e");
    let r = m.add("a b c d e");
    assert_eq!(r.update, UpdateType::Unchanged);
}

#[test]
fn different_token_count_makes_new_cluster() {
    let mut m = miner();
    let a = m.add("a b c");
    let b = m.add("a b c d");
    assert_ne!(a.cluster_id, b.cluster_id);
    assert_eq!(m.len(), 2);
}

#[test]
fn dissimilar_same_length_makes_new_cluster() {
    let mut m = miner();
    // Default threshold 0.4, 5 tokens: differing in 4/5 -> sim 0.2 < 0.4.
    let a = m.add("alpha one two three four");
    let b = m.add("alpha NINE TEN ELEVEN TWELVE");
    assert_ne!(a.cluster_id, b.cluster_id);
    assert_eq!(m.len(), 2);
}

#[test]
fn numeric_parametrization_groups_by_wildcard_prefix() {
    let mut m = miner();
    let a = m.add("100 ms elapsed for request");
    let b = m.add("200 ms elapsed for request");
    assert_eq!(a.cluster_id, b.cluster_id);
}

#[test]
fn ids_are_monotonic() {
    let mut m = miner();
    let a = m.add("a b c");
    let b = m.add("x y z");
    assert_eq!(a.cluster_id, 1);
    assert_eq!(b.cluster_id, 2);
}

#[test]
fn builder_build_constructs_miner() {
    let m = MinerBuilder::new().sim_threshold(Ratio::new(1, 2)).build().unwrap();
    assert_eq!(m.len(), 0);
    assert!(MinerBuilder::new().depth(1).build().is_err());
}

#[test]
fn match_only_finds_without_learning() {
    let mut m = miner();
    let a = m.add("user 42 logged in");
    let before = m.len();
    let hit = m.match_only("user 7 logged in");
    assert_eq!(hit, Some(a.cluster_id));
    assert_eq!(m.len(), before); // no new cluster, size unchanged
    assert_eq!(m.cluster(a.cluster_id).unwrap().size(), 1);
}

#[test]
fn match_only_misses_return_none() {
    let mut m = miner();
    m.add("a b c");
    assert_eq!(m.match_only("x y z w"), None); // different token count
    assert_eq!(m.match_only("p q r"), None); // same count, no path
}

#[test]
fn extract_returns_wildcard_values() {
    let mut m = miner();
    m.add("user 42 logged in");
    m.add("user 99 logged in"); // generalizes slot 1 to <*>
    let (id, params) = m.extract("user 7 logged in").unwrap();
    assert_eq!(id, m.match_only("user 7 logged in").unwrap());
    assert_eq!(params, vec!["7".to_string()]);
}

#[test]
fn clusters_and_cluster_snapshots() {
    let mut m = miner();
    let a = m.add("a b c");
    m.add("x y z");
    let all = m.clusters();
    assert_eq!(all.len(), 2);
    let one = m.cluster(a.cluster_id).unwrap();
    assert_eq!(one.id(), a.cluster_id);
    assert!(m.cluster(99999).is_none());
}

#[test]
fn path_clustering_preserves_structure() {
    let mut m = miner_with(MinerBuilder::new().path_delimiters(&['/']));
    let a = m.add("PUT /servers/409/foo/10.0.0.1");
    let b = m.add("PUT /servers/410/foo/10.0.0.2");
    assert_eq!(a.cluster_id, b.cluster_id);
    assert_eq!(m.cluster(a.cluster_id).unwrap().template(), "PUT /servers/<*>/foo/<*>");
}

#[test]
fn masks_cluster_high_cardinality_tokens() {
    let mut m = miner_with(MinerBuilder::new().masks(vec![uuid()]));
    let a = m.add("request 550e8400-e29b-41d4-a716-446655440000 ok");
    let b = m.add("request 6ba7b810-9dad-11d1-80b4-00c04fd430c8 ok");
    assert_eq!(a.cluster_id, b.cluster_id);
    assert_eq!(b.update, UpdateType::Unchanged); // identical after masking
    assert_eq!(m.cluster(a.cluster_id).unwrap().template(), "request <uuid> ok");
}

#[test]
fn first_line_only_captures_suffix() {
    let mut m = miner_with(MinerBuilder::new().first_line_only(true));
    let a = m.add("NullPointerException at Foo\n  at bar()\n  at baz()");
    assert_eq!(m.cluster(a.cluster_id).unwrap().suffix(), Some("  at bar()\n  at baz()"));
    // Same first line, different stack -> same cluster; suffix stays the first one.
    let b = m.add("NullPointerException at Foo\n  at other()");
    assert_eq!(a.cluster_id, b.cluster_id);
    assert_eq!(m.cluster(a.cluster_id).unwrap().suffix(), Some("  at bar()\n  at baz()"));
}

#[test]
fn add_with_member_records_deduped_members() {
    let mut m = miner();
    let a = m.add_with_member("user 1 logged in", "svc-a");
    m.add_with_member("user 2 logged in", "svc-b");
    m.add_with_member("user 3 logged in", "svc-a"); // duplicate member
    let c = m.cluster(a.cluster_id).unwrap();
    let members: Vec<&str> = c.members().iter().map(|m| m.as_str()).collect();
    assert_eq!(members, vec!["svc-a", "svc-b"]);
    // Plain add records no member.
    let d = m.add("totally different shape here now");
    assert!(m.cluster(d.cluster_id).unwrap().members().is_empty());
}

#[test]
fn extract_honors_masks_and_path() {
    let mut m = miner_with(MinerBuilder::new().path_delimiters(&['/']));
    m.add("GET /u/409/x");
    m.add("GET /u/410/x"); // generalize middle to <*>
    let (_, params) = m.extract("GET /u/777/x").unwrap();
    assert_eq!(params, vec!["777".to_string()]);
}

#[test]
fn add_at_tracks_event_window() {
    let mut m = miner();
    let a = m.add_at("user 1 in", 60_000);
    m.add_at("user 2 in", 180_000);
    m.add_with_member_at("user 3 in", "svc", 30_000);
    let c = m.cluster(a.cluster_id).unwrap();
    assert_eq!(c.size(), 3);
    assert_eq!(c.event_first_ms(), Some(30_000));
    assert_eq!(c.event_last_ms(), Some(180_000));
    assert_eq!(c.event_span_ms(), Some(150_000));
    let members: Vec<&str> = c.members().iter().map(|m| m.as_str()).collect();
    assert_eq!(members, vec!["svc"]);
}

#[test]
fn observe_uses_the_given_clock() {
    let mut m = miner();
    let a = m.observe("job 1 done", None, None, 1_000);
    m.observe("job 2 done", Some("w1"), Some(5), 61_000);
    let c = m.cluster(a.cluster_id).unwrap();
    assert_eq!(c.created_at_ms(), 1_000);
    assert_eq!(c.updated_at_ms(), 61_000);
    assert_eq!(c.observed_span_ms(), 60_000);
    assert_eq!(c.event_first_ms(), Some(5));
    assert_eq!(c.template(), "job <*> done");
}

#[test]
fn full_leaf_evicts_least_recently_used() {
    let mut m = miner_with(MinerBuilder::new().max_clusters_per_leaf(2).depth(3));
    let a = m.add("k alpha one two");
    let b = m.add("k beta three four");
    m.add("k alpha one two"); // touches a, so b is least recently used
    let c = m.add("k gamma five six");
    assert_eq!(m.len(), 2);
    assert!(m.cluster(a.cluster_id).is_some());
    assert!(m.cluster(b.cluster_id).is_none());
    assert!(m.cluster(c.cluster_id).is_some());
}

#[test]
fn threshold_one_requires_exact_template() {
    let mut m = miner_with(MinerBuilder::new().sim_threshold(Ratio::new(1, 1)));
    let a = m.add("a b c");
    let b = m.add("a b d");
    assert_ne!(a.cluster_id, b.cluster_id);
    let c = m.add("a b c");
    assert_eq!(c.cluster_id, a.cluster_id);
}

#[test]
fn empty_line_is_its_own_cluster() {
    let mut m = miner();
    let a = m.add("");
    let b = m.add("   ");
    assert_eq!(a.cluster_id, b.cluster_id);
    assert_eq!(m.cluster(a.cluster_id).unwrap().template(), "");
}
