use logdrain::format::{prepare, Sort};
use logdrain::miner::{Miner, UpdateType};
use logdrain::options::MinerBuilder;

fn miner() -> Miner {
    Miner::from_options(MinerBuilder::new().build_options().unwrap())
}

fn path_miner() -> Miner {
    Miner::from_options(MinerBuilder::new().path_delimiters(&['/']).build_options().unwrap())
}

fn first_line_miner() -> Miner {
    Miner::from_options(MinerBuilder::new().first_line_only(true).build_options().unwrap())
}

#[test]
fn generalization_idempotent() {
    for line in ["a", "user alice logged in", "x y z w v u t", "q"] {
        let mut m = miner();
        let a = m.add(line);
        let tmpl_a = m.cluster(a.cluster_id).unwrap().template().to_string();
        let b = m.add(line);
        assert_eq!(a.cluster_id, b.cluster_id);
        assert_eq!(b.update, UpdateType::Unchanged);
        let tmpl_b = m.cluster(b.cluster_id).unwrap().template().to_string();
        assert_eq!(tmpl_a, tmpl_b);
    }
}

#[test]
fn add_then_match_is_consistent() {
    let mut m = miner();
    for line in ["alpha beta", "alpha gamma", "one two three", "one two four", "zz"] {
        let a = m.add(line);
        assert_eq!(m.match_only(line), Some(a.cluster_id));
    }
}

#[test]
fn snapshot_round_trip() {
    let lines = ["a b c", "a b d", "x y", "x z", "p q r s", "hello world", "hello there"];
    let mut m = miner();
    for l in &lines {
        m.add(l);
    }
    let bytes = m.snapshot();
    let mut m2 = miner();
    m2.restore(&bytes).unwrap();
    assert_eq!(m.len(), m2.len());
    for c in m.clusters() {
        let restored = m2.cluster(c.id()).expect("cluster id present after restore");
        assert_eq!(c.template(), restored.template());
        assert_eq!(c.size(), restored.size());
    }
}

#[test]
fn path_add_then_match() {
    for line in ["/a", "/a/b/c", "/srv/x/y/z/w"] {
        let mut m = path_miner();
        let a = m.add(line);
        assert_eq!(m.match_only(line), Some(a.cluster_id));
    }
}

#[test]
fn path_template_token_count_stable() {
    for line in ["/a", "/a/b/c", "/srv/x/y/z/w"] {
        let mut m = path_miner();
        let a = m.add(line);
        let template = m.cluster(a.cluster_id).unwrap().template().to_string();
        // Re-feeding the rendered template lands in the same cluster.
        assert_eq!(m.match_only(&template), Some(a.cluster_id));
    }
}

#[test]
fn suffix_is_stable() {
    for (first, suffix) in [("boom", "at a\nat b"), ("x y z", ""), ("err code", "1 2 3")] {
        let mut m = first_line_miner();
        let a = m.add(&format!("{first}\n{suffix}"));
        let captured = m.cluster(a.cluster_id).unwrap().suffix().map(|s| s.to_string());
        let b = m.add(&format!("{first}\nDIFFERENT SUFFIX"));
        assert_eq!(a.cluster_id, b.cluster_id);
        assert_eq!(m.cluster(a.cluster_id).unwrap().suffix().map(|s| s.to_string()), captured);
    }
}

#[test]
fn created_ids_are_fresh() {
    let mut m = miner();
    let mut seen = Vec::new();
    for line in ["a", "b c", "d e f", "g h i j"] {
        let r = m.add(line);
        assert_eq!(r.update, UpdateType::Created);
        assert!(!seen.contains(&r.cluster_id));
        seen.push(r.cluster_id);
    }
}

#[test]
fn every_add_counts_one_line() {
    let lines = ["a b c", "a b d", "x y", "x z", "a b c", "q", "q", "x y"];
    let mut m = miner();
    for (n, l) in lines.iter().enumerate() {
        let before: Vec<(u64, u64)> = m.clusters().iter().map(|c| (c.id(), c.size())).collect();
        let r = m.add(l);
        for (id, size) in before {
            let now = m.cluster(id).unwrap().size();
            if id == r.cluster_id {
                assert_eq!(now, size + 1);
            } else {
                assert_eq!(now, size);
            }
        }
        let total: u64 = m.clusters().iter().map(|c| c.size()).sum();
        assert_eq!(total, n as u64 + 1);
    }
}

#[test]
fn prepared_clusters_are_ordered_and_filtered() {
    let mut m = miner();
    for l in ["b b b", "a a a", "b b c", "zz", "m n o p", "m n o q", "m n o r"] {
        m.add(l);
    }
    for sort in [Sort::Size, Sort::Template, Sort::Id, Sort::Rate] {
        let cs = prepare(m.clusters(), 2, sort);
        assert!(cs.iter().all(|c| c.size() >= 2));
        assert_eq!(cs.len(), m.clusters().iter().filter(|c| c.size() >= 2).count());
        for pair in cs.windows(2) {
            match sort {
                Sort::Size => assert!(pair[0].size() > pair[1].size() || (pair[0].size() == pair[1].size() && pair[0].id() < pair[1].id())),
                Sort::Template => assert!(pair[0].template() <= pair[1].template()),
                Sort::Id | Sort::Rate => assert!(pair[0].id() < pair[1].id()),
            }
        }
    }
}

#[test]
fn rendered_template_of_a_joined_cluster_matches_it() {
    let mut m = path_miner();
    m.add("GET /u/1/x ok");
    let r = m.add("GET /u/2/x ok");
    let template = m.cluster(r.cluster_id).unwrap().template().to_string();
    assert_eq!(template, "GET /u/<*>/x ok");
    assert_eq!(m.match_only(&template), Some(r.cluster_id));
}

#[test]
fn sizes_count_the_adds_assigned_over_a_run() {
    let mut m = miner();
    let lines = ["a b c", "x y z", "a b d", "p q", "x y w", "a b c", "p r"];
    let mut ids = Vec::new();
    for l in lines {
        ids.push(m.add(l).cluster_id);
    }
    for c in m.clusters() {
        let n = ids.iter().filter(|&&id| id == c.id()).count() as u64;
        assert_eq!(c.size(), n);
    }
}

#[test]
fn a_line_like_no_cluster_creates_one_and_a_like_line_joins_the_best() {
    let mut m = miner();
    let a = m.add("alpha beta gamma delta");
    let b = m.add("one two three four");
    let r = m.add("alpha beta gamma epsilon");
    assert_eq!(r.cluster_id, a.cluster_id);
    assert_ne!(r.update, UpdateType::Created);
    let fresh = m.add("red green blue yellow");
    assert_eq!(fresh.update, UpdateType::Created);
    assert!(fresh.cluster_id > b.cluster_id);
}
