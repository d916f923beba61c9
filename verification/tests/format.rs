use logdrain::cluster::Cluster;
use logdrain::format::{csv_escape, prepare, render_csv, render_text, Sort};
use logdrain::miner::Miner;

fn sample() -> Vec<Cluster> {
    let mut m = Miner::builder().build().unwrap();
    m.add("user 1 logged in"); // cluster 1
    m.add("user 2 logged in"); // joins 1
    m.add("disk full warning now"); // cluster 2
    m.clusters()
}

fn zero_rates(n: usize) -> Vec<String> {
    vec!["0.0".to_string(); n]
}

#[test]
fn prepare_sorts_by_size_then_id() {
    let cs = prepare(sample(), 0, Sort::Size);
    assert_eq!(cs[0].size(), 2); // "user ... logged in" cluster first
    assert_eq!(cs[1].size(), 1);
}

#[test]
fn prepare_filters_min_size() {
    let cs = prepare(sample(), 2, Sort::Size);
    assert_eq!(cs.len(), 1);
    assert_eq!(cs[0].size(), 2);
}

#[test]
fn prepare_sort_by_id() {
    let cs = prepare(sample(), 0, Sort::Id);
    assert!(cs[0].id() < cs[1].id());
}

#[test]
fn prepare_sort_by_template() {
    let cs = prepare(sample(), 0, Sort::Template);
    assert_eq!(cs[0].template(), "disk full warning now");
    assert_eq!(cs[1].template(), "user <*> logged in");
}

#[test]
fn prepare_sort_by_rate_orders_fast_clusters_first() {
    let mut m = Miner::builder().build().unwrap();
    m.observe("slow 1 job", None, None, 0);
    m.observe("slow 2 job", None, None, 60_000); // 2 lines over a minute
    m.observe("fast a b c", None, None, 0);
    m.observe("fast a b c", None, None, 1_000);
    m.observe("fast a b c", None, None, 2_000); // 3 lines over two seconds
    m.observe("instant x", None, None, 5);
    let cs = prepare(m.clusters(), 0, Sort::Rate);
    let templates: Vec<&str> = cs.iter().map(|c| c.template()).collect();
    assert_eq!(templates, vec!["fast a b c", "slow <*> job", "instant x"]);
}

#[test]
fn text_has_header_and_no_rate_column_for_instant_clusters() {
    let cs = prepare(sample(), 0, Sort::Size);
    let out = render_text(&cs, &zero_rates(cs.len()));
    assert!(out.contains("TEMPLATE"));
    assert!(!out.contains("RATE/MIN")); // instant clusters -> rate 0 -> column hidden
    assert!(out.contains("user <*> logged in"));
}

#[test]
fn text_rows_are_aligned() {
    let mut m = Miner::builder().build().unwrap();
    m.observe("a b c", None, None, 0);
    m.observe("a b d", None, None, 120_000);
    let cs = prepare(m.clusters(), 0, Sort::Size);
    let out = render_text(&cs, &["1.0".to_string()]);
    assert_eq!(out, "ID  SIZE   RATE/MIN  TEMPLATE\n 1     2        1.0  a b <*>\n");
    let plain = render_text(&[], &[]);
    assert_eq!(plain, "ID  SIZE  TEMPLATE\n");
}

#[test]
fn csv_has_header_and_rows() {
    let cs = prepare(sample(), 0, Sort::Size);
    let out = render_csv(&cs, &zero_rates(cs.len()), &vec![None; cs.len()]);
    let mut lines = out.lines();
    assert_eq!(
        lines.next().unwrap(),
        "id,size,rate_per_min,template,created_at,updated_at,\
         event_first_seen,event_last_seen,event_rate_per_min,members,suffix"
    );
    assert!(lines.next().unwrap().contains("user <*> logged in"));
}

#[test]
fn csv_row_quotes_fields_and_joins_members() {
    let mut m = Miner::builder().first_line_only(true).build().unwrap();
    m.observe("x, y w\nline \"two\"", Some("a"), Some(7), 10);
    m.observe("x, y q", Some("b"), None, 20);
    let cs = m.clusters();
    let out = render_csv(&cs, &["0.0".to_string()], &[Some("0.0".to_string())]);
    let row = out.lines().nth(1).unwrap().to_string();
    assert_eq!(row, "1,2,0.0,\"x, y <*>\",10,20,7,7,0.0,a;b,\"line \"\"two\"\"\"");
}

#[test]
fn csv_escapes_special_characters() {
    assert_eq!(csv_escape("plain"), "plain");
    assert_eq!(csv_escape("a,b"), "\"a,b\"");
    assert_eq!(csv_escape("say \"hi\""), "\"say \"\"hi\"\"\"");
    assert_eq!(csv_escape("line1\nline2"), "\"line1\nline2\"");
}

#[test]
fn csv_escape_quotes_carriage_return_and_empty_stays_empty() {
    assert_eq!(csv_escape("a\rb"), "\"a\rb\"");
    assert_eq!(csv_escape(""), "");
}
