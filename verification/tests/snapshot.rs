use logdrain::error::LogdrainError;
use logdrain::miner::Miner;
use logdrain::options::MinerBuilder;
use logdrain::snapshot::{decode, encode, ClusterRecordV2, OptionsRecord, SnapshotRecord, SnapshotRecordV2};

const MAGIC: &[u8; 8] = b"LOGDRAIN";

fn miner() -> Miner {
    Miner::from_options(MinerBuilder::new().build_options().unwrap())
}

fn ms(t: Option<std::time::SystemTime>) -> u128 {
    t.unwrap().duration_since(std::time::UNIX_EPOCH).unwrap().as_millis()
}

fn default_options_record() -> OptionsRecord {
    ((2, 5), 4, None, 100, true, "<*>".to_string(), vec![], vec![], false)
}

#[test]
fn round_trip_preserves_clusters_and_ids() {
    let mut m = miner();
    m.add("user 42 logged in");
    m.add("user 99 logged in");
    m.add("disk full on /dev/sda");
    let next_id_before = m.add("a brand new shape here").cluster_id;

    let bytes = m.snapshot();

    let mut m2 = miner();
    m2.restore(&bytes).unwrap();
    assert_eq!(m2.len(), m.len());

    // The generalized template survived.
    let id = m2.match_only("user 7 logged in").unwrap();
    assert_eq!(m2.cluster(id).unwrap().template(), "user <*> logged in");

    // Timestamps survive the round-trip (to millisecond precision).
    let before = m.cluster(id).unwrap();
    let after_c = m2.cluster(id).unwrap();
    assert_eq!(ms(before.created_at()), ms(after_c.created_at()));
    assert_eq!(ms(before.updated_at()), ms(after_c.updated_at()));
    assert!(ms(after_c.created_at()) > 0, "timestamp must be a real epoch-ms value");

    // Counter survived: the next new cluster id is strictly greater.
    let after = m2.add("yet another different shape entirely").cluster_id;
    assert!(after > next_id_before, "{after} !> {next_id_before}");
}

#[test]
fn bad_magic_is_rejected() {
    let mut m = miner();
    let err = m.restore(b"NOTMAGIC....").unwrap_err();
    assert!(matches!(err, LogdrainError::BadMagic));
}

#[test]
fn short_input_is_rejected() {
    let mut m = miner();
    assert!(m.restore(b"AB").is_err());
}

#[test]
fn future_version_is_rejected() {
    // MAGIC + version 999 + empty body.
    let mut bytes = MAGIC.to_vec();
    bytes.extend_from_slice(&999u32.to_le_bytes());
    let err = miner().restore(&bytes).unwrap_err();
    assert!(matches!(err, LogdrainError::UnsupportedSnapshotVersion { found: 999, .. }));
}

#[test]
fn older_version_is_rejected() {
    // A version-1 blob predates the readable layouts and is rejected.
    let mut bytes = MAGIC.to_vec();
    bytes.extend_from_slice(&1u32.to_le_bytes());
    let err = miner().restore(&bytes).unwrap_err();
    assert!(matches!(err, LogdrainError::UnsupportedSnapshotVersion { found: 1, .. }));
}

#[test]
fn reads_v2_snapshot_and_defaults_event_time_unset() {
    let tok = |t: &str| (t.to_string(), None::<char>, None::<char>);
    let cluster: ClusterRecordV2 = (1, vec![tok("user"), tok("<*>"), tok("in")], 3, 1000, 2000, None, vec![]);
    let body: SnapshotRecordV2 = (default_options_record(), 9, vec![cluster]);
    let mut bytes = MAGIC.to_vec();
    bytes.extend_from_slice(&2u32.to_le_bytes());
    bytes.extend_from_slice(&bincode::serialize(&body).unwrap());

    let mut m = miner();
    m.restore(&bytes).unwrap(); // v2 read succeeds
    assert_eq!(m.len(), 1);
    let id = m.match_only("user 7 in").unwrap();
    let c = m.cluster(id).unwrap();
    assert_eq!(c.template(), "user <*> in");
    assert!(c.event_first_seen().is_none()); // no event time in v2 -> unset
    // Counter survived: next id is greater than the restored counter.
    assert!(m.add("a totally different shape entirely now").cluster_id > 9);
}

#[test]
fn round_trip_preserves_suffix_and_members() {
    let build = || {
        Miner::from_options(
            MinerBuilder::new().path_delimiters(&['/']).first_line_only(true).build_options().unwrap(),
        )
    };
    let mut m = build();
    m.add_with_member("GET /servers/409/foo\ntrace line a\ntrace line b", "svc-a");
    m.add_with_member("GET /servers/410/foo\ntrace line c", "svc-b");

    let bytes = m.snapshot();
    let mut m2 = build();
    m2.restore(&bytes).unwrap();

    assert_eq!(m2.len(), 1);
    let id = m2.match_only("GET /servers/999/foo").unwrap();
    let c = m2.cluster(id).unwrap();
    assert_eq!(c.template(), "GET /servers/<*>/foo");
    // Suffix captured at creation (from the first line) survives.
    assert_eq!(c.suffix(), Some("trace line a\ntrace line b"));
    let members: Vec<&str> = c.members().iter().map(|m| m.as_str()).collect();
    assert_eq!(members, vec!["svc-a", "svc-b"]);
}

#[test]
fn encode_frames_magic_and_version() {
    let body: SnapshotRecord = (default_options_record(), 4, vec![]);
    let bytes = encode(&body);
    assert_eq!(&bytes[..8], MAGIC);
    assert_eq!(&bytes[8..12], &3u32.to_le_bytes());
    assert_eq!(&bytes[12..], &bincode::serialize(&body).unwrap()[..]);
    let back = decode(&bytes).unwrap();
    assert_eq!(back.1, 4);
    assert_eq!(back.0, default_options_record());
}

#[test]
fn truncated_body_is_a_decode_error() {
    let mut m = miner();
    m.add("one two three");
    let bytes = m.snapshot();
    let cut = &bytes[..bytes.len() - 3];
    let mut m2 = miner();
    m2.add("survives a failed restore");
    assert!(matches!(m2.restore(cut), Err(LogdrainError::Decode(_))));
    assert_eq!(m2.len(), 1);
}

#[test]
fn restore_keeps_event_time_and_sizes() {
    let mut m = miner();
    let a = m.add_at("job 1 done", 5_000);
    m.add_at("job 2 done", 9_000);
    let mut m2 = miner();
    m2.restore(&m.snapshot()).unwrap();
    let c = m2.cluster(a.cluster_id).unwrap();
    assert_eq!(c.size(), 2);
    assert_eq!(c.event_first_ms(), Some(5_000));
    assert_eq!(c.event_last_ms(), Some(9_000));
}
