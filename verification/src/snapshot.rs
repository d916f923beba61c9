//! Snapshot format: `MAGIC + VERSION + bincode(body)`. The tree is not serialized; it
//! is rebuilt by replaying clusters on restore. The body is a nested tuple of plain
//! values, laid out field by field like the records it stands for.
use vstd::prelude::*;

use crate::cluster::{opt_string_view, strings_view, EVENT_UNSET};
use crate::error::LogdrainError;
use crate::options::Ratio;
use crate::tokenize::TokenView;

verus! {

/// Current snapshot version. Version 3 carries the event-time fields; version 2 is read
/// and upgraded (event time unset); anything else is rejected.
pub const VERSION: u32 = 3;

/// The 8-byte magic, `LOGDRAIN` in ASCII.
pub open spec fn magic() -> Seq<u8> {
    seq![76u8, 79u8, 71u8, 68u8, 82u8, 65u8, 73u8, 78u8]
}

/// A serialized token: text, leading delimiter, trailing delimiter.
pub type TokenRecord = (String, Option<char>, Option<char>);

/// A serialized cluster: id, tokens, size, created-at ms, updated-at ms, first event ms
/// (or the unset sentinel), last event ms, suffix, members.
pub type ClusterRecord = (
    u64,
    Vec<TokenRecord>,
    u64,
    u64,
    u64,
    u64,
    u64,
    Option<String>,
    Vec<String>,
);

/// A version-2 serialized cluster: as [`ClusterRecord`] without the event-time fields.
pub type ClusterRecordV2 = (u64, Vec<TokenRecord>, u64, u64, u64, Option<String>, Vec<String>);

/// Serialized options: threshold, depth, global cap, per-leaf cap, numeric
/// parametrization, wildcard, path delimiters, first-line path delimiters, first-line
/// mode. Masks are not serialized.
pub type OptionsRecord = (
    (i64, u64),
    usize,
    Option<usize>,
    usize,
    bool,
    String,
    Vec<char>,
    Vec<char>,
    bool,
);

/// A snapshot body: options, id counter, clusters.
pub type SnapshotRecord = (OptionsRecord, u64, Vec<ClusterRecord>);

/// A version-2 snapshot body.
pub type SnapshotRecordV2 = (OptionsRecord, u64, Vec<ClusterRecordV2>);

/// What serialized options are, as plain values.
pub struct OptionsRecordView {
    pub sim_threshold: Ratio,
    pub depth: usize,
    pub max_clusters: Option<usize>,
    pub max_clusters_per_leaf: usize,
    pub parametrize_numeric_tokens: bool,
    pub wildcard: Seq<char>,
    pub path_delimiters: Seq<char>,
    pub first_line_path_delimiters: Seq<char>,
    pub first_line_only: bool,
}

/// What a serialized cluster is, as plain values.
pub struct ClusterRecordView {
    pub id: u64,
    pub tokens: Seq<TokenView>,
    pub size: u64,
    pub created_at_ms: u64,
    pub updated_at_ms: u64,
    pub event_first_ms: u64,
    pub event_last_ms: u64,
    pub suffix: Option<Seq<char>>,
    pub members: Seq<Seq<char>>,
}

/// What a snapshot body is, as plain values.
pub struct SnapshotView {
    pub options: OptionsRecordView,
    pub counter: u64,
    pub clusters: Seq<ClusterRecordView>,
}

/// What a version-2 snapshot body is, as plain values (event time absent).
pub struct SnapshotViewV2 {
    pub options: OptionsRecordView,
    pub counter: u64,
    pub clusters: Seq<ClusterRecordView>,
}

/// The bytes `bincode::serialize` produces for a snapshot body.
pub uninterp spec fn bincode_snapshot_bytes(b: SnapshotView) -> Seq<u8>;

/// What `bincode::deserialize` reads from `bytes` as a snapshot body: the body, or the
/// message of the error it reports.
pub uninterp spec fn bincode_snapshot_decode(bytes: Seq<u8>) -> Result<SnapshotView, Seq<char>>;

/// What `bincode::deserialize` reads from `bytes` as a version-2 snapshot body (its
/// clusters carry no event time: those fields read as the unset sentinel and 0), or the
/// message of the error it reports.
pub uninterp spec fn bincode_snapshot_v2_decode(bytes: Seq<u8>) -> Result<
    SnapshotViewV2,
    Seq<char>,
>;

/// The view of a token record.
pub open spec fn token_record_view(t: TokenRecord) -> TokenView {
    TokenView { text: t.0@, leading: t.1, trailing: t.2 }
}

/// The view of token records.
pub open spec fn token_records_view(ts: Seq<TokenRecord>) -> Seq<TokenView> {
    ts.map_values(|t: TokenRecord| token_record_view(t))
}

/// The view of a cluster record.
pub open spec fn cluster_record_view(c: ClusterRecord) -> ClusterRecordView {
    ClusterRecordView {
        id: c.0,
        tokens: token_records_view(c.1@),
        size: c.2,
        created_at_ms: c.3,
        updated_at_ms: c.4,
        event_first_ms: c.5,
        event_last_ms: c.6,
        suffix: opt_string_view(c.7),
        members: strings_view(c.8@),
    }
}

/// The view of a version-2 cluster record.
pub open spec fn cluster_record_v2_view(c: ClusterRecordV2) -> ClusterRecordView {
    ClusterRecordView {
        id: c.0,
        tokens: token_records_view(c.1@),
        size: c.2,
        created_at_ms: c.3,
        updated_at_ms: c.4,
        event_first_ms: EVENT_UNSET,
        event_last_ms: 0,
        suffix: opt_string_view(c.5),
        members: strings_view(c.6@),
    }
}

/// The view of an options record.
pub open spec fn options_record_view(o: OptionsRecord) -> OptionsRecordView {
    OptionsRecordView {
        sim_threshold: Ratio { num: o.0.0, den: o.0.1 },
        depth: o.1,
        max_clusters: o.2,
        max_clusters_per_leaf: o.3,
        parametrize_numeric_tokens: o.4,
        wildcard: o.5@,
        path_delimiters: o.6@,
        first_line_path_delimiters: o.7@,
        first_line_only: o.8,
    }
}

/// The view of a snapshot body.
pub open spec fn record_view(b: SnapshotRecord) -> SnapshotView {
    SnapshotView {
        options: options_record_view(b.0),
        counter: b.1,
        clusters: b.2@.map_values(|c: ClusterRecord| cluster_record_view(c)),
    }
}

/// The view of a version-2 snapshot body.
pub open spec fn record_v2_view(b: SnapshotRecordV2) -> SnapshotViewV2 {
    SnapshotViewV2 {
        options: options_record_view(b.0),
        counter: b.1,
        clusters: b.2@.map_values(|c: ClusterRecordV2| cluster_record_v2_view(c)),
    }
}

/// `bincode::serialize` of a snapshot body. Serializing these std types cannot fail, and
/// `bincode::deserialize` reads the same body back from the bytes.
#[verifier::external_body]
fn bincode_encode(body: &SnapshotRecord) -> (r: Vec<u8>)
    ensures
        r@ == bincode_snapshot_bytes(record_view(*body)),
        bincode_snapshot_decode(r@) is Ok,
        bincode_snapshot_decode(r@)->Ok_0 == record_view(*body),
{
    match bincode::serialize(body) {
        Ok(bytes) => bytes,
        Err(_) => Vec::new(),
    }
}

/// `bincode::deserialize` of a snapshot body; the error becomes its message, as the
/// error's `Display` prints it.
#[verifier::external_body]
fn bincode_decode(payload: &[u8]) -> (r: Result<SnapshotRecord, String>)
    ensures
        match r {
            Ok(b) => bincode_snapshot_decode(payload@) is Ok && bincode_snapshot_decode(payload@)->Ok_0
                == record_view(b),
            Err(m) => bincode_snapshot_decode(payload@) is Err && bincode_snapshot_decode(payload@)->Err_0 == m@,
        },
{
    bincode::deserialize(payload).map_err(|e| e.to_string())
}

/// `bincode::deserialize` of a version-2 snapshot body; the error becomes its message.
#[verifier::external_body]
fn bincode_decode_v2(payload: &[u8]) -> (r: Result<SnapshotRecordV2, String>)
    ensures
        match r {
            Ok(b) => bincode_snapshot_v2_decode(payload@) is Ok && bincode_snapshot_v2_decode(payload@)->Ok_0
                == record_v2_view(b),
            Err(m) => bincode_snapshot_v2_decode(payload@) is Err && bincode_snapshot_v2_decode(payload@)->Err_0 == m@,
        },
{
    bincode::deserialize(payload).map_err(|e| e.to_string())
}

/// The little-endian bytes of a `u32`.
pub open spec fn le_u32_bytes(v: u32) -> Seq<u8> {
    seq![
        (v % 256) as u8,
        ((v / 256) % 256) as u8,
        ((v / 65536) % 256) as u8,
        ((v / 16777216) % 256) as u8,
    ]
}

/// The `u32` whose little-endian bytes are `b[0..4]`.
pub open spec fn le_u32_value(b: Seq<u8>) -> u32 {
    (b[0] + 256 * b[1] + 65536 * b[2] + 16777216 * b[3]) as u32
}

/// A framed snapshot: magic, version, body bytes.
pub open spec fn frame(payload: Seq<u8>) -> Seq<u8> {
    magic() + le_u32_bytes(VERSION) + payload
}

/// A framed payload that decodes as a current body reads back as that body.
pub proof fn lemma_decode_frame(p: Seq<u8>)
    requires
        bincode_snapshot_decode(p) is Ok,
    ensures
        spec_decode(frame(p)) == DecodeOutcome::Body(bincode_snapshot_decode(p)->Ok_0),
{
    let f = frame(p);
    assert(f.take(8) =~= magic());
    assert(f.subrange(8, 12) =~= le_u32_bytes(VERSION));
    assert(f.skip(12) =~= p);
}

/// Encode a body with the magic + version header.
pub fn encode(body: &SnapshotRecord) -> (r: Vec<u8>)
    ensures
        r@ == frame(bincode_snapshot_bytes(record_view(*body))),
        spec_decode(r@) == DecodeOutcome::Body(record_view(*body)),
{
    let mut out: Vec<u8> = Vec::new();
    out.push(76u8);
    out.push(79u8);
    out.push(71u8);
    out.push(68u8);
    out.push(82u8);
    out.push(65u8);
    out.push(73u8);
    out.push(78u8);
    out.push(3u8);
    out.push(0u8);
    out.push(0u8);
    out.push(0u8);
    let payload = bincode_encode(body);
    let ghost head = out@;
    let mut i: usize = 0;
    while i < payload.len()
        invariant
            i <= payload.len(),
            head.len() == 12,
            out@ == head + payload@.take(i as int),
        decreases payload.len() - i,
    {
        out.push(payload[i]);
        assert(payload@.take(i + 1) =~= payload@.take(i as int).push(payload@[i as int]));
        i = i + 1;
    }
    assert(payload@.take(payload.len() as int) =~= payload@);
    assert(head =~= magic() + le_u32_bytes(VERSION));
    assert(out@.skip(12) =~= payload@);
    proof {
        lemma_decode_frame(payload@);
    }
    out
}

/// What reading a snapshot gives.
pub enum DecodeOutcome {
    /// A current body (a version-2 body is upgraded to one).
    Body(SnapshotView),
    /// Too short, or not starting with the magic.
    BadMagic,
    /// A version this build does not read.
    Unsupported(u32),
    /// The body bytes do not decode; the message bincode gives.
    Corrupt(Seq<char>),
}

/// Upgrade a version-2 body: its clusters already read as having no event time.
pub open spec fn upgrade_view(b: SnapshotViewV2) -> SnapshotView {
    SnapshotView { options: b.options, counter: b.counter, clusters: b.clusters }
}

/// What reading `bytes` as a snapshot gives.
pub open spec fn spec_decode(bytes: Seq<u8>) -> DecodeOutcome {
    if bytes.len() < 12 || bytes.take(8) != magic() {
        DecodeOutcome::BadMagic
    } else {
        let found = le_u32_value(bytes.subrange(8, 12));
        let payload = bytes.skip(12);
        if found == VERSION {
            match bincode_snapshot_decode(payload) {
                Ok(b) => DecodeOutcome::Body(b),
                Err(m) => DecodeOutcome::Corrupt(m),
            }
        } else if found == 2 {
            match bincode_snapshot_v2_decode(payload) {
                Ok(b) => DecodeOutcome::Body(upgrade_view(b)),
                Err(m) => DecodeOutcome::Corrupt(m),
            }
        } else {
            DecodeOutcome::Unsupported(found)
        }
    }
}

/// A copy of token records.
pub fn copy_token_records(ts: &[TokenRecord]) -> (r: Vec<TokenRecord>)
    ensures
        token_records_view(r@) == token_records_view(ts@),
{
    let mut r: Vec<TokenRecord> = Vec::new();
    let mut i: usize = 0;
    while i < ts.len()
        invariant
            i <= ts.len(),
            token_records_view(r@) == token_records_view(ts@).take(i as int),
        decreases ts.len() - i,
    {
        let t: TokenRecord = (ts[i].0.clone(), ts[i].1, ts[i].2);
        let ghost prev = r@;
        r.push(t);
        assert(token_records_view(r@) =~= token_records_view(prev).push(token_record_view(t)));
        assert(token_records_view(ts@).take(i + 1) =~= token_records_view(ts@).take(i as int).push(
            token_record_view(ts@[i as int]),
        ));
        i = i + 1;
    }
    assert(token_records_view(ts@).take(ts.len() as int) =~= token_records_view(ts@));
    r
}

/// Upgrade a version-2 body to the current layout, defaulting event time to unset.
pub fn upgrade(b: &SnapshotRecordV2) -> (r: SnapshotRecord)
    ensures
        record_view(r) == upgrade_view(record_v2_view(*b)),
{
    let o = &b.0;
    let options: OptionsRecord = (
        o.0,
        o.1,
        o.2,
        o.3,
        o.4,
        o.5.clone(),
        vstd::slice::slice_to_vec(o.6.as_slice()),
        vstd::slice::slice_to_vec(o.7.as_slice()),
        o.8,
    );
    let ghost src = b.2@.map_values(|c: ClusterRecordV2| cluster_record_v2_view(c));
    let mut out: Vec<ClusterRecord> = Vec::new();
    let mut i: usize = 0;
    while i < b.2.len()
        invariant
            i <= b.2.len(),
            src == b.2@.map_values(|c: ClusterRecordV2| cluster_record_v2_view(c)),
            out@.map_values(|c: ClusterRecord| cluster_record_view(c)) == src.take(i as int),
        decreases b.2.len() - i,
    {
        let c = &b.2[i];
        let rec: ClusterRecord = (
            c.0,
            copy_token_records(c.1.as_slice()),
            c.2,
            c.3,
            c.4,
            EVENT_UNSET,
            0,
            crate::cluster::copy_opt_string(&c.5),
            crate::cluster::copy_strings(c.6.as_slice()),
        );
        let ghost prev = out@;
        out.push(rec);
        assert(out@.map_values(|c: ClusterRecord| cluster_record_view(c)) =~= prev.map_values(
            |c: ClusterRecord| cluster_record_view(c),
        ).push(cluster_record_view(rec)));
        assert(src.take(i + 1) =~= src.take(i as int).push(src[i as int]));
        i = i + 1;
    }
    assert(src.take(b.2.len() as int) =~= src);
    (options, b.1, out)
}

/// Validate the header and decode the body.
pub fn decode(bytes: &[u8]) -> (r: Result<SnapshotRecord, LogdrainError>)
    ensures
        match spec_decode(bytes@) {
            DecodeOutcome::Body(b) => r matches Ok(x) && record_view(x) == b,
            DecodeOutcome::BadMagic => r matches Err(LogdrainError::BadMagic),
            DecodeOutcome::Unsupported(v) => r matches Err(
                LogdrainError::UnsupportedSnapshotVersion { found, max },
            ) && found == v && max == VERSION,
            DecodeOutcome::Corrupt(msg) => r matches Err(LogdrainError::Decode(m)) && m@ == msg,
        },
{
    if bytes.len() < 12 {
        return Err(LogdrainError::BadMagic);
    }
    let m = bytes[0] == 76u8 && bytes[1] == 79u8 && bytes[2] == 71u8 && bytes[3] == 68u8
        && bytes[4] == 82u8 && bytes[5] == 65u8 && bytes[6] == 73u8 && bytes[7] == 78u8;
    if !m {
        proof {
            if bytes@.take(8) == magic() {
                assert(bytes@.take(8)[0] == 76u8);
                assert(bytes@.take(8)[1] == 79u8);
                assert(bytes@.take(8)[2] == 71u8);
                assert(bytes@.take(8)[3] == 68u8);
                assert(bytes@.take(8)[4] == 82u8);
                assert(bytes@.take(8)[5] == 65u8);
                assert(bytes@.take(8)[6] == 73u8);
                assert(bytes@.take(8)[7] == 78u8);
            }
        }
        return Err(LogdrainError::BadMagic);
    }
    assert(bytes@.take(8) =~= magic());
    let found: u32 = (bytes[8] as u32) + 256 * (bytes[9] as u32) + 65536 * (bytes[10] as u32)
        + 16777216 * (bytes[11] as u32);
    assert(found == le_u32_value(bytes@.subrange(8, 12)));
    let payload = vstd::slice::slice_subrange(bytes, 12, bytes.len());
    assert(payload@ =~= bytes@.skip(12));
    if found == VERSION {
        match bincode_decode(payload) {
            Ok(b) => Ok(b),
            Err(msg) => Err(LogdrainError::Decode(msg)),
        }
    } else if found == 2 {
        match bincode_decode_v2(payload) {
            Ok(b) => Ok(upgrade(&b)),
            Err(msg) => Err(LogdrainError::Decode(msg)),
        }
    } else {
        Err(LogdrainError::UnsupportedSnapshotVersion { found, max: VERSION })
    }
}

} // verus!
