//! Turning input records into miner input: the message and event time pulled from a JSON
//! record by dot-path, the mask list named on the command line, and the per-record
//! decision of what to add.
use vstd::prelude::*;

use crate::builtin_masks::{builtin_spec, by_name};
use crate::cluster::strings_view;
use crate::event_time::{parse_event_ms, spec_parse_event_ms, spec_trim, trim};
use crate::mask::{mask_views, regex_compiles, Mask, MaskView};
use crate::miner::{spec_observe, Miner, MinerView};

verus! {

/// The pieces of `s` between occurrences of `sep`, scanning from position `i` with the
/// current piece starting at `start`.
pub open spec fn split_from(s: Seq<char>, sep: char, i: int, start: int) -> Seq<Seq<char>>
    decreases s.len() - i,
{
    if i >= s.len() {
        seq![s.subrange(start, s.len() as int)]
    } else if s[i] == sep {
        seq![s.subrange(start, i)] + split_from(s, sep, i + 1, i + 1)
    } else {
        split_from(s, sep, i + 1, start)
    }
}

/// The pieces of `s` between occurrences of `sep` (one piece when `sep` does not occur).
pub open spec fn spec_split_on(s: Seq<char>, sep: char) -> Seq<Seq<char>> {
    split_from(s, sep, 0, 0)
}

/// `s` split on `sep`, like `str::split` with a char pattern.
pub fn split_on(s: &str, sep: char) -> (r: Vec<String>)
    ensures
        strings_view(r@) == spec_split_on(s@, sep),
{
    let cs = crate::tokenize::chars_of(s);
    let mut out: Vec<String> = Vec::new();
    let mut start: usize = 0;
    let mut i: usize = 0;
    while i < cs.len()
        invariant
            start <= i <= cs.len(),
            cs@ == s@,
            strings_view(out@) + split_from(s@, sep, i as int, start as int) == spec_split_on(s@, sep),
        decreases cs.len() - i,
    {
        if cs[i] == sep {
            let piece = s.substring_char(start, i).to_owned();
            let ghost before = out@;
            out.push(piece);
            assert(strings_view(out@) =~= strings_view(before).push(piece@));
            assert(strings_view(out@) + split_from(s@, sep, i + 1, i + 1) =~= strings_view(before)
                + split_from(s@, sep, i as int, start as int));
            start = i + 1;
        }
        i = i + 1;
    }
    let last = s.substring_char(start, cs.len()).to_owned();
    let ghost before = out@;
    out.push(last);
    assert(strings_view(out@) =~= strings_view(before).push(last@));
    assert(strings_view(out@) =~= strings_view(before) + split_from(s@, sep, i as int, start as int));
    out
}

/// The compact JSON text of member `key` of the JSON object `doc`, as serde_json parses
/// `doc` and prints the member, if `doc` parses and is an object with that member.
pub uninterp spec fn json_member(doc: Seq<char>, key: Seq<char>) -> Option<Seq<char>>;

/// What a JSON document is, as serde_json reads it: not JSON at all, `null`, a string
/// (with its contents), or another value (with its compact JSON text).
pub enum JsonScalar {
    Invalid,
    Null,
    Str(String),
    Other(String),
}

/// The mathematical form of a [`JsonScalar`].
pub enum JsonScalarView {
    Invalid,
    Null,
    Str(Seq<char>),
    Other(Seq<char>),
}

impl View for JsonScalar {
    type V = JsonScalarView;

    open spec fn view(&self) -> JsonScalarView {
        match self {
            JsonScalar::Invalid => JsonScalarView::Invalid,
            JsonScalar::Null => JsonScalarView::Null,
            JsonScalar::Str(s) => JsonScalarView::Str(s@),
            JsonScalar::Other(t) => JsonScalarView::Other(t@),
        }
    }
}

/// How serde_json reads `doc`: as an error, `null`, a string's contents, or the compact
/// JSON text of a boolean, number, array or object.
pub uninterp spec fn json_scalar(doc: Seq<char>) -> JsonScalarView;

/// serde_json: parse `doc` as a JSON value, look up `key` with `Value::get`, and print
/// the member compactly.
#[verifier::external_body]
fn json_member_text(doc: &str, key: &str) -> (r: Option<String>)
    ensures
        match r {
            Some(t) => json_member(doc@, key@) == Some(t@),
            None => json_member(doc@, key@) is None,
        },
{
    match serde_json::from_str::<serde_json::Value>(doc) {
        Ok(v) => v.get(key).map(|m| m.to_string()),
        Err(_) => None,
    }
}

/// serde_json: parse `doc` as a JSON value and tell its variants apart; a string keeps
/// its contents, and a boolean, number, array or object is printed compactly.
#[verifier::external_body]
fn json_scalar_text(doc: &str) -> (r: JsonScalar)
    ensures
        r@ == json_scalar(doc@),
{
    match serde_json::from_str::<serde_json::Value>(doc) {
        Err(_) => JsonScalar::Invalid,
        Ok(serde_json::Value::Null) => JsonScalar::Null,
        Ok(serde_json::Value::String(s)) => JsonScalar::Str(s),
        Ok(v @ serde_json::Value::Bool(_)) => JsonScalar::Other(v.to_string()),
        Ok(v @ serde_json::Value::Number(_)) => JsonScalar::Other(v.to_string()),
        Ok(v @ serde_json::Value::Array(_)) => JsonScalar::Other(v.to_string()),
        Ok(v @ serde_json::Value::Object(_)) => JsonScalar::Other(v.to_string()),
    }
}

/// The text a field stands for: a string's contents unquoted, nothing for `null` or for
/// what is not JSON, and the compact JSON text of any other value.
pub open spec fn field_text(v: JsonScalarView) -> Option<Seq<char>> {
    match v {
        JsonScalarView::Invalid => None,
        JsonScalarView::Null => None,
        JsonScalarView::Str(s) => Some(s),
        JsonScalarView::Other(t) => Some(t),
    }
}

/// The text of a field value, as [`field_text`] says.
pub fn scalar_field_text(v: JsonScalar) -> (r: Option<String>)
    ensures
        match r {
            Some(t) => field_text(v@) == Some(t@),
            None => field_text(v@) is None,
        },
{
    match v {
        JsonScalar::Invalid => None,
        JsonScalar::Null => None,
        JsonScalar::Str(s) => Some(s),
        JsonScalar::Other(t) => Some(t),
    }
}

/// The JSON text reached from `doc` by looking up `keys` in turn, if every key is found.
pub open spec fn json_path(doc: Seq<char>, keys: Seq<Seq<char>>) -> Option<Seq<char>>
    decreases keys.len(),
{
    if keys.len() == 0 {
        Some(doc)
    } else {
        match json_path(doc, keys.drop_last()) {
            Some(d) => json_member(d, keys.last()),
            None => None,
        }
    }
}

/// The field at dot-path `path` of the JSON line `line`.
pub open spec fn spec_extract_field(line: Seq<char>, path: Seq<char>) -> Option<Seq<char>> {
    match json_path(line, spec_split_on(path, '.')) {
        Some(d) => field_text(json_scalar(d)),
        None => None,
    }
}

/// Extract a dot-path field from a JSON line. Returns `None` if the line is not valid
/// JSON or the path is absent. String values are returned unquoted; `null` is absent;
/// other JSON values are returned in their compact JSON form.
pub fn extract_field(line: &str, path: &str) -> (r: Option<String>)
    ensures
        match r {
            Some(t) => spec_extract_field(line@, path@) == Some(t@),
            None => spec_extract_field(line@, path@) is None,
        },
{
    let keys = split_on(path, '.');
    let ghost ks = strings_view(keys@);
    let mut cur = line.to_owned();
    let mut i: usize = 0;
    assert(ks.take(0) =~= Seq::<Seq<char>>::empty());
    while i < keys.len()
        invariant
            i <= keys.len(),
            ks == strings_view(keys@),
            ks == spec_split_on(path@, '.'),
            json_path(line@, ks.take(i as int)) == Some(cur@),
        decreases keys.len() - i,
    {
        assert(ks.take(i + 1).drop_last() =~= ks.take(i as int));
        assert(ks.take(i + 1).last() == keys@[i as int]@);
        match json_member_text(cur.as_str(), keys[i].as_str()) {
            Some(next) => {
                cur = next;
            },
            None => {
                proof {
                    lemma_json_path_none(line@, ks, i as int + 1);
                }
                return None;
            },
        }
        i = i + 1;
    }
    assert(ks.take(keys.len() as int) =~= ks);
    scalar_field_text(json_scalar_text(cur.as_str()))
}

/// Once a key is missing, the longer path is missing too.
proof fn lemma_json_path_none(doc: Seq<char>, ks: Seq<Seq<char>>, k: int)
    requires
        0 <= k <= ks.len(),
        json_path(doc, ks.take(k)) is None,
    ensures
        json_path(doc, ks) is None,
    decreases ks.len() - k,
{
    if k < ks.len() {
        assert(ks.take(k + 1).drop_last() =~= ks.take(k));
        lemma_json_path_none(doc, ks, k + 1);
    } else {
        assert(ks.take(k) =~= ks);
    }
}

/// The message for an unknown mask name.
pub open spec fn unknown_mask_message(name: Seq<char>) -> Seq<char> {
    "unknown mask '"@ + name + "' (known: uuid, hex32, email, ipv4, jwt)"@
}

/// The masks a comma-separated list of names gives: names are trimmed, empty ones are
/// skipped, and the first unknown name is an error.
pub open spec fn masks_of(pieces: Seq<Seq<char>>) -> Result<Seq<MaskView>, Seq<char>>
    decreases pieces.len(),
{
    if pieces.len() == 0 {
        Ok(Seq::empty())
    } else {
        match masks_of(pieces.drop_last()) {
            Err(e) => Err(e),
            Ok(ms) => {
                let n = spec_trim(pieces.last());
                if n.len() == 0 {
                    Ok(ms)
                } else {
                    match builtin_spec(n) {
                        Some((p, ph)) => if regex_compiles(p) {
                            Ok(ms.push(MaskView { pattern: p, placeholder: ph }))
                        } else {
                            Err(unknown_mask_message(n))
                        },
                        None => Err(unknown_mask_message(n)),
                    }
                }
            },
        }
    }
}

/// The built-in masks named in a comma-separated list, e.g. `uuid, ipv4`.
pub fn build_masks(spec: &str) -> (r: Result<Vec<Mask>, String>)
    ensures
        match masks_of(spec_split_on(spec@, ',')) {
            Ok(ms) => r matches Ok(v) && mask_views(v@) == ms,
            Err(msg) => r matches Err(m) && m@ == msg,
        },
{
    let pieces = split_on(spec, ',');
    let ghost ps = strings_view(pieces@);
    let mut out: Vec<Mask> = Vec::new();
    let mut i: usize = 0;
    assert(ps.take(0) =~= Seq::<Seq<char>>::empty());
    assert(mask_views(out@) =~= Seq::<MaskView>::empty());
    while i < pieces.len()
        invariant
            i <= pieces.len(),
            ps == strings_view(pieces@),
            ps == spec_split_on(spec@, ','),
            masks_of(ps.take(i as int)) == Ok::<Seq<MaskView>, Seq<char>>(mask_views(out@)),
        decreases pieces.len() - i,
    {
        let ghost t = ps.take(i + 1);
        assert(t.drop_last() =~= ps.take(i as int));
        assert(t.last() == pieces@[i as int]@);
        let name = trim(pieces[i].as_str());
        if !name.is_empty() {
            match by_name(name) {
                Some(m) => {
                    let ghost before = out@;
                    out.push(m);
                    assert(mask_views(out@) =~= mask_views(before).push(m@));
                },
                None => {
                    let mut msg = "unknown mask '".to_owned();
                    msg.append(name);
                    msg.append("' (known: uuid, hex32, email, ipv4, jwt)");
                    proof {
                        lemma_masks_of_err(ps, i as int + 1, unknown_mask_message(name@));
                    }
                    return Err(msg);
                },
            }
        }
        i = i + 1;
    }
    assert(ps.take(pieces.len() as int) =~= ps);
    Ok(out)
}

/// Once a prefix of the list fails, the whole list fails the same way.
proof fn lemma_masks_of_err(ps: Seq<Seq<char>>, k: int, e: Seq<char>)
    requires
        0 <= k <= ps.len(),
        masks_of(ps.take(k)) == Err::<Seq<MaskView>, Seq<char>>(e),
    ensures
        masks_of(ps) == Err::<Seq<MaskView>, Seq<char>>(e),
    decreases ps.len() - k,
{
    if k < ps.len() {
        assert(ps.take(k + 1).drop_last() =~= ps.take(k));
        lemma_masks_of_err(ps, k + 1, e);
    } else {
        assert(ps.take(k) =~= ps);
    }
}

/// The view of an optional string.
pub open spec fn opt_view(o: Option<String>) -> Option<Seq<char>> {
    crate::cluster::opt_string_view(o)
}

/// The event time of a record: with a time key, its field parsed as a timestamp (in the
/// given format, if any); without one, none.
pub open spec fn spec_record_event_ms(
    time_key: Option<Seq<char>>,
    time_format: Option<Seq<char>>,
    record: Seq<char>,
) -> Option<u64> {
    match time_key {
        Some(tk) => match spec_extract_field(record, tk) {
            Some(v) => spec_parse_event_ms(v, time_format),
            None => None,
        },
        None => None,
    }
}

/// The message a record gives: its key field when a key is set, else the record itself
/// unless it is blank.
pub open spec fn spec_record_message(key: Option<Seq<char>>, record: Seq<char>) -> Option<Seq<char>> {
    match key {
        Some(k) => spec_extract_field(record, k),
        None => if spec_trim(record).len() > 0 {
            Some(record)
        } else {
            None
        },
    }
}

/// Whether miner state `m1` follows from `m0` by adding message `msg` (if any) with
/// event time `ev`, at some wall-clock time.
pub open spec fn fed(m0: MinerView, m1: MinerView, msg: Option<Seq<char>>, ev: Option<u64>) -> bool {
    match msg {
        Some(t) => exists|now: u64| #[trigger] spec_observe(m0, t, None, ev, now).0 == m1,
        None => m1 == m0,
    }
}

/// How records are read: the JSON field holding the message (else the record is the
/// message), the JSON field holding the event time and its format, and how many records
/// had a time key value that was missing or did not parse.
pub struct Ingestor {
    key: Option<String>,
    time_key: Option<String>,
    time_format: Option<String>,
    time_parse_failures: u64,
}

impl Ingestor {
    /// The message key.
    pub closed spec fn key_view(&self) -> Option<Seq<char>> {
        opt_view(self.key)
    }

    /// The time key.
    pub closed spec fn time_key_view(&self) -> Option<Seq<char>> {
        opt_view(self.time_key)
    }

    /// The time format.
    pub closed spec fn time_format_view(&self) -> Option<Seq<char>> {
        opt_view(self.time_format)
    }

    /// The failure count.
    pub closed spec fn failures(&self) -> u64 {
        self.time_parse_failures
    }

    /// An ingestor with no failures counted yet.
    pub fn new(key: Option<String>, time_key: Option<String>, time_format: Option<String>) -> (r:
        Ingestor)
        ensures
            r.key_view() == opt_view(key),
            r.time_key_view() == opt_view(time_key),
            r.time_format_view() == opt_view(time_format),
            r.failures() == 0,
    {
        Ingestor { key, time_key, time_format, time_parse_failures: 0 }
    }

    /// How many records had a missing or unparsable time key value.
    pub fn time_parse_failures(&self) -> (r: u64)
        ensures
            r == self.failures(),
    {
        self.time_parse_failures
    }

    /// Event timestamp for a record, or `None`. Counts a failure when a time key is set
    /// but the field is missing or unparseable; silent when it is unset.
    pub fn event_ms(&mut self, record: &str) -> (r: Option<u64>)
        requires
            old(self).failures() < u64::MAX,
        ensures
            r == spec_record_event_ms(old(self).time_key_view(), old(self).time_format_view(), record@),
            final(self).key_view() == old(self).key_view(),
            final(self).time_key_view() == old(self).time_key_view(),
            final(self).time_format_view() == old(self).time_format_view(),
            final(self).failures() == old(self).failures() + if old(self).time_key_view() is Some
                && r is None {
                1int
            } else {
                0int
            },
    {
        let tk = match &self.time_key {
            Some(k) => k,
            None => return None,
        };
        let fmt: Option<&str> = match &self.time_format {
            Some(f) => Some(f.as_str()),
            None => None,
        };
        let parsed = match extract_field(record, tk.as_str()) {
            Some(v) => parse_event_ms(v.as_str(), fmt),
            None => None,
        };
        if parsed.is_none() {
            self.time_parse_failures = self.time_parse_failures + 1;
        }
        parsed
    }

    /// Feed one complete record to the miner: extract the message (key) and the event
    /// time (time key), and add.
    pub fn feed(&mut self, miner: &mut Miner, record: &str)
        requires
            old(self).failures() < u64::MAX,
            old(miner).wf(),
        ensures
            final(miner).wf(),
            final(self).key_view() == old(self).key_view(),
            final(self).time_key_view() == old(self).time_key_view(),
            final(self).time_format_view() == old(self).time_format_view(),
            final(self).failures() == old(self).failures() + if old(self).time_key_view() is Some
                && spec_record_event_ms(
                old(self).time_key_view(),
                old(self).time_format_view(),
                record@,
            ) is None {
                1int
            } else {
                0int
            },
            fed(
                old(miner)@,
                final(miner)@,
                spec_record_message(old(self).key_view(), record@),
                spec_record_event_ms(old(self).time_key_view(), old(self).time_format_view(), record@),
            ),
    {
        let ghost m0 = miner@;
        let event_ms = self.event_ms(record);
        match &self.key {
            Some(k) => {
                match extract_field(record, k.as_str()) {
                    Some(msg) => {
                        add_message(miner, msg.as_str(), event_ms);
                        proof {
                            let now = choose|now: u64|
                                #[trigger] spec_observe(m0, msg@, None, event_ms, now).0 == miner@;
                            assert(spec_record_message(old(self).key_view(), record@) == Some(msg@));
                            assert(spec_observe(m0, msg@, None, event_ms, now).0 == miner@);
                            let o = Some(msg@);
                            assert(spec_observe(m0, o->0, None, event_ms, now).0 == miner@);
                            assert(fed(m0, miner@, o, event_ms));
                        }
                    },
                    None => {},
                }
            },
            None => {
                if !trim(record).is_empty() {
                    add_message(miner, record, event_ms);
                    proof {
                        let now = choose|now: u64|
                            #[trigger] spec_observe(m0, record@, None, event_ms, now).0 == miner@;
                        assert(spec_record_message(old(self).key_view(), record@) == Some(record@));
                        assert(spec_observe(m0, record@, None, event_ms, now).0 == miner@);
                        let o = Some(record@);
                        assert(spec_observe(m0, o->0, None, event_ms, now).0 == miner@);
                        assert(fed(m0, miner@, o, event_ms));
                    }
                }
            },
        }
    }
}

/// Add a message, with its event time when there is one.
fn add_message(miner: &mut Miner, msg: &str, event_ms: Option<u64>)
    requires
        old(miner).wf(),
    ensures
        final(miner).wf(),
        exists|now: u64| #[trigger] spec_observe(old(miner)@, msg@, None, event_ms, now).0 == final(miner)@,
{
    let ghost m0 = miner@;
    let r = match event_ms {
        Some(ms) => miner.add_at(msg, ms),
        None => miner.add(msg),
    };
    proof {
        let now = choose|now: u64| #[trigger] spec_observe(m0, msg@, None, event_ms, now) == (miner@, r);
        assert(spec_observe(m0, msg@, None, event_ms, now).0 == miner@);
    }
}

} // verus!
