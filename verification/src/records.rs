//! Assembling input records from a stream: the record separator given on the command
//! line (with its escapes), splitting a byte stream on that separator, and grouping
//! continuation lines under the line that starts a record.
use vstd::prelude::*;

use crate::mask::{mask_is_match, regex_is_match_result, Mask};
use crate::text::string_push;
use crate::tokenize::chars_of;

verus! {

/// What an escape `\c` stands for: `\n \r \t \0 \\` are interpreted, any other `c` is
/// kept with its backslash.
pub open spec fn escape_of(c: char) -> Seq<char> {
    if c == 'n' {
        seq!['\n']
    } else if c == 'r' {
        seq!['\r']
    } else if c == 't' {
        seq!['\t']
    } else if c == '0' {
        seq!['\0']
    } else if c == '\\' {
        seq!['\\']
    } else {
        seq!['\\', c]
    }
}

/// `s` with its escapes interpreted; a lone trailing backslash is kept.
pub open spec fn spec_unescape(s: Seq<char>) -> Seq<char>
    decreases s.len(),
{
    if s.len() == 0 {
        Seq::empty()
    } else if s[0] != '\\' {
        seq![s[0]] + spec_unescape(s.skip(1))
    } else if s.len() == 1 {
        seq!['\\']
    } else {
        escape_of(s[1]) + spec_unescape(s.skip(2))
    }
}

fn push_escape(out: &mut String, c: char)
    ensures
        final(out)@ == old(out)@ + escape_of(c),
{
    if c == 'n' {
        string_push(out, '\n');
    } else if c == 'r' {
        string_push(out, '\r');
    } else if c == 't' {
        string_push(out, '\t');
    } else if c == '0' {
        string_push(out, '\0');
    } else if c == '\\' {
        string_push(out, '\\');
    } else {
        string_push(out, '\\');
        string_push(out, c);
        assert(final(out)@ =~= old(out)@ + escape_of(c));
        return;
    }
    assert(final(out)@ =~= old(out)@ + escape_of(c));
}

/// Interpret the common backslash escapes in a user-supplied separator so values like
/// `\n\n` or `\0` can be passed as plain argv text.
pub fn unescape(s: &str) -> (r: String)
    ensures
        r@ == spec_unescape(s@),
{
    let cs = chars_of(s);
    let mut out = String::new();
    assert(out@ + spec_unescape(cs@.skip(0)) =~= spec_unescape(s@)) by {
        assert(cs@.skip(0) =~= s@);
    }
    let mut i: usize = 0;
    while i < cs.len()
        invariant
            i <= cs.len(),
            cs@ == s@,
            out@ + spec_unescape(cs@.skip(i as int)) == spec_unescape(s@),
        decreases cs.len() - i,
    {
        let ghost rest = cs@.skip(i as int);
        let c = cs[i];
        if c != '\\' {
            string_push(&mut out, c);
            assert(rest.skip(1) =~= cs@.skip(i + 1));
            assert(out@ + spec_unescape(cs@.skip(i + 1)) =~= spec_unescape(s@));
            i = i + 1;
        } else if i + 1 == cs.len() {
            string_push(&mut out, '\\');
            assert(cs@.skip(i + 1) =~= Seq::<char>::empty());
            assert(out@ + spec_unescape(cs@.skip(i + 1)) =~= spec_unescape(s@));
            i = i + 1;
        } else {
            push_escape(&mut out, cs[i + 1]);
            assert(rest.skip(2) =~= cs@.skip(i + 2));
            assert(out@ + spec_unescape(cs@.skip(i + 2)) =~= spec_unescape(s@));
            i = i + 2;
        }
    }
    assert(cs@.skip(cs.len() as int) =~= Seq::<char>::empty());
    assert(out@ =~= spec_unescape(s@));
    out
}

/// Whether `needle` occurs in `hay` at position `i`.
pub open spec fn occurs_at(hay: Seq<u8>, needle: Seq<u8>, i: int) -> bool {
    0 <= i && i + needle.len() <= hay.len() && hay.subrange(i, i + needle.len()) == needle
}

/// The first position of `needle` in `hay`, if it occurs.
#[verifier::opaque]
pub open spec fn first_occurrence(hay: Seq<u8>, needle: Seq<u8>) -> Option<int> {
    if exists|i: int| occurs_at(hay, needle, i) {
        Some(choose|i: int| occurs_at(hay, needle, i) && forall|j: int| 0 <= j < i ==> !occurs_at(hay, needle, j))
    } else {
        None
    }
}

proof fn lemma_earliest(hay: Seq<u8>, needle: Seq<u8>, k: int)
    requires
        occurs_at(hay, needle, k),
    ensures
        exists|i: int| occurs_at(hay, needle, i) && forall|j: int| 0 <= j < i ==> !occurs_at(hay, needle, j),
    decreases k,
{
    if exists|j: int| 0 <= j < k && occurs_at(hay, needle, j) {
        let j = choose|j: int| 0 <= j < k && occurs_at(hay, needle, j);
        lemma_earliest(hay, needle, j);
    } else {
        assert(forall|j: int| 0 <= j < k ==> !occurs_at(hay, needle, j));
    }
}

/// The first occurrence is an occurrence with none before it.
pub proof fn lemma_first_occurrence(hay: Seq<u8>, needle: Seq<u8>)
    ensures
        match first_occurrence(hay, needle) {
            Some(i) => occurs_at(hay, needle, i) && forall|j: int| 0 <= j < i ==> !occurs_at(hay, needle, j),
            None => forall|i: int| !occurs_at(hay, needle, i),
        },
{
    reveal(first_occurrence);
    if exists|i: int| occurs_at(hay, needle, i) {
        let k = choose|i: int| occurs_at(hay, needle, i);
        lemma_earliest(hay, needle, k);
    }
}

/// Whether `needle` occurs in `hay` at position `i`, comparing byte by byte.
fn matches_at(hay: &[u8], needle: &[u8], i: usize) -> (b: bool)
    requires
        i + needle.len() <= hay.len(),
    ensures
        b == occurs_at(hay@, needle@, i as int),
{
    let mut k: usize = 0;
    while k < needle.len()
        invariant
            k <= needle.len(),
            i + needle.len() <= hay.len(),
            forall|j: int| 0 <= j < k ==> hay@[i + j] == needle@[j],
        decreases needle.len() - k,
    {
        if hay[i + k] != needle[k] {
            proof {
                if occurs_at(hay@, needle@, i as int) {
                    assert(hay@.subrange(i as int, i + needle.len())[k as int] == hay@[i + k]);
                }
            }
            return false;
        }
        k = k + 1;
    }
    assert(hay@.subrange(i as int, i + needle.len()) =~= needle@);
    true
}

/// First index of `needle` within `hay`, or `None`. `needle` must not be empty.
pub fn find_sub(hay: &[u8], needle: &[u8]) -> (r: Option<usize>)
    requires
        needle.len() > 0,
    ensures
        match first_occurrence(hay@, needle@) {
            Some(i) => r == Some(i as usize),
            None => r is None,
        },
        r matches Some(i) ==> occurs_at(hay@, needle@, i as int),
{
    proof {
        lemma_first_occurrence(hay@, needle@);
    }
    if needle.len() > hay.len() {
        assert(!exists|i: int| occurs_at(hay@, needle@, i));
        return None;
    }
    let last = hay.len() - needle.len();
    let mut i: usize = 0;
    while i <= last
        invariant
            last == hay.len() - needle.len(),
            needle.len() <= hay.len(),
            needle.len() > 0,
            match first_occurrence(hay@, needle@) {
                Some(f) => occurs_at(hay@, needle@, f) && forall|j: int| 0 <= j < f ==> !occurs_at(hay@, needle@, j),
                None => forall|k: int| !occurs_at(hay@, needle@, k),
            },
            forall|j: int| 0 <= j < i ==> !occurs_at(hay@, needle@, j),
        decreases last + 1 - i,
    {
        if matches_at(hay, needle, i) {
            proof {
                assert(occurs_at(hay@, needle@, i as int));
                let f = first_occurrence(hay@, needle@)->0;
                assert(f == i) by {
                    if f < i {
                    } else if f > i {
                    }
                }
            }
            return Some(i);
        }
        i = i + 1;
    }
    assert forall|j: int| !occurs_at(hay@, needle@, j) by {
        if 0 <= j && j + needle.len() <= hay.len() {
            assert(j < i);
        }
    }
    None
}

/// The records of `stream` split on `sep` (a non-empty separator), left to right at
/// each first occurrence, and the unterminated remainder.
#[verifier::opaque]
pub open spec fn spec_split(stream: Seq<u8>, sep: Seq<u8>) -> (Seq<Seq<u8>>, Seq<u8>)
    decreases stream.len(),
{
    match first_occurrence(stream, sep) {
        Some(p) => if sep.len() > 0 {
            proof {
                lemma_first_occurrence(stream, sep);
            }
            let rest = spec_split(stream.skip(p + sep.len()), sep);
            (seq![stream.take(p)] + rest.0, rest.1)
        } else {
            (Seq::empty(), stream)
        },
        None => (Seq::empty(), stream),
    }
}

/// One step of splitting: the bytes before the first separator are a record and the
/// rest is split on; without a separator, everything is pending.
pub proof fn lemma_split_step(b: Seq<u8>, sep: Seq<u8>)
    requires
        sep.len() > 0,
    ensures
        match first_occurrence(b, sep) {
            Some(p) => occurs_at(b, sep, p) && spec_split(b, sep) == (
                seq![b.take(p)] + spec_split(b.skip(p + sep.len()), sep).0,
                spec_split(b.skip(p + sep.len()), sep).1,
            ),
            None => spec_split(b, sep) == (Seq::<Seq<u8>>::empty(), b),
        },
{
    reveal(spec_split);
    lemma_first_occurrence(b, sep);
}

/// Splitting a stream that arrives in two pieces gives the records of splitting it
/// whole: the first piece's records, then those of its remainder followed by the second
/// piece.
pub proof fn law_split_chunked(a: Seq<u8>, b: Seq<u8>, sep: Seq<u8>)
    requires
        sep.len() > 0,
    ensures
        spec_split(a + b, sep).0 == spec_split(a, sep).0 + spec_split(spec_split(a, sep).1 + b, sep).0,
        spec_split(a + b, sep).1 == spec_split(spec_split(a, sep).1 + b, sep).1,
    decreases a.len(),
{
    lemma_split_step(a, sep);
    lemma_split_step(a + b, sep);
    lemma_first_occurrence(a, sep);
    let n = sep.len() as int;
    match first_occurrence(a, sep) {
        None => {
            assert(spec_split(a, sep).0 + spec_split(spec_split(a, sep).1 + b, sep).0 =~= spec_split(a + b, sep).0);
        },
        Some(p) => {
            let ab = a + b;
            assert(ab.subrange(p, p + n) =~= a.subrange(p, p + n));
            assert(occurs_at(ab, sep, p));
            assert forall|j: int| 0 <= j < p implies !occurs_at(ab, sep, j) by {
                if occurs_at(ab, sep, j) {
                    assert(ab.subrange(j, j + n) =~= a.subrange(j, j + n));
                    assert(occurs_at(a, sep, j));
                }
            }
            lemma_first_occurrence(ab, sep);
            let f = first_occurrence(ab, sep)->0;
            assert(f == p) by {
                if f < p {
                } else if f > p {
                }
            }
            let a2 = a.skip(p + n);
            assert(ab.take(p) =~= a.take(p));
            assert(ab.skip(p + n) =~= a2 + b);
            law_split_chunked(a2, b, sep);
            assert(spec_split(a + b, sep).0 =~= spec_split(a, sep).0 + spec_split(
                spec_split(a, sep).1 + b,
                sep,
            ).0);
        },
    }
}

/// The contents of byte vectors.
pub open spec fn byte_records(v: Seq<Vec<u8>>) -> Seq<Seq<u8>> {
    v.map_values(|r: Vec<u8>| r@)
}

/// A stream being split into records on a separator: the bytes after the last
/// separator seen so far are kept until more arrive.
pub struct SeparatedRecords {
    sep: Vec<u8>,
    buf: Vec<u8>,
}

impl SeparatedRecords {
    /// The separator.
    pub closed spec fn separator(&self) -> Seq<u8> {
        self.sep@
    }

    /// The bytes received since the last separator.
    pub closed spec fn pending(&self) -> Seq<u8> {
        self.buf@
    }

    /// Start splitting on `sep`, which must not be empty.
    pub fn new(sep: &[u8]) -> (r: SeparatedRecords)
        requires
            sep.len() > 0,
        ensures
            r.separator() == sep@,
            r.pending() == Seq::<u8>::empty(),
    {
        SeparatedRecords { sep: vstd::slice::slice_to_vec(sep), buf: Vec::new() }
    }

    /// Take in the next chunk of the stream and hand out every record it completes.
    pub fn push(&mut self, chunk: &[u8]) -> (out: Vec<Vec<u8>>)
        requires
            old(self).separator().len() > 0,
        ensures
            final(self).separator() == old(self).separator(),
            ({
                let (rs, rem) = spec_split(old(self).pending() + chunk@, old(self).separator());
                &&& byte_records(out@) == rs
                &&& final(self).pending() == rem
            }),
    {
        let mut i: usize = 0;
        while i < chunk.len()
            invariant
                i <= chunk.len(),
                self.sep@ == old(self).sep@,
                self.buf@ == old(self).buf@ + chunk@.take(i as int),
            decreases chunk.len() - i,
        {
            self.buf.push(chunk[i]);
            assert(chunk@.take(i + 1) =~= chunk@.take(i as int).push(chunk@[i as int]));
            i = i + 1;
        }
        assert(chunk@.take(chunk.len() as int) =~= chunk@);
        self.take_records()
    }

    /// Cut every complete record off the pending bytes.
    fn take_records(&mut self) -> (out: Vec<Vec<u8>>)
        requires
            old(self).sep@.len() > 0,
        ensures
            final(self).sep@ == old(self).sep@,
            byte_records(out@) == spec_split(old(self).buf@, old(self).sep@).0,
            final(self).buf@ == spec_split(old(self).buf@, old(self).sep@).1,
    {
        let ghost sep = self.sep@;
        let ghost whole = self.buf@;
        let mut out: Vec<Vec<u8>> = Vec::new();
        loop
            invariant
                self.sep@ == sep,
                sep == old(self).sep@,
                whole == old(self).buf@,
                sep.len() > 0,
                byte_records(out@) + spec_split(self.buf@, sep).0 == spec_split(whole, sep).0,
                spec_split(self.buf@, sep).1 == spec_split(whole, sep).1,
            decreases self.buf@.len(),
        {
            match find_sub(self.buf.as_slice(), self.sep.as_slice()) {
                None => {
                    proof {
                        lemma_split_step(self.buf@, sep);
                    }
                    assert(byte_records(out@) =~= spec_split(whole, sep).0);
                    return out;
                },
                Some(pos) => {
                    let ghost b = self.buf@;
                    proof {
                        lemma_split_step(b, sep);
                    }
                    assert(occurs_at(b, sep, pos as int));
                    assert(pos + sep.len() <= b.len());
                    let blen = self.buf.len();
                    let slen = self.sep.len();
                    assert(blen == b.len() && slen == sep.len());
                    let end = pos + self.sep.len();
                    let record = vstd::slice::slice_to_vec(vstd::slice::slice_subrange(self.buf.as_slice(), 0, pos));
                    let rest = vstd::slice::slice_to_vec(vstd::slice::slice_subrange(self.buf.as_slice(), end, self.buf.len()));
                    assert(record@ =~= b.take(pos as int));
                    assert(rest@ =~= b.skip(end as int));
                    let ghost before = out@;
                    out.push(record);
                    self.buf = rest;
                    assert(byte_records(out@) =~= byte_records(before).push(record@));
                    assert(byte_records(out@) + spec_split(self.buf@, sep).0 =~= byte_records(before) + spec_split(b, sep).0);
                },
            }
        }
    }

    /// The unterminated last record, if any bytes are pending.
    pub fn finish(self) -> (r: Option<Vec<u8>>)
        ensures
            match r {
                Some(b) => b@ == self.pending() && b@.len() > 0,
                None => self.pending().len() == 0,
            },
    {
        if self.buf.len() == 0 {
            None
        } else {
            Some(self.buf)
        }
    }
}

/// Lines grouped into records: a line that starts a record closes the record in
/// progress; other lines join it, after a newline.
pub struct MultilineRecords {
    record: String,
}

impl MultilineRecords {
    /// The record in progress.
    pub closed spec fn current(&self) -> Seq<char> {
        self.record@
    }

    /// Nothing gathered yet.
    pub fn new() -> (r: MultilineRecords)
        ensures
            r.current() == Seq::<char>::empty(),
    {
        MultilineRecords { record: String::new() }
    }

    /// Take in the next line; `starts` says whether it opens a new record. Returns the
    /// record this line closes, if any.
    pub fn push_line(&mut self, line: &str, starts: bool) -> (closed: Option<String>)
        ensures
            starts && old(self).current().len() > 0 ==> (closed matches Some(c) && c@ == old(
                self,
            ).current() && final(self).current() == line@),
            !(starts && old(self).current().len() > 0) ==> closed is None && final(self).current()
                == if old(self).current().len() > 0 {
                old(self).current() + seq!['\n'] + line@
            } else {
                line@
            },
    {
        let mut closed: Option<String> = None;
        if starts && !self.record.as_str().is_empty() {
            let mut done = String::new();
            std::mem::swap(&mut done, &mut self.record);
            closed = Some(done);
        }
        if !self.record.as_str().is_empty() {
            string_push(&mut self.record, '\n');
        }
        self.record.append(line);
        assert(self.record@ =~= if old(self).record@.len() > 0 && !(starts && old(self).record@.len() > 0) {
            old(self).record@ + seq!['\n'] + line@
        } else {
            line@
        });
        closed
    }

    /// Take in the next line, which opens a new record when the record-start pattern of
    /// `start` matches somewhere in it. Returns the record this line closes, if any.
    pub fn push_line_matching(&mut self, line: &str, start: &Mask) -> (closed: Option<String>)
        ensures
            ({
                let starts = regex_is_match_result(start@.pattern, line@);
                &&& starts && old(self).current().len() > 0 ==> (closed matches Some(c) && c@
                    == old(self).current() && final(self).current() == line@)
                &&& !(starts && old(self).current().len() > 0) ==> closed is None
                    && final(self).current() == if old(self).current().len() > 0 {
                    old(self).current() + seq!['\n'] + line@
                } else {
                    line@
                }
            }),
    {
        let starts = mask_is_match(start, line);
        self.push_line(line, starts)
    }

    /// The last record, if anything was gathered.
    pub fn finish(self) -> (r: Option<String>)
        ensures
            match r {
                Some(s) => s@ == self.current() && s@.len() > 0,
                None => self.current().len() == 0,
            },
    {
        if self.record.as_str().is_empty() {
            None
        } else {
            Some(self.record)
        }
    }
}

/// The message for a record separator given together with a record-start pattern.
pub open spec fn exclusive_message() -> Seq<char> {
    "--record-separator and --multiline-start are mutually exclusive"@
}

/// The message for an empty record separator.
pub open spec fn empty_separator_message() -> Seq<char> {
    "--record-separator must not be empty"@
}

/// The separator bytes that `--record-separator` gives, if one was given: the UTF-8
/// bytes of the unescaped text. It cannot be combined with `--multiline-start`, and it
/// cannot be empty.
pub fn record_separator(sep: Option<&str>, multiline_start: bool) -> (r: Result<
    Option<Vec<u8>>,
    String,
>)
    ensures
        match sep {
            Some(s) => if multiline_start {
                r matches Err(m) && m@ == exclusive_message()
            } else if spec_unescape(s@).len() == 0 {
                r matches Err(m) && m@ == empty_separator_message()
            } else {
                r matches Ok(Some(b)) && b@ == vstd::utf8::encode_utf8(spec_unescape(s@))
            },
            None => r matches Ok(None),
        },
{
    match sep {
        None => Ok(None),
        Some(s) => {
            if multiline_start {
                return Err("--record-separator and --multiline-start are mutually exclusive".to_owned());
            }
            let u = unescape(s);
            if u.as_str().is_empty() {
                return Err("--record-separator must not be empty".to_owned());
            }
            let b = vstd::slice::slice_to_vec(u.as_str().as_bytes());
            Ok(Some(b))
        },
    }
}

} // verus!
