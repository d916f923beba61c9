//! Event timestamps read from records: a bare integer is a Unix epoch whose unit is told
//! by its magnitude, a string is RFC 3339, or a caller-given chrono format decides.
use vstd::prelude::*;

use crate::tokenize::{chars_of, is_whitespace, spec_is_whitespace};

verus! {

/// `s` without its leading whitespace.
pub open spec fn trim_start(s: Seq<char>) -> Seq<char>
    decreases s.len(),
{
    if s.len() > 0 && spec_is_whitespace(s[0]) {
        trim_start(s.skip(1))
    } else {
        s
    }
}

/// `s` without its trailing whitespace.
pub open spec fn trim_end(s: Seq<char>) -> Seq<char>
    decreases s.len(),
{
    if s.len() > 0 && spec_is_whitespace(s.last()) {
        trim_end(s.drop_last())
    } else {
        s
    }
}

/// `s` without leading and trailing whitespace.
pub open spec fn spec_trim(s: Seq<char>) -> Seq<char> {
    trim_end(trim_start(s))
}

/// `s` without leading and trailing (Unicode) whitespace.
pub fn trim(s: &str) -> (r: &str)
    ensures
        r@ == spec_trim(s@),
{
    let cs = chars_of(s);
    let mut i: usize = 0;
    assert(s@.skip(0) =~= s@);
    while i < cs.len() && is_whitespace(cs[i])
        invariant
            i <= cs.len(),
            cs@ == s@,
            trim_start(s@) == trim_start(s@.skip(i as int)),
        decreases cs.len() - i,
    {
        assert(s@.skip(i as int).skip(1) =~= s@.skip(i + 1));
        i = i + 1;
    }
    assert(trim_start(s@) == s@.subrange(i as int, s@.len() as int)) by {
        assert(s@.skip(i as int) =~= s@.subrange(i as int, s@.len() as int));
    }
    let mut j: usize = cs.len();
    while j > i && is_whitespace(cs[j - 1])
        invariant
            i <= j <= cs.len(),
            cs@ == s@,
            spec_trim(s@) == trim_end(s@.subrange(i as int, j as int)),
        decreases j,
    {
        assert(s@.subrange(i as int, j as int).drop_last() =~= s@.subrange(i as int, j - 1));
        j = j - 1;
    }
    s.substring_char(i, j)
}

/// Whether every char of `s` is an ASCII digit.
pub open spec fn all_digits(s: Seq<char>) -> bool {
    forall|i: int| 0 <= i < s.len() ==> '0' <= #[trigger] s[i] <= '9'
}

/// The value of a string of ASCII digits.
pub open spec fn digits_value(s: Seq<char>) -> int
    decreases s.len(),
{
    if s.len() == 0 {
        0
    } else {
        digits_value(s.drop_last()) * 10 + (s.last() as int - '0' as int)
    }
}

/// What `str::parse::<i64>` gives: an optional sign, then one or more ASCII digits whose
/// value fits in an `i64`.
pub open spec fn spec_parse_i64(s: Seq<char>) -> Option<i64> {
    let neg = s.len() > 0 && s[0] == '-';
    let ds = if s.len() > 0 && (s[0] == '-' || s[0] == '+') {
        s.skip(1)
    } else {
        s
    };
    let v = if neg {
        -digits_value(ds)
    } else {
        digits_value(ds)
    };
    if ds.len() > 0 && all_digits(ds) && i64::MIN <= v <= i64::MAX {
        Some(v as i64)
    } else {
        None
    }
}

/// `str::parse::<i64>`: an optional `+` or `-`, then ASCII digits, within range.
#[verifier::external_body]
fn parse_i64(s: &str) -> (r: Option<i64>)
    ensures
        r == spec_parse_i64(s@),
{
    s.parse::<i64>().ok()
}

/// The unix-ms of the instant chrono's `DateTime::parse_from_str(value, fmt)` reads (the
/// input must carry an offset), if it reads one.
pub uninterp spec fn offset_parse_ms(value: Seq<char>, fmt: Seq<char>) -> Option<i64>;

/// The unix-ms, taking the time as UTC, of what chrono's
/// `NaiveDateTime::parse_from_str(value, fmt)` reads, if it reads one.
pub uninterp spec fn naive_parse_ms(value: Seq<char>, fmt: Seq<char>) -> Option<i64>;

/// The unix-ms of the instant chrono's `DateTime::parse_from_rfc3339(value)` reads, if it
/// reads one.
pub uninterp spec fn rfc3339_parse_ms(value: Seq<char>) -> Option<i64>;

/// chrono's `DateTime::parse_from_str` followed by `timestamp_millis`.
#[verifier::external_body]
fn parse_with_offset_ms(value: &str, fmt: &str) -> (r: Option<i64>)
    ensures
        r == offset_parse_ms(value@, fmt@),
{
    match chrono::DateTime::parse_from_str(value, fmt) {
        Ok(dt) => Some(dt.timestamp_millis()),
        Err(_) => None,
    }
}

/// chrono's `NaiveDateTime::parse_from_str` followed by `and_utc().timestamp_millis()`.
#[verifier::external_body]
fn parse_naive_utc_ms(value: &str, fmt: &str) -> (r: Option<i64>)
    ensures
        r == naive_parse_ms(value@, fmt@),
{
    match chrono::NaiveDateTime::parse_from_str(value, fmt) {
        Ok(ndt) => Some(ndt.and_utc().timestamp_millis()),
        Err(_) => None,
    }
}

/// chrono's `DateTime::parse_from_rfc3339` followed by `timestamp_millis`.
#[verifier::external_body]
fn parse_rfc3339_ms(value: &str) -> (r: Option<i64>)
    ensures
        r == rfc3339_parse_ms(value@),
{
    match chrono::DateTime::parse_from_rfc3339(value) {
        Ok(dt) => Some(dt.timestamp_millis()),
        Err(_) => None,
    }
}

/// A bare epoch integer scaled to milliseconds by its magnitude: below 1e11 it counts
/// seconds, below 1e14 milliseconds, below 1e17 microseconds, else nanoseconds (the
/// sub-millisecond part is dropped). Negatives have no reading.
pub open spec fn spec_scale_epoch(n: i64) -> Option<u64> {
    if n < 0 {
        None
    } else if n < 100_000_000_000 {
        Some((n * 1000) as u64)
    } else if n < 100_000_000_000_000 {
        Some(n as u64)
    } else if n < 100_000_000_000_000_000 {
        Some((n / 1000) as u64)
    } else {
        Some((n / 1_000_000) as u64)
    }
}

/// Scale a bare epoch integer to milliseconds by magnitude (seconds / millis / micros /
/// nanos). Rejects negatives.
pub fn scale_epoch(n: i64) -> (r: Option<u64>)
    ensures
        r == spec_scale_epoch(n),
{
    if n < 0 {
        return None;
    }
    let n = n as u64;
    let ms = if n < 100_000_000_000 {
        n * 1000
    } else if n < 100_000_000_000_000 {
        n
    } else if n < 100_000_000_000_000_000 {
        n / 1000
    } else {
        n / 1_000_000
    };
    Some(ms)
}

/// A signed millisecond count as unix-ms, if it is not before the epoch.
pub open spec fn non_negative_ms(ms: Option<i64>) -> Option<u64> {
    match ms {
        Some(v) => if v >= 0 {
            Some(v as u64)
        } else {
            None
        },
        None => None,
    }
}

fn to_unix_ms(ms: Option<i64>) -> (r: Option<u64>)
    ensures
        r == non_negative_ms(ms),
{
    match ms {
        Some(v) => if v >= 0 {
            Some(v as u64)
        } else {
            None
        },
        None => None,
    }
}

/// What parsing a timestamp gives, on the trimmed value: with a format, the offset-aware
/// reading, else the reading as UTC; without one, an integer is an epoch scaled by
/// magnitude and anything else is read as RFC 3339. A time before the epoch has no
/// reading.
pub open spec fn spec_parse_event_ms(value: Seq<char>, format: Option<Seq<char>>) -> Option<u64> {
    let v = spec_trim(value);
    match format {
        Some(fmt) => match offset_parse_ms(v, fmt) {
            Some(ms) => non_negative_ms(Some(ms)),
            None => non_negative_ms(naive_parse_ms(v, fmt)),
        },
        None => match spec_parse_i64(v) {
            Some(n) => spec_scale_epoch(n),
            None => non_negative_ms(rfc3339_parse_ms(v)),
        },
    }
}

/// Parse a timestamp value into unix-milliseconds.
///
/// With an explicit `format` (chrono spec, e.g. `%Y-%m-%d %H:%M:%S`): try an
/// offset-aware parse first, then a naive parse interpreted as UTC. Without a
/// format: a bare integer is a Unix epoch (seconds / millis / micros / nanos,
/// auto-scaled by magnitude); a string is parsed as RFC 3339. Returns `None` if
/// nothing matches.
pub fn parse_event_ms(value: &str, format: Option<&str>) -> (r: Option<u64>)
    ensures
        r == spec_parse_event_ms(
            value@,
            match format {
                Some(f) => Some(f@),
                None => None,
            },
        ),
{
    let v = trim(value);
    match format {
        Some(fmt) => match parse_with_offset_ms(v, fmt) {
            Some(ms) => to_unix_ms(Some(ms)),
            None => to_unix_ms(parse_naive_utc_ms(v, fmt)),
        },
        None => match parse_i64(v) {
            Some(n) => scale_epoch(n),
            None => to_unix_ms(parse_rfc3339_ms(v)),
        },
    }
}

/// With a format, the offset-aware reading decides whenever it reads the value: the
/// result is that instant in unix-ms (nothing before the epoch), whatever a naive
/// reading of the same text would give; the naive reading, taken as UTC, is used only
/// when the offset-aware one fails.
pub proof fn law_format_prefers_offset_reading(value: Seq<char>, fmt: Seq<char>)
    ensures
        ({
            let v = spec_trim(value);
            let r = spec_parse_event_ms(value, Some(fmt));
            &&& offset_parse_ms(v, fmt) matches Some(ms) ==> r == if ms >= 0 {
                Some(ms as u64)
            } else {
                None::<u64>
            }
            &&& offset_parse_ms(v, fmt) is None ==> r == match naive_parse_ms(v, fmt) {
                Some(ms) => if ms >= 0 {
                    Some(ms as u64)
                } else {
                    None::<u64>
                },
                None => None::<u64>,
            }
        }),
{
}

/// Without a format, a value whose trimmed text is an integer is a Unix epoch and is
/// never read as RFC 3339; any other value is read as RFC 3339 (nothing before the
/// epoch).
pub proof fn law_no_format_integer_is_epoch(value: Seq<char>)
    ensures
        ({
            let v = spec_trim(value);
            let r = spec_parse_event_ms(value, None);
            &&& spec_parse_i64(v) matches Some(n) ==> r == spec_scale_epoch(n)
            &&& spec_parse_i64(v) is None ==> r == match rfc3339_parse_ms(v) {
                Some(ms) => if ms >= 0 {
                    Some(ms as u64)
                } else {
                    None::<u64>
                },
                None => None::<u64>,
            }
        }),
{
}

/// One instant written as an epoch in seconds, milliseconds, microseconds or
/// nanoseconds reads as the same milliseconds (for instants from 1973 to 2262, where
/// the four spellings fall in their magnitude bands and fit an `i64`); a negative epoch
/// reads as nothing.
pub proof fn law_epoch_units_agree(secs: i64)
    requires
        100_000_000 <= secs < 9_000_000_000,
    ensures
        spec_scale_epoch(secs) == Some((secs * 1000) as u64),
        spec_scale_epoch((secs * 1000) as i64) == spec_scale_epoch(secs),
        spec_scale_epoch((secs * 1_000_000) as i64) == spec_scale_epoch(secs),
        spec_scale_epoch((secs * 1_000_000_000) as i64) == spec_scale_epoch(secs),
        forall|n: i64| n < 0 ==> #[trigger] spec_scale_epoch(n) is None,
{
    assert((secs * 1_000_000) / 1000 == secs * 1000) by (nonlinear_arith);
    assert((secs * 1_000_000_000) / 1_000_000 == secs * 1000) by (nonlinear_arith);
}

} // verus!
