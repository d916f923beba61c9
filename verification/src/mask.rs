//! Regex pre-mask pipeline. Masks run before tokenization and replace matched spans
//! with a named placeholder (e.g. `<uuid>`).
use vstd::prelude::*;

use crate::error::LogdrainError;

verus! {

#[verifier::external_type_specification]
#[verifier::external_body]
pub struct ExRegex(regex::Regex);

/// Whether `regex::Regex::new` accepts `pattern`.
pub uninterp spec fn regex_compiles(pattern: Seq<char>) -> bool;

/// The text `regex::Regex::replace_all` produces when the regex compiled from `pattern`
/// replaces every match in `text` with `replacement`.
pub uninterp spec fn regex_replace_all_result(
    pattern: Seq<char>,
    text: Seq<char>,
    replacement: Seq<char>,
) -> Seq<char>;

/// Whether the regex compiled from `pattern` matches somewhere in `text`, as
/// `regex::Regex::is_match` says.
pub uninterp spec fn regex_is_match_result(pattern: Seq<char>, text: Seq<char>) -> bool;

/// `regex::Regex::new`: compiles `pattern`; `Ok` exactly when the pattern is valid.
#[verifier::external_body]
fn regex_new(pattern: &str) -> (r: Result<regex::Regex, regex::Error>)
    ensures
        r is Ok <==> regex_compiles(pattern@),
{
    regex::Regex::new(pattern)
}

/// What a mask is, as plain values.
pub struct MaskView {
    pub pattern: Seq<char>,
    pub placeholder: Seq<char>,
}

/// A single pre-tokenization mask: a regex whose matches are replaced by a named
/// placeholder. The compiled regex is always the one built from `pattern`: the fields
/// are private and [`Mask::new`] is the only constructor.
#[derive(Debug)]
pub struct Mask {
    regex: regex::Regex,
    pattern: String,
    placeholder: String,
}

impl View for Mask {
    type V = MaskView;

    closed spec fn view(&self) -> MaskView {
        MaskView { pattern: self.pattern@, placeholder: self.placeholder@ }
    }
}

/// `regex::Regex::replace_all` with the mask's regex and placeholder. The regex of a
/// mask is compiled from its pattern (see [`Mask::new`]), so the result is the one
/// named for that pattern.
#[verifier::external_body]
fn mask_replace_all(m: &Mask, text: &str) -> (r: String)
    ensures
        r@ == regex_replace_all_result(m@.pattern, text@, m@.placeholder),
{
    m.regex.replace_all(text, m.placeholder.as_str()).into_owned()
}

/// `regex::Regex::is_match` with the mask's regex. The regex of a mask is compiled from
/// its pattern (see [`Mask::new`]), so the answer is the one named for that pattern.
#[verifier::external_body]
pub(crate) fn mask_is_match(m: &Mask, text: &str) -> (b: bool)
    ensures
        b == regex_is_match_result(m@.pattern, text@),
{
    m.regex.is_match(text)
}

impl Mask {
    /// Compile a custom mask from a pattern string and placeholder.
    pub fn new(pattern: &str, placeholder: &str) -> (r: Result<Mask, LogdrainError>)
        ensures
            r is Ok <==> regex_compiles(pattern@),
            r matches Ok(m) ==> m@ == (MaskView { pattern: pattern@, placeholder: placeholder@ }),
            r matches Err(e) ==> e is RegexCompile,
    {
        match regex_new(pattern) {
            Ok(regex) => Ok(Mask { regex, pattern: pattern.to_owned(), placeholder: placeholder.to_owned() }),
            Err(e) => Err(LogdrainError::RegexCompile(e)),
        }
    }

    /// The pattern the mask was compiled from.
    pub fn pattern(&self) -> (r: &str)
        ensures
            r@ == self@.pattern,
    {
        self.pattern.as_str()
    }

    /// The replacement placeholder (e.g. `<uuid>`).
    pub fn placeholder(&self) -> (r: &str)
        ensures
            r@ == self@.placeholder,
    {
        self.placeholder.as_str()
    }
}

/// The views of a sequence of masks.
pub open spec fn mask_views(ms: Seq<Mask>) -> Seq<MaskView> {
    ms.map_values(|m: Mask| m@)
}

/// `line` after the first `k` masks, applied left to right.
pub open spec fn masked_prefix(ms: Seq<MaskView>, line: Seq<char>, k: int) -> Seq<char>
    decreases k,
{
    if k <= 0 {
        line
    } else {
        let prev = masked_prefix(ms, line, k - 1);
        regex_replace_all_result(ms[k - 1].pattern, prev, ms[k - 1].placeholder)
    }
}

/// `line` after every mask, applied left to right.
pub open spec fn spec_apply_masks(ms: Seq<MaskView>, line: Seq<char>) -> Seq<char> {
    masked_prefix(ms, line, ms.len() as int)
}

/// Apply masks left-to-right to `line`, replacing each pattern's matches with its
/// placeholder.
pub fn apply_masks(line: &str, masks: &[Mask]) -> (r: String)
    ensures
        r@ == spec_apply_masks(mask_views(masks@), line@),
{
    let ghost ms = mask_views(masks@);
    let mut cur = line.to_owned();
    let mut i: usize = 0;
    while i < masks.len()
        invariant
            i <= masks.len(),
            ms == mask_views(masks@),
            cur@ == masked_prefix(ms, line@, i as int),
        decreases masks.len() - i,
    {
        let next = mask_replace_all(&masks[i], cur.as_str());
        assert(ms[i as int] == masks@[i as int]@);
        cur = next;
        i = i + 1;
    }
    cur
}

/// Compile a mask whose pattern is known to be valid.
pub(crate) fn known_mask(pattern: &str, placeholder: &str) -> (m: Mask)
    requires
        regex_compiles(pattern@),
    ensures
        m@ == (MaskView { pattern: pattern@, placeholder: placeholder@ }),
{
    Mask::new(pattern, placeholder).unwrap()
}

} // verus!
