//! Tokenizer: whitespace splitting plus optional path-delimiter splitting that
//! records the delimiter surrounding each sub-token.
use vstd::prelude::*;

use smallvec::SmallVec;

verus! {

/// What a token is, as plain values: its text and the path delimiters around it.
pub struct TokenView {
    pub text: Seq<char>,
    pub leading: Option<char>,
    pub trailing: Option<char>,
}

/// A borrowed token: a slice of the input line plus path-delimiter flags.
#[derive(Debug, Clone, PartialEq, Eq)]
pub struct Token<'a> {
    /// The token text, borrowed from the input.
    pub text: &'a str,
    /// Path delimiter immediately preceding this sub-token, if any.
    pub leading_delim: Option<char>,
    /// Path delimiter immediately following this sub-token, if any.
    pub trailing_delim: Option<char>,
}

impl<'a> View for Token<'a> {
    type V = TokenView;

    open spec fn view(&self) -> TokenView {
        TokenView { text: self.text@, leading: self.leading_delim, trailing: self.trailing_delim }
    }
}

/// Owned token stored inside a cluster.
#[derive(Debug, Clone, PartialEq, Eq)]
pub struct OwnedToken {
    /// The token text.
    pub text: String,
    /// Path delimiter immediately preceding this sub-token, if any.
    pub leading_delim: Option<char>,
    /// Path delimiter immediately following this sub-token, if any.
    pub trailing_delim: Option<char>,
}

impl View for OwnedToken {
    type V = TokenView;

    open spec fn view(&self) -> TokenView {
        TokenView { text: self.text@, leading: self.leading_delim, trailing: self.trailing_delim }
    }
}

impl OwnedToken {
    /// An owned copy of a borrowed token.
    pub fn from_token(t: &Token<'_>) -> (o: OwnedToken)
        ensures
            o@ == t@,
    {
        OwnedToken {
            text: t.text.to_owned(),
            leading_delim: t.leading_delim,
            trailing_delim: t.trailing_delim,
        }
    }

    /// A borrowed view of this token.
    pub fn as_token(&self) -> (t: Token<'_>)
        ensures
            t@ == self@,
    {
        Token { text: self.text.as_str(), leading_delim: self.leading_delim, trailing_delim: self.trailing_delim }
    }
}

/// The views of a sequence of tokens.
pub open spec fn views_of<'a>(ts: Seq<Token<'a>>) -> Seq<TokenView> {
    ts.map_values(|t: Token<'a>| t@)
}

/// The views of a sequence of owned tokens.
pub open spec fn owned_views(ts: Seq<OwnedToken>) -> Seq<TokenView> {
    ts.map_values(|t: OwnedToken| t@)
}

/// The token sequence produced for a line, in a `SmallVec` that keeps up to 16 tokens
/// inline.
#[verifier::external_body]
pub struct Tokens<'a> {
    buf: SmallVec<[Token<'a>; 16]>,
}

/// The views of the tokens a `Tokens` holds, in order.
pub uninterp spec fn token_seq(t: Tokens) -> Seq<TokenView>;

/// `SmallVec::new`: no tokens.
#[verifier::external_body]
fn tokens_new<'a>() -> (t: Tokens<'a>)
    ensures
        token_seq(t) == Seq::<TokenView>::empty(),
{
    Tokens { buf: SmallVec::new() }
}

/// `SmallVec::push`: appends one token.
#[verifier::external_body]
fn tokens_push<'a>(t: &mut Tokens<'a>, x: Token<'a>)
    ensures
        token_seq(*final(t)) == token_seq(*old(t)).push(x@),
{
    t.buf.push(x)
}

/// `SmallVec::as_slice`: the tokens held, as a slice.
#[verifier::external_body]
fn tokens_slice<'a, 'b>(t: &'b Tokens<'a>) -> (s: &'b [Token<'a>])
    ensures
        views_of(s@) == token_seq(*t),
{
    t.buf.as_slice()
}

impl<'a> Tokens<'a> {
    /// The tokens, as a slice.
    pub fn as_slice(&self) -> (s: &[Token<'a>])
        ensures
            views_of(s@) == token_seq(*self),
    {
        tokens_slice(self)
    }

    /// The number of tokens.
    pub fn len(&self) -> (n: usize)
        ensures
            n == token_seq(*self).len(),
    {
        self.as_slice().len()
    }
}

impl<'a> std::ops::Deref for Tokens<'a> {
    type Target = [Token<'a>];

    fn deref(&self) -> &[Token<'a>] {
        self.as_slice()
    }
}

/// Unicode `White_Space`, the property that `char::is_whitespace` tests.
pub open spec fn spec_is_whitespace(c: char) -> bool {
    ||| '\u{9}' <= c <= '\u{d}'
    ||| c == ' '
    ||| c == '\u{85}'
    ||| c == '\u{a0}'
    ||| c == '\u{1680}'
    ||| '\u{2000}' <= c <= '\u{200a}'
    ||| c == '\u{2028}'
    ||| c == '\u{2029}'
    ||| c == '\u{202f}'
    ||| c == '\u{205f}'
    ||| c == '\u{3000}'
}

/// Whether `c` is Unicode white space.
pub fn is_whitespace(c: char) -> (b: bool)
    ensures
        b == spec_is_whitespace(c),
{
    ('\u{9}' <= c && c <= '\u{d}') || c == ' ' || c == '\u{85}' || c == '\u{a0}' || c == '\u{1680}'
        || ('\u{2000}' <= c && c <= '\u{200a}') || c == '\u{2028}' || c == '\u{2029}' || c
        == '\u{202f}' || c == '\u{205f}' || c == '\u{3000}'
}

/// The characters of a string, as a vector.
pub fn chars_of(s: &str) -> (v: Vec<char>)
    ensures
        v@ == s@,
{
    let mut v: Vec<char> = Vec::new();
    for c in it: s.chars()
        invariant
            v@ == it.seq().take(it.index() as int),
            it.seq() == s@,
    {
        v.push(c);
    }
    v
}

/// Whether a char sequence contains `c`.
pub fn contains_char(cs: &[char], c: char) -> (b: bool)
    ensures
        b == cs@.contains(c),
{
    let mut i: usize = 0;
    while i < cs.len()
        invariant
            i <= cs.len(),
            forall|j: int| 0 <= j < i ==> cs@[j] != c,
        decreases cs.len() - i,
    {
        if cs[i] == c {
            return true;
        }
        i = i + 1;
    }
    false
}

/// The words of `s` from position `i` on, where the word in progress began at `start`:
/// each maximal run of non-white-space characters is one word.
pub open spec fn words_from(s: Seq<char>, i: int, start: int) -> Seq<Seq<char>>
    decreases s.len() - i,
{
    if i >= s.len() {
        if start < s.len() {
            seq![s.subrange(start, s.len() as int)]
        } else {
            Seq::empty()
        }
    } else if spec_is_whitespace(s[i]) {
        (if start < i {
            seq![s.subrange(start, i)]
        } else {
            Seq::empty()
        }) + words_from(s, i + 1, i + 1)
    } else {
        words_from(s, i + 1, start)
    }
}

/// The white-space separated words of `s`, in order.
pub open spec fn spec_words(s: Seq<char>) -> Seq<Seq<char>> {
    words_from(s, 0, 0)
}

/// A token view.
pub open spec fn tv(text: Seq<char>, leading: Option<char>, trailing: Option<char>) -> TokenView {
    TokenView { text, leading, trailing }
}

/// The path sub-tokens of piece `p` from position `i` on: the segment in progress began at
/// `seg` and was preceded by delimiter `lead`. Every delimiter closes the segment before it;
/// empty segments are dropped.
pub open spec fn path_from(p: Seq<char>, d: Seq<char>, i: int, seg: int, lead: Option<char>) -> Seq<
    TokenView,
>
    decreases p.len() - i,
{
    if i >= p.len() {
        if seg < p.len() {
            seq![tv(p.subrange(seg, p.len() as int), lead, None)]
        } else {
            Seq::empty()
        }
    } else if d.contains(p[i]) {
        (if seg < i {
            seq![tv(p.subrange(seg, i), lead, Some(p[i]))]
        } else {
            Seq::empty()
        }) + path_from(p, d, i + 1, i + 1, Some(p[i]))
    } else {
        path_from(p, d, i + 1, seg, lead)
    }
}

/// The path sub-tokens of one word. A word made only of delimiters is kept whole, as one
/// plain token, so no input is dropped.
pub open spec fn spec_path_tokens(p: Seq<char>, d: Seq<char>) -> Seq<TokenView> {
    let r = path_from(p, d, 0, 0, None);
    if r.len() == 0 && p.len() > 0 {
        seq![tv(p, None, None)]
    } else {
        r
    }
}

/// The tokens of a line: each word, split into its path sub-tokens.
pub open spec fn spec_tokenize(s: Seq<char>, d: Seq<char>) -> Seq<TokenView> {
    spec_words(s).flat_map(|w: Seq<char>| spec_path_tokens(w, d))
}

/// Split a line into whitespace-delimited tokens (no path splitting).
pub fn tokenize(line: &str) -> (toks: Tokens<'_>)
    ensures
        token_seq(toks) == spec_tokenize(line@, Seq::<char>::empty()),
{
    let no_delims: Vec<char> = Vec::new();
    tokenize_with(line, no_delims.as_slice())
}

/// Split a line into whitespace tokens, then split each on `delims` into path
/// sub-tokens carrying leading/trailing delimiter flags.
pub fn tokenize_with<'a>(line: &'a str, delims: &[char]) -> (toks: Tokens<'a>)
    ensures
        token_seq(toks) == spec_tokenize(line@, delims@),
{
    let cs = chars_of(line);
    let n = cs.len();
    let mut out: Tokens<'a> = tokens_new();
    let mut start: usize = 0;
    let mut i: usize = 0;
    let ghost mut done: Seq<Seq<char>> = Seq::empty();
    let ghost f = |w: Seq<char>| spec_path_tokens(w, delims@);
    while i < n
        invariant
            n == cs.len(),
            cs@ == line@,
            start <= i <= n,
            done + words_from(line@, i as int, start as int) == spec_words(line@),
            token_seq(out) == done.flat_map(f),
            f == (|w: Seq<char>| spec_path_tokens(w, delims@)),
        decreases n - i,
    {
        let c = cs[i];
        if is_whitespace(c) {
            if start < i {
                let word = line.substring_char(start, i);
                push_path_tokens(word, delims, &mut out);
                proof {
                    done.lemma_flat_map_push(f, word@);
                    assert(done + words_from(line@, i as int, start as int) =~= done.push(word@)
                        + words_from(line@, i + 1, i + 1));
                    done = done.push(word@);
                }
            } else {
                assert(done + words_from(line@, i as int, start as int) =~= done + words_from(
                    line@,
                    i + 1,
                    i + 1,
                ));
            }
            start = i + 1;
        }
        i = i + 1;
    }
    if start < n {
        let word = line.substring_char(start, n);
        push_path_tokens(word, delims, &mut out);
        proof {
            done.lemma_flat_map_push(f, word@);
            assert(done + words_from(line@, n as int, start as int) =~= done.push(word@));
            done = done.push(word@);
        }
    } else {
        assert(done + words_from(line@, n as int, start as int) =~= done);
    }
    out
}

/// Split one whitespace token on delimiter chars, appending sub-tokens. A run of
/// delimiters collapses; a piece that is only delimiters is kept verbatim as one
/// plain token so no input is silently dropped.
pub fn push_path_tokens<'a>(piece: &'a str, delims: &[char], out: &mut Tokens<'a>)
    ensures
        token_seq(*final(out)) == token_seq(*old(out)) + spec_path_tokens(piece@, delims@),
{
    let ghost base = token_seq(*old(out));
    let before = out.len();
    let cs = chars_of(piece);
    let n = cs.len();
    let mut cur_leading: Option<char> = None;
    let mut seg_start: usize = 0;
    let mut i: usize = 0;
    let ghost mut acc: Seq<TokenView> = Seq::empty();
    while i < n
        invariant
            n == cs.len(),
            cs@ == piece@,
            seg_start <= i <= n,
            before == base.len(),
            token_seq(*out) == base + acc,
            acc + path_from(piece@, delims@, i as int, seg_start as int, cur_leading)
                == path_from(piece@, delims@, 0, 0, None),
        decreases n - i,
    {
        let ch = cs[i];
        if contains_char(delims, ch) {
            if seg_start < i {
                let seg = piece.substring_char(seg_start, i);
                let t = Token { text: seg, leading_delim: cur_leading, trailing_delim: Some(ch) };
                tokens_push(out, t);
                proof {
                    acc = acc.push(t@);
                    assert(acc + path_from(piece@, delims@, i + 1, i + 1, Some(ch)) =~= acc.drop_last()
                        + path_from(piece@, delims@, i as int, seg_start as int, cur_leading));
                }
            } else {
                assert(acc + path_from(piece@, delims@, i + 1, i + 1, Some(ch)) =~= acc + path_from(
                    piece@,
                    delims@,
                    i as int,
                    seg_start as int,
                    cur_leading,
                ));
            }
            cur_leading = Some(ch);
            seg_start = i + 1;
        }
        i = i + 1;
    }
    if seg_start < n {
        let seg = piece.substring_char(seg_start, n);
        let t = Token { text: seg, leading_delim: cur_leading, trailing_delim: None };
        tokens_push(out, t);
        proof {
            acc = acc.push(t@);
            assert(acc =~= path_from(piece@, delims@, 0, 0, None));
        }
    } else {
        assert(acc =~= path_from(piece@, delims@, 0, 0, None));
    }
    if out.len() == before && n > 0 {
        let t = Token { text: piece, leading_delim: None, trailing_delim: None };
        tokens_push(out, t);
    }
    proof {
        assert(token_seq(*out) =~= base + spec_path_tokens(piece@, delims@));
    }
}

/// Index of the first `'\n'` in `s`, if any.
pub open spec fn first_newline(s: Seq<char>) -> Option<int> {
    if exists|i: int| 0 <= i < s.len() && s[i] == '\n' {
        Some(choose|i: int| 0 <= i < s.len() && s[i] == '\n' && forall|j: int| 0 <= j < i ==> s[j] != '\n')
    } else {
        None
    }
}

/// Split off the first line; return `(first_line, suffix_after_newline)`.
pub fn split_first_line(line: &str) -> (r: (&str, Option<&str>))
    ensures
        match first_newline(line@) {
            Some(k) => r.0@ == line@.subrange(0, k) && r.1 is Some && r.1->0@ == line@.subrange(
                k + 1,
                line@.len() as int,
            ),
            None => r.0@ == line@ && r.1 is None,
        },
{
    let cs = chars_of(line);
    let n = cs.len();
    let mut i: usize = 0;
    while i < n
        invariant
            n == cs.len(),
            cs@ == line@,
            i <= n,
            forall|j: int| 0 <= j < i ==> line@[j] != '\n',
        decreases n - i,
    {
        if cs[i] == '\n' {
            proof {
                assert(exists|k: int| 0 <= k < line@.len() && line@[k] == '\n');
                let k = choose|k: int|
                    0 <= k < line@.len() && line@[k] == '\n' && forall|j: int|
                        0 <= j < k ==> line@[j] != '\n';
                assert(0 <= i && line@[i as int] == '\n');
                if k < i {
                } else if k > i {
                    assert(line@[i as int] != '\n');
                }
                assert(k == i);
            }
            return (line.substring_char(0, i), Some(line.substring_char(i + 1, n)));
        }
        i = i + 1;
    }
    assert(line@.subrange(0, n as int) =~= line@);
    (line.substring_char(0, n), None)
}

/// A token is numeric iff it is non-empty and every char is an ASCII digit.
pub open spec fn spec_is_numeric(s: Seq<char>) -> bool {
    s.len() > 0 && forall|i: int| 0 <= i < s.len() ==> '0' <= #[trigger] s[i] <= '9'
}

/// A token is numeric iff it is non-empty and every byte is an ASCII digit.
pub fn is_numeric_token(s: &str) -> (b: bool)
    ensures
        b == spec_is_numeric(s@),
{
    let cs = chars_of(s);
    if cs.len() == 0 {
        return false;
    }
    let mut i: usize = 0;
    while i < cs.len()
        invariant
            i <= cs.len(),
            cs@ == s@,
            forall|j: int| 0 <= j < i ==> '0' <= #[trigger] s@[j] <= '9',
        decreases cs.len() - i,
    {
        let c = cs[i];
        if !('0' <= c && c <= '9') {
            return false;
        }
        i = i + 1;
    }
    true
}

} // verus!
