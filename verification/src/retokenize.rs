//! Rendering a template and tokenizing the rendered text gives back the template's token
//! texts: delimiter-aware rendering is structurally faithful.
use vstd::prelude::*;

use crate::cluster::spec_render;
use crate::cluster::render_piece;
use crate::cluster::render_prefix;
use crate::tokenize::{
    path_from, spec_is_whitespace, spec_path_tokens, spec_tokenize, spec_words, tv, words_from,
    TokenView,
};

verus! {

/// The maximal non-empty runs of `s` between separator chars, scanning from `i` with the
/// run in progress starting at `start`.
pub open spec fn runs_from(s: Seq<char>, sep: spec_fn(char) -> bool, i: int, start: int) -> Seq<
    Seq<char>,
>
    decreases s.len() - i,
{
    if i >= s.len() {
        if start < s.len() {
            seq![s.subrange(start, s.len() as int)]
        } else {
            Seq::empty()
        }
    } else if sep(s[i]) {
        (if start < i {
            seq![s.subrange(start, i)]
        } else {
            Seq::empty()
        }) + runs_from(s, sep, i + 1, i + 1)
    } else {
        runs_from(s, sep, i + 1, start)
    }
}

/// The maximal non-empty runs of `s` between separator chars.
pub open spec fn runs(s: Seq<char>, sep: spec_fn(char) -> bool) -> Seq<Seq<char>> {
    runs_from(s, sep, 0, 0)
}

/// White space separates words.
pub open spec fn ws_sep() -> spec_fn(char) -> bool {
    |c: char| spec_is_whitespace(c)
}

/// Path delimiters separate segments.
pub open spec fn delim_sep(d: Seq<char>) -> spec_fn(char) -> bool {
    |c: char| d.contains(c)
}

/// Whether no char of `s` is a separator.
pub open spec fn no_sep(s: Seq<char>, sep: spec_fn(char) -> bool) -> bool {
    forall|i: int| 0 <= i < s.len() ==> !sep(#[trigger] s[i])
}

/// The texts of tokens.
pub open spec fn texts(ts: Seq<TokenView>) -> Seq<Seq<char>> {
    ts.map_values(|t: TokenView| t.text)
}

proof fn lemma_runs_shift(x: Seq<char>, y: Seq<char>, sep: spec_fn(char) -> bool, j: int, k: int)
    requires
        0 <= k <= j <= y.len(),
    ensures
        runs_from(x + y, sep, x.len() + j, x.len() + k) == runs_from(y, sep, j, k),
    decreases y.len() - j,
{
    let s = x + y;
    if j < y.len() {
        assert(s[x.len() + j] == y[j]);
        if sep(y[j]) {
            lemma_runs_shift(x, y, sep, j + 1, j + 1);
            assert(s.subrange(x.len() + k, x.len() + j) =~= y.subrange(k, j));
        } else {
            lemma_runs_shift(x, y, sep, j + 1, k);
        }
    } else {
        assert(s.subrange(x.len() + k, s.len() as int) =~= y.subrange(k, y.len() as int));
    }
}

proof fn lemma_runs_prefix(
    a: Seq<char>,
    c: char,
    b: Seq<char>,
    sep: spec_fn(char) -> bool,
    i: int,
    start: int,
)
    requires
        sep(c),
        0 <= start <= i <= a.len(),
    ensures
        runs_from(a + seq![c] + b, sep, i, start) == runs_from(a, sep, i, start) + runs(b, sep),
    decreases a.len() - i,
{
    let s = a + seq![c] + b;
    if i < a.len() {
        assert(s[i] == a[i]);
        if sep(a[i]) {
            lemma_runs_prefix(a, c, b, sep, i + 1, i + 1);
            assert(s.subrange(start, i) =~= a.subrange(start, i));
        } else {
            lemma_runs_prefix(a, c, b, sep, i + 1, start);
        }
    } else {
        assert(s[i] == c);
        assert(s.subrange(start, i) =~= a.subrange(start, a.len() as int));
        assert(s =~= (a + seq![c]) + b);
        lemma_runs_shift(a + seq![c], b, sep, 0, 0);
    }
}

/// Runs split at a separator: those before it, then those after it.
pub proof fn lemma_runs_concat(a: Seq<char>, c: char, b: Seq<char>, sep: spec_fn(char) -> bool)
    requires
        sep(c),
    ensures
        runs(a + seq![c] + b, sep) == runs(a, sep) + runs(b, sep),
{
    lemma_runs_prefix(a, c, b, sep, 0, 0);
}

proof fn lemma_runs_none_from(s: Seq<char>, sep: spec_fn(char) -> bool, i: int)
    requires
        no_sep(s, sep),
        0 <= i <= s.len(),
    ensures
        runs_from(s, sep, i, 0) == if s.len() > 0 {
            seq![s]
        } else {
            Seq::<Seq<char>>::empty()
        },
    decreases s.len() - i,
{
    if i < s.len() {
        lemma_runs_none_from(s, sep, i + 1);
    } else if s.len() > 0 {
        assert(s.subrange(0, s.len() as int) =~= s);
    }
}

/// A string without separators is one run, or none when empty.
pub proof fn lemma_runs_none(s: Seq<char>, sep: spec_fn(char) -> bool)
    requires
        no_sep(s, sep),
    ensures
        runs(s, sep) == if s.len() > 0 {
            seq![s]
        } else {
            Seq::<Seq<char>>::empty()
        },
{
    lemma_runs_none_from(s, sep, 0);
}

proof fn lemma_last_sep(a: Seq<char>, sep: spec_fn(char) -> bool)
    requires
        !no_sep(a, sep),
    ensures
        exists|k: int| 0 <= k < a.len() && sep(a[k]) && no_sep(a.skip(k + 1), sep),
    decreases a.len(),
{
    if sep(a.last()) {
        let k = a.len() - 1;
        assert(no_sep(a.skip(k + 1), sep));
    } else {
        let p = a.drop_last();
        assert(!no_sep(p, sep)) by {
            let i = choose|i: int| 0 <= i < a.len() && sep(a[i]);
            assert(i < a.len() - 1);
            assert(p[i] == a[i]);
        }
        lemma_last_sep(p, sep);
        let k = choose|k: int| 0 <= k < p.len() && sep(p[k]) && no_sep(p.skip(k + 1), sep);
        assert(a[k] == p[k]);
        assert forall|i: int| 0 <= i < a.skip(k + 1).len() implies !sep(#[trigger] a.skip(k + 1)[i]) by {
            if i < p.skip(k + 1).len() {
                assert(a.skip(k + 1)[i] == p.skip(k + 1)[i]);
            }
        }
    }
}

/// Appending separator-free text to a string that ends inside a run extends its last run.
pub proof fn lemma_runs_extend(a: Seq<char>, b: Seq<char>, sep: spec_fn(char) -> bool)
    requires
        a.len() > 0,
        !sep(a.last()),
        no_sep(b, sep),
    ensures
        runs(a, sep).len() > 0,
        runs(a + b, sep) == runs(a, sep).drop_last().push(runs(a, sep).last() + b),
{
    if no_sep(a, sep) {
        lemma_runs_none(a, sep);
        assert forall|i: int| 0 <= i < (a + b).len() implies !sep(#[trigger] (a + b)[i]) by {
            if i < a.len() {
                assert((a + b)[i] == a[i]);
            } else {
                assert((a + b)[i] == b[i - a.len()]);
            }
        }
        lemma_runs_none(a + b, sep);
        assert(runs(a, sep).drop_last() =~= Seq::<Seq<char>>::empty());
    } else {
        lemma_last_sep(a, sep);
        let k = choose|k: int| 0 <= k < a.len() && sep(a[k]) && no_sep(a.skip(k + 1), sep);
        let a1 = a.take(k);
        let c = a[k];
        let a2 = a.skip(k + 1);
        assert(a =~= a1 + seq![c] + a2);
        assert(a2.len() > 0) by {
            if a2.len() == 0 {
                assert(a.last() == c);
            }
        }
        lemma_runs_concat(a1, c, a2, sep);
        lemma_runs_none(a2, sep);
        assert(a + b =~= a1 + seq![c] + (a2 + b));
        lemma_runs_concat(a1, c, a2 + b, sep);
        assert forall|i: int| 0 <= i < (a2 + b).len() implies !sep(#[trigger] (a2 + b)[i]) by {
            if i < a2.len() {
                assert((a2 + b)[i] == a2[i]);
            } else {
                assert((a2 + b)[i] == b[i - a2.len()]);
            }
        }
        lemma_runs_none(a2 + b, sep);
        assert(runs(a, sep).drop_last() =~= runs(a1, sep));
    }
}

proof fn lemma_words_runs(s: Seq<char>, i: int, start: int)
    requires
        0 <= start <= i <= s.len(),
    ensures
        words_from(s, i, start) == runs_from(s, ws_sep(), i, start),
    decreases s.len() - i,
{
    if i < s.len() {
        if spec_is_whitespace(s[i]) {
            lemma_words_runs(s, i + 1, i + 1);
        } else {
            lemma_words_runs(s, i + 1, start);
        }
    }
}

proof fn lemma_path_runs(p: Seq<char>, d: Seq<char>, i: int, seg: int, lead: Option<char>)
    requires
        0 <= seg <= i <= p.len(),
    ensures
        texts(path_from(p, d, i, seg, lead)) == runs_from(p, delim_sep(d), i, seg),
    decreases p.len() - i,
{
    if i < p.len() {
        if d.contains(p[i]) {
            lemma_path_runs(p, d, i + 1, i + 1, Some(p[i]));
            let head: Seq<TokenView> = if seg < i {
                seq![crate::tokenize::tv(p.subrange(seg, i), lead, Some(p[i]))]
            } else {
                Seq::empty()
            };
            assert(texts(head + path_from(p, d, i + 1, i + 1, Some(p[i]))) =~= texts(head) + texts(
                path_from(p, d, i + 1, i + 1, Some(p[i])),
            ));
        } else {
            lemma_path_runs(p, d, i + 1, seg, lead);
        }
    } else if seg < p.len() {
        assert(texts(path_from(p, d, i, seg, lead)) =~= seq![p.subrange(seg, p.len() as int)]);
    } else {
        assert(texts(path_from(p, d, i, seg, lead)) =~= Seq::<Seq<char>>::empty());
    }
}

/// The path tokens of a word that is not all delimiters have its segments as texts.
proof fn lemma_path_tokens_texts(w: Seq<char>, d: Seq<char>)
    requires
        runs(w, delim_sep(d)).len() > 0,
    ensures
        texts(spec_path_tokens(w, d)) == runs(w, delim_sep(d)),
{
    lemma_path_runs(w, d, 0, 0, None);
}

/// Whether a token can be rendered and read back: a non-empty text without white space
/// or delimiters, and delimiter flags that are path delimiters (not white space).
pub open spec fn plain_token(t: TokenView, d: Seq<char>) -> bool {
    &&& t.text.len() > 0
    &&& no_sep(t.text, ws_sep())
    &&& no_sep(t.text, delim_sep(d))
    &&& (t.leading matches Some(c) ==> d.contains(c) && !spec_is_whitespace(c))
    &&& (t.trailing matches Some(c) ==> d.contains(c) && !spec_is_whitespace(c))
}

/// The token texts of a string's words.
pub open spec fn word_texts(ws: Seq<Seq<char>>, d: Seq<char>) -> Seq<Seq<char>> {
    texts(ws.flat_map(|w: Seq<char>| spec_path_tokens(w, d)))
}

proof fn lemma_word_texts_push(ws: Seq<Seq<char>>, w: Seq<char>, d: Seq<char>)
    ensures
        word_texts(ws.push(w), d) == word_texts(ws, d) + texts(spec_path_tokens(w, d)),
{
    let f = |x: Seq<char>| spec_path_tokens(x, d);
    ws.lemma_flat_map_push(f, w);
    assert(texts(ws.flat_map(f) + f(w)) =~= texts(ws.flat_map(f)) + texts(f(w)));
}

/// What holds of the rendering of the first `n` tokens: its words, their token texts
/// (the first `n` texts), and a last word that ends in a text char and has a segment.
proof fn lemma_render_prefix(ts: Seq<TokenView>, d: Seq<char>, n: int)
    requires
        1 <= n <= ts.len(),
        forall|i: int| 0 <= i < ts.len() ==> plain_token(#[trigger] ts[i], d),
    ensures
        ({
            let r = render_prefix(ts, n);
            let ws = runs(r, ws_sep());
            &&& r.len() > 0
            &&& !spec_is_whitespace(r.last())
            &&& ws.len() > 0
            &&& runs(ws.last(), delim_sep(d)).len() > 0
            &&& word_texts(ws, d) == texts(ts.take(n))
        }),
    decreases n,
{
    let t = ts[n - 1];
    assert(plain_token(t, d));
    let lead: Seq<char> = match t.leading {
        Some(c) => seq![c],
        None => Seq::empty(),
    };
    let lt = lead + t.text;
    // `lead + text` is one word with one segment, the text.
    assert(no_sep(lt, ws_sep())) by {
        assert forall|i: int| 0 <= i < lt.len() implies !ws_sep()(#[trigger] lt[i]) by {
            if i >= lead.len() {
                assert(lt[i] == t.text[i - lead.len()]);
            }
        }
    }
    lemma_runs_none(t.text, delim_sep(d));
    assert(runs(lt, delim_sep(d)) == seq![t.text]) by {
        match t.leading {
            Some(c) => {
                assert(lt =~= Seq::<char>::empty() + seq![c] + t.text);
                lemma_runs_concat(Seq::<char>::empty(), c, t.text, delim_sep(d));
                lemma_runs_none(Seq::<char>::empty(), delim_sep(d));
            },
            None => {
                assert(lt =~= t.text);
            },
        }
    }
    lemma_path_tokens_texts(lt, d);
    assert(ts.take(n) =~= ts.take(n - 1).push(t));
    assert(texts(ts.take(n)) =~= texts(ts.take(n - 1)).push(t.text));
    if n == 1 {
        let r = render_prefix(ts, 1);
        assert(render_prefix(ts, 0) =~= Seq::<char>::empty());
        assert(r =~= lt);
        lemma_runs_none(lt, ws_sep());
        let ws = runs(r, ws_sep());
        assert(ws == seq![lt]);
        assert(seq![lt] =~= Seq::<Seq<char>>::empty().push(lt));
        lemma_word_texts_push(Seq::<Seq<char>>::empty(), lt, d);
        assert(word_texts(Seq::<Seq<char>>::empty(), d) =~= Seq::<Seq<char>>::empty());
        assert(texts(ts.take(0)) =~= Seq::<Seq<char>>::empty());
        assert(r.last() == t.text.last());
    } else {
        lemma_render_prefix(ts, d, n - 1);
        let r0 = render_prefix(ts, n - 1);
        let ws0 = runs(r0, ws_sep());
        let r = render_prefix(ts, n);
        let prev = ts[n - 2];
        assert(plain_token(prev, d));
        match prev.trailing {
            None => {
                assert(r =~= r0 + seq![' '] + lt);
                lemma_runs_concat(r0, ' ', lt, ws_sep());
                lemma_runs_none(lt, ws_sep());
                assert(runs(r, ws_sep()) =~= ws0.push(lt));
                lemma_word_texts_push(ws0, lt, d);
                assert(r.last() == t.text.last());
            },
            Some(c) => {
                let piece = seq![c] + t.text;
                assert(r =~= r0 + piece);
                assert(no_sep(piece, ws_sep())) by {
                    assert forall|i: int| 0 <= i < piece.len() implies !ws_sep()(#[trigger] piece[i]) by {
                        if i >= 1 {
                            assert(piece[i] == t.text[i - 1]);
                        }
                    }
                }
                lemma_runs_extend(r0, piece, ws_sep());
                let w = ws0.last();
                let w2 = w + piece;
                assert(runs(r, ws_sep()) == ws0.drop_last().push(w2));
                assert(w2 =~= w + seq![c] + t.text);
                lemma_runs_concat(w, c, t.text, delim_sep(d));
                lemma_path_tokens_texts(w, d);
                lemma_path_tokens_texts(w2, d);
                assert(ws0 =~= ws0.drop_last().push(w));
                lemma_word_texts_push(ws0.drop_last(), w, d);
                lemma_word_texts_push(ws0.drop_last(), w2, d);
                assert(runs(r, ws_sep()).last() == w2);
                assert(r.last() == t.text.last());
            },
        }
    }
}

/// Tokenizing a rendered template gives back its token texts, for tokens with non-empty
/// texts free of white space and delimiters and with delimiter flags.
pub proof fn law_render_retokenizes(ts: Seq<TokenView>, d: Seq<char>)
    requires
        forall|i: int| 0 <= i < ts.len() ==> plain_token(#[trigger] ts[i], d),
    ensures
        texts(spec_tokenize(spec_render(ts), d)) == texts(ts),
{
    let s = spec_render(ts);
    lemma_words_runs(s, 0, 0);
    if ts.len() == 0 {
        assert(s =~= Seq::<char>::empty());
        assert(spec_words(s) =~= Seq::<Seq<char>>::empty());
        assert(texts(spec_tokenize(s, d)) =~= texts(ts));
    } else {
        let n = ts.len() as int;
        lemma_render_prefix(ts, d, n);
        let r = render_prefix(ts, n);
        let ws = runs(r, ws_sep());
        assert(ts.take(n) =~= ts);
        let last = ts[n - 1];
        assert(plain_token(last, d));
        match last.trailing {
            None => {
                assert(s =~= r);
            },
            Some(c) => {
                assert(s =~= r + seq![c]);
                assert(no_sep(seq![c], ws_sep()));
                lemma_runs_extend(r, seq![c], ws_sep());
                let w = ws.last();
                let w2 = w + seq![c];
                assert(w2 =~= w + seq![c] + Seq::<char>::empty());
                lemma_runs_concat(w, c, Seq::<char>::empty(), delim_sep(d));
                lemma_runs_none(Seq::<char>::empty(), delim_sep(d));
                assert(runs(w2, delim_sep(d)) =~= runs(w, delim_sep(d)));
                lemma_path_tokens_texts(w, d);
                lemma_path_tokens_texts(w2, d);
                assert(ws =~= ws.drop_last().push(w));
                lemma_word_texts_push(ws.drop_last(), w, d);
                lemma_word_texts_push(ws.drop_last(), w2, d);
            },
        }
    }
}

/// The chars a token's leading delimiter contributes when it opens a rendering.
pub open spec fn lead_chars(lead: Option<char>) -> Seq<char> {
    match lead {
        Some(c) => seq![c],
        None => Seq::empty(),
    }
}

/// Rendering a token followed by tokens that it joins through its trailing delimiter:
/// the token's own piece, then the rendering of the rest.
proof fn lemma_render_prefix_cons(t: TokenView, rest: Seq<TokenView>, c: char, k: int)
    requires
        t.trailing == Some(c),
        rest.len() > 0,
        rest[0].leading == Some(c),
        1 <= k <= rest.len(),
    ensures
        render_prefix(seq![t] + rest, k + 1) == lead_chars(t.leading) + t.text + render_prefix(rest, k),
    decreases k,
{
    let ts = seq![t] + rest;
    if k == 1 {
        assert(render_prefix(ts, 1) == render_prefix(ts, 0) + render_piece(ts, 0));
        assert(render_piece(ts, 0) =~= lead_chars(t.leading) + t.text);
        assert(ts[1] == rest[0]);
        assert(render_piece(ts, 1) =~= seq![c] + rest[0].text);
        assert(render_prefix(rest, 1) == render_prefix(rest, 0) + render_piece(rest, 0));
        assert(render_piece(rest, 0) =~= seq![c] + rest[0].text);
        assert(render_prefix(ts, 2) =~= lead_chars(t.leading) + t.text + render_prefix(rest, 1));
    } else {
        lemma_render_prefix_cons(t, rest, c, k - 1);
        assert(ts[k] == rest[k - 1]);
        assert(ts[k - 1] == rest[k - 2]);
        assert(render_piece(ts, k) =~= render_piece(rest, k - 1));
        assert(render_prefix(ts, k + 1) =~= lead_chars(t.leading) + t.text + render_prefix(rest, k));
    }
}

/// Rendering two token runs where the first ends without a trailing delimiter: the two
/// renderings joined by a space.
proof fn lemma_render_prefix_append(a: Seq<TokenView>, b: Seq<TokenView>, k: int)
    requires
        a.len() > 0,
        a.last().trailing is None,
        1 <= k <= b.len(),
    ensures
        render_prefix(a + b, a.len() + k) == render_prefix(a, a.len() as int) + seq![' ']
            + render_prefix(b, k),
    decreases k,
{
    let ts = a + b;
    let n = a.len() as int;
    lemma_render_prefix_same(a, b, n);
    if k == 1 {
        assert(ts[n - 1] == a.last());
        assert(ts[n] == b[0]);
        assert(render_piece(ts, n) =~= seq![' '] + render_piece(b, 0));
        assert(render_prefix(b, 1) == render_prefix(b, 0) + render_piece(b, 0));
        assert(render_prefix(ts, n + 1) =~= render_prefix(a, n) + seq![' '] + render_prefix(b, 1));
    } else {
        lemma_render_prefix_append(a, b, k - 1);
        assert(ts[n + k - 1] == b[k - 1]);
        assert(ts[n + k - 2] == b[k - 2]);
        assert(render_piece(ts, n + k - 1) =~= render_piece(b, k - 1));
        assert(render_prefix(ts, n + k) =~= render_prefix(a, n) + seq![' '] + render_prefix(b, k));
    }
}

/// The first pieces of a rendering depend only on the tokens they cover.
proof fn lemma_render_prefix_same(a: Seq<TokenView>, b: Seq<TokenView>, k: int)
    requires
        0 <= k <= a.len(),
    ensures
        render_prefix(a + b, k) == render_prefix(a, k),
    decreases k,
{
    if k > 0 {
        lemma_render_prefix_same(a, b, k - 1);
        assert((a + b)[k - 1] == a[k - 1]);
        if k >= 2 {
            assert((a + b)[k - 2] == a[k - 2]);
        }
        assert(render_piece(a + b, k - 1) =~= render_piece(a, k - 1));
    }
}

/// Rendering a token followed by tokens it joins through its trailing delimiter.
proof fn lemma_render_cons(t: TokenView, rest: Seq<TokenView>, c: char)
    requires
        t.trailing == Some(c),
        rest.len() > 0,
        rest[0].leading == Some(c),
    ensures
        spec_render(seq![t] + rest) == lead_chars(t.leading) + t.text + spec_render(rest),
{
    let ts = seq![t] + rest;
    lemma_render_prefix_cons(t, rest, c, rest.len() as int);
    assert(ts.last() == rest.last());
    assert(spec_render(ts) =~= lead_chars(t.leading) + t.text + spec_render(rest));
}

/// Rendering two token runs, the first ending without a trailing delimiter.
proof fn lemma_render_append(a: Seq<TokenView>, b: Seq<TokenView>)
    requires
        a.len() > 0,
        a.last().trailing is None,
        b.len() > 0,
    ensures
        spec_render(a + b) == spec_render(a) + seq![' '] + spec_render(b),
{
    lemma_render_prefix_append(a, b, b.len() as int);
    assert((a + b).last() == b.last());
    assert(spec_render(a) =~= render_prefix(a, a.len() as int));
    assert(spec_render(a + b) =~= spec_render(a) + seq![' '] + spec_render(b));
}

/// Rendering one token.
proof fn lemma_render_single(t: TokenView)
    ensures
        spec_render(seq![t]) == lead_chars(t.leading) + t.text + lead_chars(t.trailing),
{
    let ts = seq![t];
    assert(render_prefix(ts, 1) == render_prefix(ts, 0) + render_piece(ts, 0));
    assert(spec_render(ts) =~= lead_chars(t.leading) + t.text + lead_chars(t.trailing));
}

/// Whether no two neighbouring chars of `p` are both delimiters.
pub open spec fn no_adjacent_delims(p: Seq<char>, d: Seq<char>) -> bool {
    forall|i: int, j: int|
        0 <= i && j == i + 1 && j < p.len() ==> !(d.contains(#[trigger] p[i]) && d.contains(
            #[trigger] p[j],
        ))
}

proof fn lemma_path_render(p: Seq<char>, d: Seq<char>, i: int, seg: int, lead: Option<char>)
    requires
        0 <= seg <= i <= p.len(),
        forall|j: int| seg <= j < i ==> !d.contains(#[trigger] p[j]),
        seg == 0 ==> lead is None,
        seg > 0 ==> lead == Some(p[seg - 1]) && d.contains(p[seg - 1]),
        no_adjacent_delims(p, d),
    ensures
        ({
            let r = path_from(p, d, i, seg, lead);
            &&& r.len() > 0 ==> seg < p.len()
            &&& r.len() > 0 ==> spec_render(r) == lead_chars(lead) + p.subrange(seg, p.len() as int)
            &&& r.len() > 0 ==> r.last().trailing == if d.contains(p.last()) {
                Some(p.last())
            } else {
                None
            }
            &&& (seg < p.len() && !d.contains(p[seg])) ==> r.len() > 0 && r[0].leading == lead
        }),
    decreases p.len() - i,
{
    let r = path_from(p, d, i, seg, lead);
    if i >= p.len() {
        if seg < p.len() {
            let t = tv(p.subrange(seg, p.len() as int), lead, None);
            assert(r == seq![t]);
            lemma_render_single(t);
            assert(!d.contains(p[p.len() - 1]));
            assert(spec_render(r) =~= lead_chars(lead) + p.subrange(seg, p.len() as int));
        }
    } else if d.contains(p[i]) {
        lemma_path_render(p, d, i + 1, i + 1, Some(p[i]));
        let rr = path_from(p, d, i + 1, i + 1, Some(p[i]));
        if seg < i {
            let t = tv(p.subrange(seg, i), lead, Some(p[i]));
            assert(r == seq![t] + rr);
            if i + 1 < p.len() {
                assert(!d.contains(p[i + 1]));
                lemma_render_cons(t, rr, p[i]);
                assert(spec_render(r) =~= lead_chars(lead) + p.subrange(seg, p.len() as int));
                assert(r.last() == rr.last());
            } else {
                assert(rr.len() == 0);
                assert(r =~= seq![t]);
                lemma_render_single(t);
                assert(spec_render(r) =~= lead_chars(lead) + p.subrange(seg, p.len() as int));
            }
        } else {
            if seg > 0 {
                assert(d.contains(p[seg - 1]) && d.contains(p[seg]));
                assert(false);
            }
            assert(r == rr);
            if rr.len() > 0 {
                assert(lead_chars(Some(p[i])) + p.subrange(i + 1, p.len() as int) =~= lead_chars(lead)
                    + p.subrange(seg, p.len() as int));
            }
        }
    } else {
        lemma_path_render(p, d, i + 1, seg, lead);
    }
}

/// A word without white space or neighbouring delimiters renders back from its path
/// tokens; unless it ends in a delimiter (and is more than that delimiter), its last
/// token carries no trailing delimiter.
proof fn lemma_word_render(p: Seq<char>, d: Seq<char>)
    requires
        p.len() > 0,
        no_adjacent_delims(p, d),
    ensures
        spec_path_tokens(p, d).len() > 0,
        spec_render(spec_path_tokens(p, d)) == p,
        (p.len() == 1 || !d.contains(p.last())) ==> spec_path_tokens(p, d).last().trailing is None,
{
    lemma_path_render(p, d, 0, 0, None);
    let r = path_from(p, d, 0, 0, None);
    if r.len() == 0 {
        lemma_render_single(tv(p, None, None));
        assert(spec_render(seq![tv(p, None, None)]) =~= p);
    } else {
        assert(p.subrange(0, p.len() as int) =~= p);
        assert(lead_chars(None) + p =~= p);
        if p.len() == 1 && d.contains(p.last()) {
            assert(!d.contains(p[0]) || r.len() == 0) by {
                assert(path_from(p, d, 0, 0, None) == path_from(p, d, 1, 1, Some(p[0])));
            }
        }
    }
}

/// The pieces joined by single spaces.
pub open spec fn joined(ps: Seq<Seq<char>>) -> Seq<char>
    decreases ps.len(),
{
    if ps.len() == 0 {
        Seq::empty()
    } else if ps.len() == 1 {
        ps[0]
    } else {
        joined(ps.drop_last()) + seq![' '] + ps.last()
    }
}

/// Pieces a line is made of for the law below: each non-empty, free of white space and
/// of neighbouring delimiters, and, but for the last, not ending in a delimiter unless it
/// is a lone delimiter.
pub open spec fn plain_pieces(ps: Seq<Seq<char>>, d: Seq<char>) -> bool {
    forall|i: int|
        0 <= i < ps.len() ==> {
            &&& (#[trigger] ps[i]).len() > 0
            &&& no_sep(ps[i], ws_sep())
            &&& no_adjacent_delims(ps[i], d)
            &&& (i < ps.len() - 1 ==> ps[i].len() == 1 || !d.contains(ps[i].last()))
        }
}

proof fn lemma_joined_runs(ps: Seq<Seq<char>>, d: Seq<char>)
    requires
        plain_pieces(ps, d),
    ensures
        runs(joined(ps), ws_sep()) == ps,
    decreases ps.len(),
{
    if ps.len() == 0 {
        lemma_runs_none(Seq::<char>::empty(), ws_sep());
        assert(runs(joined(ps), ws_sep()) =~= ps);
    } else if ps.len() == 1 {
        assert(ps[0].len() > 0);
        lemma_runs_none(ps[0], ws_sep());
        assert(runs(joined(ps), ws_sep()) =~= ps);
    } else {
        let pre = ps.drop_last();
        assert forall|i: int| 0 <= i < pre.len() implies {
            &&& (#[trigger] pre[i]).len() > 0
            &&& no_sep(pre[i], ws_sep())
            &&& no_adjacent_delims(pre[i], d)
            &&& (i < pre.len() - 1 ==> pre[i].len() == 1 || !d.contains(pre[i].last()))
        } by {
            assert(pre[i] == ps[i]);
        }
        lemma_joined_runs(pre, d);
        assert(ws_sep()(' '));
        lemma_runs_concat(joined(pre), ' ', ps.last(), ws_sep());
        assert(ps.last() == ps[ps.len() - 1]);
        lemma_runs_none(ps.last(), ws_sep());
        assert(runs(joined(ps), ws_sep()) =~= ps);
    }
}

proof fn lemma_joined_render(ps: Seq<Seq<char>>, d: Seq<char>)
    requires
        plain_pieces(ps, d),
        ps.len() > 0,
    ensures
        ({
            let ts = ps.flat_map(|w: Seq<char>| spec_path_tokens(w, d));
            &&& ts.len() > 0
            &&& spec_render(ts) == joined(ps)
            &&& ts.last() == spec_path_tokens(ps.last(), d).last()
        }),
    decreases ps.len(),
{
    let f = |w: Seq<char>| spec_path_tokens(w, d);
    let q = ps.last();
    assert(q == ps[ps.len() - 1]);
    lemma_word_render(q, d);
    let pre = ps.drop_last();
    assert(ps =~= pre.push(q));
    pre.lemma_flat_map_push(f, q);
    if ps.len() == 1 {
        ps.lemma_flat_map_singleton(f);
        assert(ps.flat_map(f) =~= f(q));
    } else {
        assert forall|i: int| 0 <= i < pre.len() implies {
            &&& (#[trigger] pre[i]).len() > 0
            &&& no_sep(pre[i], ws_sep())
            &&& no_adjacent_delims(pre[i], d)
            &&& (i < pre.len() - 1 ==> pre[i].len() == 1 || !d.contains(pre[i].last()))
        } by {
            assert(pre[i] == ps[i]);
        }
        lemma_joined_render(pre, d);
        let a = pre.flat_map(f);
        let p0 = pre.last();
        assert(p0 == ps[pre.len() - 1]);
        lemma_word_render(p0, d);
        lemma_render_append(a, f(q));
        assert((a + f(q)).last() == f(q).last());
    }
}

/// A line of space-joined pieces, each free of white space and of neighbouring path
/// delimiters and, but for the last, not ending in a delimiter unless it is a lone
/// delimiter, renders back to itself from its tokens.
pub proof fn law_tokenize_renders_back(ps: Seq<Seq<char>>, d: Seq<char>)
    requires
        plain_pieces(ps, d),
    ensures
        spec_render(spec_tokenize(joined(ps), d)) == joined(ps),
{
    let s = joined(ps);
    lemma_words_runs(s, 0, 0);
    lemma_joined_runs(ps, d);
    assert(spec_words(s) == ps);
    if ps.len() == 0 {
        let f = |w: Seq<char>| spec_path_tokens(w, d);
        assert(ps.map_values(f) =~= Seq::<Seq<TokenView>>::empty());
        assert(spec_tokenize(s, d) =~= Seq::<TokenView>::empty());
        assert(spec_render(Seq::<TokenView>::empty()) =~= Seq::<char>::empty());
    } else {
        lemma_joined_render(ps, d);
    }
}

} // verus!
