//! Token-vector similarity: the fraction of positions that match, where a wildcard
//! template token matches anything.
use vstd::prelude::*;

use crate::text::str_eq;
use crate::tokenize::{owned_views, views_of, OwnedToken, Token, TokenView};

verus! {

/// A similarity score, the fraction `matches / total`; `total` is never zero.
#[derive(Debug, Clone, Copy, PartialEq, Eq)]
pub struct Similarity {
    /// Positions that match.
    pub matches: u64,
    /// Positions compared.
    pub total: u64,
}

/// Whether template token `t` accepts incoming token text `x`.
pub open spec fn token_matches(t: TokenView, x: TokenView, wildcard: Seq<char>) -> bool {
    t.text == wildcard || t.text == x.text
}

/// How many of the first `n` positions match.
pub open spec fn match_count(
    template: Seq<TokenView>,
    toks: Seq<TokenView>,
    wildcard: Seq<char>,
    n: int,
) -> nat
    decreases n,
{
    if n <= 0 {
        0
    } else {
        match_count(template, toks, wildcard, n - 1) + if token_matches(
            template[n - 1],
            toks[n - 1],
            wildcard,
        ) {
            1nat
        } else {
            0nat
        }
    }
}

/// The similarity of a template and a token vector: differing lengths score 0/1, two empty
/// vectors score 1/1, otherwise the matching positions over the length.
pub open spec fn spec_similarity(
    template: Seq<TokenView>,
    toks: Seq<TokenView>,
    wildcard: Seq<char>,
) -> (nat, nat) {
    if template.len() != toks.len() {
        (0, 1)
    } else if template.len() == 0 {
        (1, 1)
    } else {
        (match_count(template, toks, wildcard, template.len() as int), template.len())
    }
}

/// The view of a score as a pair.
pub open spec fn sim_pair(s: Similarity) -> (nat, nat) {
    (s.matches as nat, s.total as nat)
}

/// `a > b` for fractions with positive denominators.
pub open spec fn frac_gt(a: (nat, nat), b: (nat, nat)) -> bool {
    a.0 * b.1 > b.0 * a.1
}

proof fn lemma_match_count_le(
    template: Seq<TokenView>,
    toks: Seq<TokenView>,
    wildcard: Seq<char>,
    n: int,
)
    ensures
        match_count(template, toks, wildcard, n) <= if n < 0 { 0 } else { n },
    decreases n,
{
    if n > 0 {
        lemma_match_count_le(template, toks, wildcard, n - 1);
    }
}

/// Similarity in `[0, 1]`, as a fraction. Differing lengths score `0/1`. Two empty
/// vectors score `1/1` (identical empty templates).
pub fn similarity(template: &[OwnedToken], tokens: &[Token<'_>], wildcard: &str) -> (s: Similarity)
    ensures
        sim_pair(s) == spec_similarity(owned_views(template@), views_of(tokens@), wildcard@),
        s.total > 0,
        s.matches <= s.total,
{
    if template.len() != tokens.len() {
        return Similarity { matches: 0, total: 1 };
    }
    if template.len() == 0 {
        return Similarity { matches: 1, total: 1 };
    }
    let ghost tv = owned_views(template@);
    let ghost xv = views_of(tokens@);
    let mut matches: u64 = 0;
    let mut i: usize = 0;
    while i < template.len()
        invariant
            i <= template.len(),
            template.len() == tokens.len(),
            tv == owned_views(template@),
            xv == views_of(tokens@),
            matches == match_count(tv, xv, wildcard@, i as int),
            matches <= i,
        decreases template.len() - i,
    {
        let t = &template[i];
        let x = &tokens[i];
        if str_eq(t.text.as_str(), wildcard) || str_eq(t.text.as_str(), x.text) {
            matches = matches + 1;
        }
        i = i + 1;
    }
    proof {
        lemma_match_count_le(tv, xv, wildcard@, template.len() as int);
    }
    Similarity { matches, total: template.len() as u64 }
}

} // verus!
