//! Cluster types. `ClusterInner` is the mutable body held by the miner;
//! `Cluster` is an immutable snapshot returned to callers.
use vstd::prelude::*;

use std::time::SystemTime;

use crate::text::{str_eq, string_push};
use crate::tokenize::{owned_views, views_of, OwnedToken, Token, TokenView};
use crate::ClusterId;

verus! {

#[verifier::external_type_specification]
#[verifier::external_body]
pub struct ExSystemTime(std::time::SystemTime);

/// The `SystemTime` that lies `ms` milliseconds after the Unix epoch.
pub uninterp spec fn time_at_ms(ms: u64) -> SystemTime;

/// `UNIX_EPOCH.checked_add(Duration::from_millis(ms))`: the time `ms` milliseconds after
/// the epoch, or `None` where the platform's `SystemTime` cannot hold it. Which times a
/// platform can hold is left unsaid.
#[verifier::external_body]
pub(crate) fn time_from_ms(ms: u64) -> (t: Option<SystemTime>)
    ensures
        t matches Some(x) ==> x == time_at_ms(ms),
{
    std::time::UNIX_EPOCH.checked_add(std::time::Duration::from_millis(ms))
}

/// The wall clock, in unix-millis (0 before the epoch). Nothing is promised of the value:
/// it is whatever the system clock reads.
#[verifier::external_body]
pub(crate) fn now_ms() -> u64 {
    SystemTime::now().duration_since(std::time::UNIX_EPOCH).map(|d| d.as_millis() as u64).unwrap_or(0)
}

/// Sentinel for `event_first_ms` meaning "no event timestamp recorded".
pub const EVENT_UNSET: u64 = 0xffff_ffff_ffff_ffff;

/// The views of a sequence of strings.
pub open spec fn strings_view(v: Seq<String>) -> Seq<Seq<char>> {
    v.map_values(|s: String| s@)
}

/// The view of an optional string.
pub open spec fn opt_string_view(o: Option<String>) -> Option<Seq<char>> {
    match o {
        Some(s) => Some(s@),
        None => None,
    }
}

/// What a cluster body is, as plain values.
pub struct ClusterInnerView {
    pub id: u64,
    pub tokens: Seq<TokenView>,
    pub size: u64,
    pub created_at_ms: u64,
    pub updated_at_ms: u64,
    pub last_used: u64,
    pub event_first_ms: u64,
    pub event_last_ms: u64,
    pub suffix: Option<Seq<char>>,
    pub members: Seq<Seq<char>>,
}

/// Mutable cluster body held by the miner.
///
/// `last_used` is a monotonic tick (not wall-clock) used as the LRU recency key, so
/// eviction order is precise even when many hits land in the same millisecond.
#[derive(Debug)]
pub struct ClusterInner {
    pub id: ClusterId,
    pub tokens: Vec<OwnedToken>,
    pub size: u64,
    pub created_at_ms: u64,
    pub updated_at_ms: u64,
    pub last_used: u64,
    /// Smallest event timestamp (unix-ms) seen, or [`EVENT_UNSET`] if no event time
    /// has been supplied.
    pub event_first_ms: u64,
    /// Largest event timestamp (unix-ms) seen, or `0` when unset.
    pub event_last_ms: u64,
    /// Remainder after the first line (set at creation in first-line mode); it goes
    /// through the same mask pass as the rest of the input.
    pub suffix: Option<String>,
    /// Deduplicated member labels.
    pub members: Vec<String>,
}

impl View for ClusterInner {
    type V = ClusterInnerView;

    open spec fn view(&self) -> ClusterInnerView {
        ClusterInnerView {
            id: self.id,
            tokens: owned_views(self.tokens@),
            size: self.size,
            created_at_ms: self.created_at_ms,
            updated_at_ms: self.updated_at_ms,
            last_used: self.last_used,
            event_first_ms: self.event_first_ms,
            event_last_ms: self.event_last_ms,
            suffix: opt_string_view(self.suffix),
            members: strings_view(self.members@),
        }
    }
}

/// A template token after generalizing against incoming token `x`: it becomes the
/// wildcard when it is not one already and differs from `x`; its delimiters stay.
pub open spec fn generalized_token(t: TokenView, x: TokenView, wildcard: Seq<char>) -> TokenView {
    if t.text != wildcard && t.text != x.text {
        TokenView { text: wildcard, leading: t.leading, trailing: t.trailing }
    } else {
        t
    }
}

/// A template generalized position by position against `xs`.
pub open spec fn spec_generalize(
    ts: Seq<TokenView>,
    xs: Seq<TokenView>,
    wildcard: Seq<char>,
) -> Seq<TokenView> {
    Seq::new(
        ts.len(),
        |i: int|
            if i < xs.len() {
                generalized_token(ts[i], xs[i], wildcard)
            } else {
                ts[i]
            },
    )
}

/// Whether generalizing `ts` against `xs` would change it.
pub open spec fn spec_would_generalize(
    ts: Seq<TokenView>,
    xs: Seq<TokenView>,
    wildcard: Seq<char>,
) -> bool {
    exists|i: int|
        0 <= i < ts.len() && i < xs.len() && ts[i].text != wildcard && ts[i].text != xs[i].text
}

/// The text that joins token `i - 1` to token `i` and opens token `i`: the previous
/// token's trailing delimiter (else a space), then this token's leading delimiter unless
/// the previous one already supplied the joint.
pub open spec fn render_piece(ts: Seq<TokenView>, i: int) -> Seq<char> {
    let prev: Option<char> = if i == 0 {
        None
    } else {
        ts[i - 1].trailing
    };
    let sep: Seq<char> = if i == 0 {
        Seq::empty()
    } else {
        match prev {
            Some(c) => seq![c],
            None => seq![' '],
        }
    };
    let lead: Seq<char> = match prev {
        None => match ts[i].leading {
            Some(c) => seq![c],
            None => Seq::empty(),
        },
        Some(_) => Seq::empty(),
    };
    sep + lead + ts[i].text
}

/// The rendering of the first `k` tokens.
pub open spec fn render_prefix(ts: Seq<TokenView>, k: int) -> Seq<char>
    decreases k,
{
    if k <= 0 {
        Seq::empty()
    } else {
        render_prefix(ts, k - 1) + render_piece(ts, k - 1)
    }
}

/// The rendered template: the pieces in order, then the last token's trailing delimiter.
pub open spec fn spec_render(ts: Seq<TokenView>) -> Seq<char> {
    render_prefix(ts, ts.len() as int) + if ts.len() > 0 {
        match ts.last().trailing {
            Some(c) => seq![c],
            None => Seq::<char>::empty(),
        }
    } else {
        Seq::<char>::empty()
    }
}

/// Members after recording `m`: unchanged if already present, else `m` appended.
pub open spec fn spec_add_member(members: Seq<Seq<char>>, m: Seq<char>) -> Seq<Seq<char>> {
    if members.contains(m) {
        members
    } else {
        members.push(m)
    }
}

/// A copy of a token vector.
pub fn copy_tokens(ts: &[OwnedToken]) -> (r: Vec<OwnedToken>)
    ensures
        owned_views(r@) == owned_views(ts@),
{
    let mut r: Vec<OwnedToken> = Vec::new();
    let mut i: usize = 0;
    while i < ts.len()
        invariant
            i <= ts.len(),
            owned_views(r@) == owned_views(ts@).take(i as int),
        decreases ts.len() - i,
    {
        let t = OwnedToken {
            text: ts[i].text.clone(),
            leading_delim: ts[i].leading_delim,
            trailing_delim: ts[i].trailing_delim,
        };
        let ghost prev = r@;
        r.push(t);
        assert(owned_views(r@) =~= owned_views(prev).push(t@));
        assert(owned_views(ts@).take(i + 1) =~= owned_views(ts@).take(i as int).push(ts@[i as int]@));
        i = i + 1;
    }
    assert(owned_views(ts@).take(ts.len() as int) =~= owned_views(ts@));
    r
}

/// Owned copies of borrowed tokens.
pub fn own_tokens(ts: &[Token<'_>]) -> (r: Vec<OwnedToken>)
    ensures
        owned_views(r@) == views_of(ts@),
{
    let mut r: Vec<OwnedToken> = Vec::new();
    let mut i: usize = 0;
    while i < ts.len()
        invariant
            i <= ts.len(),
            owned_views(r@) == views_of(ts@).take(i as int),
        decreases ts.len() - i,
    {
        let t = OwnedToken::from_token(&ts[i]);
        let ghost prev = r@;
        r.push(t);
        assert(owned_views(r@) =~= owned_views(prev).push(t@));
        assert(views_of(ts@).take(i + 1) =~= views_of(ts@).take(i as int).push(ts@[i as int]@));
        i = i + 1;
    }
    assert(views_of(ts@).take(ts.len() as int) =~= views_of(ts@));
    r
}

/// A copy of a string vector.
pub fn copy_strings(v: &[String]) -> (r: Vec<String>)
    ensures
        strings_view(r@) == strings_view(v@),
{
    let mut r: Vec<String> = Vec::new();
    let mut i: usize = 0;
    while i < v.len()
        invariant
            i <= v.len(),
            strings_view(r@) == strings_view(v@).take(i as int),
        decreases v.len() - i,
    {
        let s = v[i].clone();
        let ghost prev = r@;
        r.push(s);
        assert(strings_view(r@) =~= strings_view(prev).push(s@));
        assert(strings_view(v@).take(i + 1) =~= strings_view(v@).take(i as int).push(v@[i as int]@));
        i = i + 1;
    }
    assert(strings_view(v@).take(v.len() as int) =~= strings_view(v@));
    r
}

/// A copy of an optional string.
pub fn copy_opt_string(o: &Option<String>) -> (r: Option<String>)
    ensures
        opt_string_view(r) == opt_string_view(*o),
{
    match o {
        Some(s) => Some(s.clone()),
        None => None,
    }
}

/// Render a token sequence as a template string (see [`spec_render`]).
pub fn render_tokens(tokens: &[OwnedToken]) -> (s: String)
    ensures
        s@ == spec_render(owned_views(tokens@)),
{
    let ghost ts = owned_views(tokens@);
    let mut s = String::new();
    let mut prev_trailing: Option<char> = None;
    let mut i: usize = 0;
    while i < tokens.len()
        invariant
            i <= tokens.len(),
            ts == owned_views(tokens@),
            s@ == render_prefix(ts, i as int),
            prev_trailing == if i == 0 {
                None
            } else {
                ts[i - 1].trailing
            },
        decreases tokens.len() - i,
    {
        let t = &tokens[i];
        let ghost before = s@;
        if i > 0 {
            match prev_trailing {
                Some(c) => string_push(&mut s, c),
                None => string_push(&mut s, ' '),
            }
        }
        if prev_trailing.is_none() {
            if let Some(c) = t.leading_delim {
                string_push(&mut s, c);
            }
        }
        s.append(t.text.as_str());
        assert(s@ =~= before + render_piece(ts, i as int));
        prev_trailing = t.trailing_delim;
        i = i + 1;
    }
    if let Some(c) = prev_trailing {
        string_push(&mut s, c);
    }
    assert(s@ =~= spec_render(ts));
    s
}

impl ClusterInner {
    /// Create a fresh cluster of size 1 from the given owned tokens and optional
    /// suffix. `event_ms` is the caller-supplied event timestamp (unix-ms) for this
    /// first line, or `None` if event time is not being tracked.
    pub fn new(
        id: ClusterId,
        tokens: Vec<OwnedToken>,
        now_ms: u64,
        suffix: Option<String>,
        event_ms: Option<u64>,
    ) -> (c: ClusterInner)
        ensures
            c@ == (ClusterInnerView {
                id,
                tokens: owned_views(tokens@),
                size: 1,
                created_at_ms: now_ms,
                updated_at_ms: now_ms,
                last_used: 0,
                event_first_ms: match event_ms {
                    Some(ms) => ms,
                    None => EVENT_UNSET,
                },
                event_last_ms: match event_ms {
                    Some(ms) => ms,
                    None => 0,
                },
                suffix: opt_string_view(suffix),
                members: Seq::empty(),
            }),
    {
        let (event_first, event_last) = match event_ms {
            Some(ms) => (ms, ms),
            None => (EVENT_UNSET, 0),
        };
        let c = ClusterInner {
            id,
            tokens,
            size: 1,
            created_at_ms: now_ms,
            updated_at_ms: now_ms,
            last_used: 0,
            event_first_ms: event_first,
            event_last_ms: event_last,
            suffix,
            members: Vec::new(),
        };
        assert(strings_view(c.members@) =~= Seq::empty());
        c
    }

    /// A copy of this body.
    pub fn duplicate(&self) -> (c: ClusterInner)
        ensures
            c@ == self@,
    {
        ClusterInner {
            id: self.id,
            tokens: copy_tokens(self.tokens.as_slice()),
            size: self.size,
            created_at_ms: self.created_at_ms,
            updated_at_ms: self.updated_at_ms,
            last_used: self.last_used,
            event_first_ms: self.event_first_ms,
            event_last_ms: self.event_last_ms,
            suffix: copy_opt_string(&self.suffix),
            members: copy_strings(self.members.as_slice()),
        }
    }

    /// Record a hit: increment size (wrapping, like an atomic counter), refresh
    /// `updated_at`, and set the LRU recency to `tick`.
    pub fn touch(&mut self, tick: u64, now_ms: u64)
        ensures
            final(self)@ == (ClusterInnerView {
                size: old(self)@.size.wrapping_add(1),
                updated_at_ms: now_ms,
                last_used: tick,
                ..old(self)@
            }),
    {
        self.size = self.size.wrapping_add(1);
        self.updated_at_ms = now_ms;
        self.last_used = tick;
    }

    /// Fold an event timestamp (unix-ms) into this cluster's min/max event window.
    pub fn observe_event(&mut self, ms: u64)
        ensures
            final(self)@ == (ClusterInnerView {
                event_first_ms: if ms < old(self)@.event_first_ms {
                    ms
                } else {
                    old(self)@.event_first_ms
                },
                event_last_ms: if ms > old(self)@.event_last_ms {
                    ms
                } else {
                    old(self)@.event_last_ms
                },
                ..old(self)@
            }),
    {
        if ms < self.event_first_ms {
            self.event_first_ms = ms;
        }
        if ms > self.event_last_ms {
            self.event_last_ms = ms;
        }
    }

    /// LRU recency key (monotonic tick; higher = more recently used).
    pub fn recency(&self) -> (r: u64)
        ensures
            r == self.last_used,
    {
        self.last_used
    }

    /// Whether generalizing against `incoming` would change the template.
    pub fn would_generalize(&self, incoming: &[Token<'_>], wildcard: &str) -> (b: bool)
        ensures
            b == spec_would_generalize(self@.tokens, views_of(incoming@), wildcard@),
    {
        let ghost ts = self@.tokens;
        let ghost xs = views_of(incoming@);
        let mut i: usize = 0;
        while i < self.tokens.len() && i < incoming.len()
            invariant
                i <= self.tokens.len(),
                ts == self@.tokens,
                xs == views_of(incoming@),
                forall|j: int|
                    0 <= j < i ==> !(j < xs.len() && ts[j].text != wildcard@ && ts[j].text
                        != xs[j].text),
            decreases self.tokens.len() - i,
        {
            let stored = self.tokens[i].text.as_str();
            if !str_eq(stored, wildcard) && !str_eq(stored, incoming[i].text) {
                assert(ts[i as int].text == self.tokens@[i as int].text@);
                assert(xs[i as int].text == incoming@[i as int].text@);
                assert(0 <= i < ts.len() && i < xs.len() && ts[i as int].text != wildcard@
                    && ts[i as int].text != xs[i as int].text);
                return true;
            }
            i = i + 1;
        }
        assert forall|j: int|
            0 <= j < ts.len() && j < xs.len() implies !(ts[j].text != wildcard@ && ts[j].text
            != xs[j].text) by {
            assert(j < i);
        }
        false
    }

    /// Record a member label, de-duplicating against existing members.
    pub fn add_member(&mut self, member: &str)
        ensures
            final(self)@ == (ClusterInnerView {
                members: spec_add_member(old(self)@.members, member@),
                ..old(self)@
            }),
    {
        let ghost ms = self@.members;
        let mut i: usize = 0;
        while i < self.members.len()
            invariant
                i <= self.members.len(),
                ms == strings_view(self.members@),
                forall|j: int| 0 <= j < i ==> ms[j] != member@,
            decreases self.members.len() - i,
        {
            if str_eq(self.members[i].as_str(), member) {
                assert(ms.contains(member@)) by {
                    assert(ms[i as int] == member@);
                }
                return;
            }
            i = i + 1;
        }
        let ghost prev = self.members@;
        self.members.push(member.to_owned());
        assert(strings_view(self.members@) =~= strings_view(prev).push(member@));
    }

    /// Render the template string.
    pub fn render_template(&self, _wildcard: &str) -> (s: String)
        ensures
            s@ == spec_render(self@.tokens),
    {
        render_tokens(self.tokens.as_slice())
    }

    /// Generalize the template against an incoming token vector: any position whose
    /// stored token differs from the incoming token (and is not already the wildcard)
    /// becomes the wildcard, keeping its delimiter flags. Returns whether anything
    /// changed.
    pub fn generalize(&mut self, incoming: &[Token<'_>], wildcard: &str) -> (changed: bool)
        ensures
            final(self)@ == (ClusterInnerView {
                tokens: spec_generalize(old(self)@.tokens, views_of(incoming@), wildcard@),
                ..old(self)@
            }),
            changed == spec_would_generalize(old(self)@.tokens, views_of(incoming@), wildcard@),
    {
        let ghost ts = self@.tokens;
        let ghost xs = views_of(incoming@);
        let mut changed = false;
        let mut i: usize = 0;
        while i < self.tokens.len() && i < incoming.len()
            invariant
                i <= self.tokens.len(),
                i <= incoming.len(),
                self.tokens.len() == ts.len(),
                xs == views_of(incoming@),
                self@ == (ClusterInnerView { tokens: self@.tokens, ..old(self)@ }),
                ts == old(self)@.tokens,
                forall|j: int|
                    0 <= j < ts.len() ==> #[trigger] self@.tokens[j] == if j < i {
                        generalized_token(ts[j], xs[j], wildcard@)
                    } else {
                        ts[j]
                    },
                changed == exists|j: int|
                    0 <= j < i && j < xs.len() && ts[j].text != wildcard@ && ts[j].text
                        != xs[j].text,
            decreases self.tokens.len() - i,
        {
            let ghost prev = self.tokens@;
            let ghost prev_view = self@.tokens;
            let ghost was_changed = changed;
            assert(self@.tokens[i as int] == ts[i as int]);
            assert(self@.tokens[i as int] == self.tokens@[i as int]@);
            assert(incoming@[i as int]@ == xs[i as int]);
            let stored = self.tokens[i].text.as_str();
            if !str_eq(stored, wildcard) && !str_eq(stored, incoming[i].text) {
                let t = OwnedToken {
                    text: wildcard.to_owned(),
                    leading_delim: self.tokens[i].leading_delim,
                    trailing_delim: self.tokens[i].trailing_delim,
                };
                self.tokens.set(i, t);
                assert(self.tokens@ == prev.update(i as int, t));
                assert(t@ == generalized_token(ts[i as int], xs[i as int], wildcard@));
                changed = true;
            } else {
                assert(ts[i as int] == generalized_token(ts[i as int], xs[i as int], wildcard@));
            }
            proof {
                assert forall|j: int| 0 <= j < ts.len() implies #[trigger] self@.tokens[j] == if j < i + 1 {
                    generalized_token(ts[j], xs[j], wildcard@)
                } else {
                    ts[j]
                } by {
                    if j != i {
                        assert(self.tokens@[j] == prev[j]);
                        assert(prev_view[j] == prev[j]@);
                        assert(self@.tokens[j] == self.tokens@[j]@);
                    } else {
                        assert(self@.tokens[j] == self.tokens@[j]@);
                    }
                }
                if changed && !was_changed {
                    assert(0 <= i < i + 1 && i < xs.len() && ts[i as int].text != wildcard@
                        && ts[i as int].text != xs[i as int].text);
                }
            }
            i = i + 1;
        }
        proof {
            assert forall|j: int| 0 <= j < ts.len() implies self@.tokens[j] == spec_generalize(
                ts,
                xs,
                wildcard@,
            )[j] by {
                assert(self@.tokens[j] == if j < i {
                    generalized_token(ts[j], xs[j], wildcard@)
                } else {
                    ts[j]
                });
            }
            assert(self@.tokens =~= spec_generalize(ts, xs, wildcard@));
            if changed {
            } else {
                assert forall|j: int|
                    0 <= j < ts.len() && j < xs.len() implies !(ts[j].text != wildcard@
                    && ts[j].text != xs[j].text) by {
                    assert(j < i);
                }
            }
        }
        changed
    }

    /// Produce an immutable public snapshot.
    pub fn to_public(&self, wildcard: &str) -> (c: Cluster)
        ensures
            c@ == spec_to_public(self@),
    {
        let ef = self.event_first_ms;
        let (event_first, event_last) = if ef == EVENT_UNSET {
            (None, None)
        } else {
            (Some(ef), Some(self.event_last_ms))
        };
        Cluster {
            id: self.id,
            template: self.render_template(wildcard),
            tokens: copy_tokens(self.tokens.as_slice()),
            size: self.size,
            created_at_ms: self.created_at_ms,
            updated_at_ms: self.updated_at_ms,
            event_first_ms: event_first,
            event_last_ms: event_last,
            suffix: copy_opt_string(&self.suffix),
            members: copy_strings(self.members.as_slice()),
        }
    }
}

/// What a public cluster snapshot is, as plain values.
pub struct ClusterView {
    pub id: u64,
    pub template: Seq<char>,
    pub tokens: Seq<TokenView>,
    pub size: u64,
    pub created_at_ms: u64,
    pub updated_at_ms: u64,
    pub event_first_ms: Option<u64>,
    pub event_last_ms: Option<u64>,
    pub suffix: Option<Seq<char>>,
    pub members: Seq<Seq<char>>,
}

/// The public snapshot of a cluster body.
pub open spec fn spec_to_public(c: ClusterInnerView) -> ClusterView {
    ClusterView {
        id: c.id,
        template: spec_render(c.tokens),
        tokens: c.tokens,
        size: c.size,
        created_at_ms: c.created_at_ms,
        updated_at_ms: c.updated_at_ms,
        event_first_ms: if c.event_first_ms == EVENT_UNSET {
            None
        } else {
            Some(c.event_first_ms)
        },
        event_last_ms: if c.event_first_ms == EVENT_UNSET {
            None
        } else {
            Some(c.event_last_ms)
        },
        suffix: c.suffix,
        members: c.members,
    }
}

/// Immutable snapshot of a cluster, returned by miner query APIs.
#[derive(Debug)]
pub struct Cluster {
    id: ClusterId,
    template: String,
    tokens: Vec<OwnedToken>,
    size: u64,
    created_at_ms: u64,
    updated_at_ms: u64,
    event_first_ms: Option<u64>,
    event_last_ms: Option<u64>,
    suffix: Option<String>,
    members: Vec<String>,
}

impl View for Cluster {
    type V = ClusterView;

    closed spec fn view(&self) -> ClusterView {
        ClusterView {
            id: self.id,
            template: self.template@,
            tokens: owned_views(self.tokens@),
            size: self.size,
            created_at_ms: self.created_at_ms,
            updated_at_ms: self.updated_at_ms,
            event_first_ms: self.event_first_ms,
            event_last_ms: self.event_last_ms,
            suffix: opt_string_view(self.suffix),
            members: strings_view(self.members@),
        }
    }
}

impl Cluster {
    /// Stable cluster id.
    pub fn id(&self) -> (r: ClusterId)
        ensures
            r == self@.id,
    {
        self.id
    }

    /// Number of lines that have joined this cluster.
    pub fn size(&self) -> (r: u64)
        ensures
            r == self@.size,
    {
        self.size
    }

    /// Rendered template string.
    pub fn template(&self) -> (r: &str)
        ensures
            r@ == self@.template,
    {
        self.template.as_str()
    }

    /// The template's owned tokens.
    pub fn tokens(&self) -> (r: &[OwnedToken])
        ensures
            owned_views(r@) == self@.tokens,
    {
        self.tokens.as_slice()
    }

    /// Suffix captured in first-line-only mode, if any (masked like the rest of the
    /// input, not raw text).
    pub fn suffix(&self) -> (r: Option<&str>)
        ensures
            match r {
                Some(s) => self@.suffix == Some(s@),
                None => self@.suffix is None,
            },
    {
        match &self.suffix {
            Some(s) => Some(s.as_str()),
            None => None,
        }
    }

    /// Deduplicated member labels recorded via `add_with_member`.
    pub fn members(&self) -> (r: &[String])
        ensures
            strings_view(r@) == self@.members,
    {
        self.members.as_slice()
    }

    /// Wall-clock time (unix-ms) this cluster was first observed during processing.
    pub fn created_at_ms(&self) -> (r: u64)
        ensures
            r == self@.created_at_ms,
    {
        self.created_at_ms
    }

    /// Wall-clock time (unix-ms) this cluster was last hit during processing.
    pub fn updated_at_ms(&self) -> (r: u64)
        ensures
            r == self@.updated_at_ms,
    {
        self.updated_at_ms
    }

    /// Wall-clock time this cluster was first observed **during processing**.
    ///
    /// This is the machine's clock at the moment `add` first created the cluster -
    /// it is **not** parsed from the log line.
    ///
    /// `None` where the platform's `SystemTime` cannot hold that time.
    pub fn created_at(&self) -> (t: Option<SystemTime>)
        ensures
            t matches Some(x) ==> x == time_at_ms(self@.created_at_ms),
    {
        time_from_ms(self.created_at_ms)
    }

    /// Wall-clock time this cluster was last hit **during processing**.
    ///
    /// `None` where the platform's `SystemTime` cannot hold that time.
    pub fn updated_at(&self) -> (t: Option<SystemTime>)
        ensures
            t matches Some(x) ==> x == time_at_ms(self@.updated_at_ms),
    {
        time_from_ms(self.updated_at_ms)
    }

    /// Earliest event timestamp (unix-ms), or `None` if event time was never supplied.
    pub fn event_first_ms(&self) -> (r: Option<u64>)
        ensures
            r == self@.event_first_ms,
    {
        self.event_first_ms
    }

    /// Latest event timestamp (unix-ms), or `None` if event time was never supplied.
    pub fn event_last_ms(&self) -> (r: Option<u64>)
        ensures
            r == self@.event_last_ms,
    {
        self.event_last_ms
    }

    /// Earliest **event** timestamp recorded for this cluster, or `None` if event
    /// time was never supplied (i.e. lines were added with `add`, not `add_at`), or
    /// where the platform's `SystemTime` cannot hold it.
    pub fn event_first_seen(&self) -> (r: Option<SystemTime>)
        ensures
            match self@.event_first_ms {
                Some(ms) => r matches Some(x) ==> x == time_at_ms(ms),
                None => r is None,
            },
    {
        match self.event_first_ms {
            Some(ms) => time_from_ms(ms),
            None => None,
        }
    }

    /// Latest **event** timestamp recorded, or `None` if event time was never supplied
    /// (or where the platform's `SystemTime` cannot hold it).
    pub fn event_last_seen(&self) -> (r: Option<SystemTime>)
        ensures
            match self@.event_last_ms {
                Some(ms) => r matches Some(x) ==> x == time_at_ms(ms),
                None => r is None,
            },
    {
        match self.event_last_ms {
            Some(ms) => time_from_ms(ms),
            None => None,
        }
    }

    /// The observed processing span `updated_at - created_at` in milliseconds (0 when
    /// the clock went backwards), the span a lines-per-minute rate is measured over.
    pub fn observed_span_ms(&self) -> (r: u64)
        ensures
            r == if self@.updated_at_ms >= self@.created_at_ms {
                (self@.updated_at_ms - self@.created_at_ms) as u64
            } else {
                0u64
            },
    {
        if self.updated_at_ms >= self.created_at_ms {
            self.updated_at_ms - self.created_at_ms
        } else {
            0
        }
    }

    /// The event-time window `event_last - event_first` in milliseconds, or `None` if
    /// event time was never supplied.
    pub fn event_span_ms(&self) -> (r: Option<u64>)
        ensures
            match (self@.event_first_ms, self@.event_last_ms) {
                (Some(f), Some(l)) => r == Some(if l >= f { (l - f) as u64 } else { 0u64 }),
                _ => r is None,
            },
    {
        match (self.event_first_ms, self.event_last_ms) {
            (Some(f), Some(l)) => Some(if l >= f { l - f } else { 0 }),
            _ => None,
        }
    }
}

/// Recording a member keeps every member already recorded, in order, adds `m` when it was
/// missing and only then, and keeps the list free of repeats.
pub proof fn law_add_member_dedups(members: Seq<Seq<char>>, m: Seq<char>)
    ensures
        spec_add_member(members, m).contains(m),
        members.contains(m) ==> spec_add_member(members, m) == members,
        !members.contains(m) ==> spec_add_member(members, m).len() == members.len() + 1
            && spec_add_member(members, m).take(members.len() as int) == members,
        members.no_duplicates() ==> spec_add_member(members, m).no_duplicates(),
{
    if !members.contains(m) {
        let r = members.push(m);
        assert(r[members.len() as int] == m);
        assert(r.take(members.len() as int) =~= members);
    }
}

} // verus!
