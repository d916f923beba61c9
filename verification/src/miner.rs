//! The public `Miner`: token-count shards, each a prefix tree whose leaves hold
//! cluster ids, and the cluster bodies keyed by id.
use vstd::prelude::*;

use crate::cluster::{
    now_ms, opt_string_view, own_tokens, spec_add_member, spec_generalize, spec_to_public,
    spec_would_generalize, strings_view, Cluster, ClusterInner, ClusterInnerView, ClusterView,
    EVENT_UNSET,
};
use crate::mask::{apply_masks, spec_apply_masks};
use crate::options::{
    meets, meets_threshold, spec_active_delims, spec_validate, MinerBuilder, Options, OptionsView,
};
use crate::similarity::{frac_gt, sim_pair, similarity, spec_similarity};
use crate::shards::ShardTable;
use crate::table::ClusterTable;
use crate::tokenize::{
    first_newline, is_numeric_token, spec_is_numeric, spec_tokenize, split_first_line,
    tokenize_with, views_of, Token, TokenView,
};
use crate::tree::{apply_op, lookup, wf, LeafOp, LeafView, TreeNode};
use crate::error::LogdrainError;
use crate::persistence::{opt_bytes, Persistence, PersistenceError};
use crate::snapshot::{
    cluster_record_view, decode, encode, frame, bincode_snapshot_bytes, options_record_view,
    record_view, spec_decode, token_records_view, ClusterRecord, ClusterRecordView,
    DecodeOutcome, OptionsRecord, OptionsRecordView, SnapshotRecord, SnapshotView,
    TokenRecord, VERSION,
};
use crate::tokenize::{owned_views, OwnedToken};
use crate::ClusterId;
use crate::consistency::{consistent, law_fresh_consistent, law_observe, law_restore_snapshot};

verus! {

/// How an `add` affected the matched/created cluster.
#[derive(Debug, Clone, Copy, PartialEq, Eq)]
pub enum UpdateType {
    /// A brand-new cluster was created.
    Created,
    /// An existing cluster's template was generalized.
    TemplateChanged,
    /// An existing cluster matched with no template change.
    Unchanged,
}

/// Result of adding a line.
#[derive(Debug, Clone, Copy, PartialEq, Eq)]
pub struct AddResult {
    /// The cluster the line was assigned to.
    pub cluster_id: ClusterId,
    /// What happened to that cluster.
    pub update: UpdateType,
}

/// What a miner is, as plain values: its options, id counter, LRU tick, cluster bodies,
/// and the leaf reached by each (token count, descent keys) pair.
pub struct MinerView {
    pub options: OptionsView,
    pub counter: u64,
    pub tick: u64,
    pub clusters: Map<u64, ClusterInnerView>,
    pub leaves: Map<(nat, Seq<Seq<char>>), LeafView>,
}

/// Online log-template miner.
#[derive(Debug)]
pub struct Miner {
    shards: ShardTable,
    clusters_by_id: ClusterTable,
    options: Options,
    counter: u64,
    tick: u64,
}

/// The leaves of a set of shards, keyed by (token count, path).
spec fn leaves_of(ss: Map<usize, TreeNode>) -> Map<(nat, Seq<Seq<char>>), LeafView> {
    Map::new(
        |k: (nat, Seq<Seq<char>>)|
            k.0 <= usize::MAX && ss.contains_key(k.0 as usize) && lookup(ss[k.0 as usize], k.1) is Some,
        |k: (nat, Seq<Seq<char>>)| lookup(ss[k.0 as usize], k.1)->0,
    )
}

impl View for Miner {
    type V = MinerView;

    closed spec fn view(&self) -> MinerView {
        MinerView {
            options: self.options@,
            counter: self.counter,
            tick: self.tick,
            clusters: self.clusters_by_id@,
            leaves: leaves_of(self.shards@),
        }
    }
}

/// The number of tree levels below a shard root for `n`-token lines.
pub open spec fn levels(o: OptionsView, n: nat) -> nat {
    if (o.depth - 2) as nat <= n {
        (o.depth - 2) as nat
    } else {
        n
    }
}

/// The masked line split for first-line mode: the part that is tokenized and the suffix.
pub open spec fn spec_first_part(o: OptionsView, masked: Seq<char>) -> (Seq<char>, Option<Seq<char>>) {
    if o.first_line_only {
        match first_newline(masked) {
            Some(k) => (masked.subrange(0, k), Some(masked.subrange(k + 1, masked.len() as int))),
            None => (masked, None),
        }
    } else {
        (masked, None)
    }
}

/// The tokens a line is clustered on: masks, then the first-line split, then path-aware
/// tokenization.
pub open spec fn spec_line_tokens(o: OptionsView, line: Seq<char>) -> Seq<TokenView> {
    spec_tokenize(spec_first_part(o, spec_apply_masks(o.masks, line)).0, spec_active_delims(o))
}

/// The suffix kept for a line in first-line mode.
pub open spec fn spec_line_suffix(o: OptionsView, line: Seq<char>) -> Option<Seq<char>> {
    spec_first_part(o, spec_apply_masks(o.masks, line)).1
}

/// The tree key of one token: the wildcard for a numeric token when numeric
/// parametrization is on, else its text.
pub open spec fn spec_key(o: OptionsView, t: TokenView) -> Seq<char> {
    if o.parametrize_numeric_tokens && spec_is_numeric(t.text) {
        o.wildcard
    } else {
        t.text
    }
}

/// The descent keys of a token vector: the keys of its first `levels` tokens.
pub open spec fn spec_descent_keys(o: OptionsView, toks: Seq<TokenView>) -> Seq<Seq<char>> {
    toks.take(levels(o, toks.len()) as int).map_values(|t: TokenView| spec_key(o, t))
}

/// The leaf a token vector belongs to.
pub open spec fn leaf_key(o: OptionsView, toks: Seq<TokenView>) -> (nat, Seq<Seq<char>>) {
    (toks.len(), spec_descent_keys(o, toks))
}

/// The most similar cluster among `ids` (skipping ids without a body) and its score;
/// the first of equally similar clusters wins.
pub open spec fn best_in(
    ids: Seq<u64>,
    cl: Map<u64, ClusterInnerView>,
    toks: Seq<TokenView>,
    wildcard: Seq<char>,
) -> Option<(u64, (nat, nat))>
    decreases ids.len(),
{
    if ids.len() == 0 {
        None
    } else {
        let prev = best_in(ids.drop_last(), cl, toks, wildcard);
        let id = ids.last();
        if cl.contains_key(id) {
            let s = spec_similarity(cl[id].tokens, toks, wildcard);
            match prev {
                Some((pid, ps)) => if frac_gt(s, ps) {
                    Some((id, s))
                } else {
                    prev
                },
                None => Some((id, s)),
            }
        } else {
            prev
        }
    }
}

/// The cluster a token vector matches in miner state `m`: the most similar cluster of
/// its leaf, if that one reaches the threshold.
pub open spec fn spec_match(m: MinerView, toks: Seq<TokenView>) -> Option<u64> {
    let lk = leaf_key(m.options, toks);
    if m.leaves.contains_key(lk) {
        match best_in(m.leaves[lk].ids, m.clusters, toks, m.options.wildcard) {
            Some((id, s)) => if meets_threshold(s, m.options.sim_threshold) {
                Some(id)
            } else {
                None
            },
            None => None,
        }
    } else {
        None
    }
}

/// A matched body after the hit: one more line, refreshed `updated_at`, the new LRU
/// tick, the event time folded in, the template generalized against the line, and the
/// member recorded.
pub open spec fn spec_matched_body(
    c: ClusterInnerView,
    toks: Seq<TokenView>,
    wildcard: Seq<char>,
    member: Option<Seq<char>>,
    event: Option<u64>,
    tick: u64,
    now: u64,
) -> ClusterInnerView {
    ClusterInnerView {
        size: c.size.wrapping_add(1),
        updated_at_ms: now,
        last_used: tick,
        event_first_ms: match event {
            Some(ms) => if ms < c.event_first_ms {
                ms
            } else {
                c.event_first_ms
            },
            None => c.event_first_ms,
        },
        event_last_ms: match event {
            Some(ms) => if ms > c.event_last_ms {
                ms
            } else {
                c.event_last_ms
            },
            None => c.event_last_ms,
        },
        tokens: if spec_would_generalize(c.tokens, toks, wildcard) {
            spec_generalize(c.tokens, toks, wildcard)
        } else {
            c.tokens
        },
        members: match member {
            Some(m) => spec_add_member(c.members, m),
            None => c.members,
        },
        ..c
    }
}

/// The body of a cluster created for a line.
pub open spec fn spec_new_body(
    id: u64,
    toks: Seq<TokenView>,
    now: u64,
    suffix: Option<Seq<char>>,
    member: Option<Seq<char>>,
    event: Option<u64>,
) -> ClusterInnerView {
    ClusterInnerView {
        id,
        tokens: toks,
        size: 1,
        created_at_ms: now,
        updated_at_ms: now,
        last_used: 0,
        event_first_ms: match event {
            Some(ms) => ms,
            None => EVENT_UNSET,
        },
        event_last_ms: match event {
            Some(ms) => ms,
            None => 0,
        },
        suffix,
        members: match member {
            Some(m) => seq![m],
            None => Seq::empty(),
        },
    }
}

/// The LRU recency of `id`: its last tick, or 0 for an id without a body.
pub open spec fn recency_of(cl: Map<u64, ClusterInnerView>, id: u64) -> u64 {
    if cl.contains_key(id) {
        cl[id].last_used
    } else {
        0
    }
}

/// The index of the first least recently used id among the first `k` ids.
pub open spec fn lru_index(ids: Seq<u64>, cl: Map<u64, ClusterInnerView>, k: int) -> int
    decreases k,
{
    if k <= 1 {
        0
    } else {
        let j = lru_index(ids, cl, k - 1);
        if recency_of(cl, ids[k - 1]) < recency_of(cl, ids[j]) {
            k - 1
        } else {
            j
        }
    }
}

/// Eviction before an insert into `leaf`: when the leaf is full, its least recently used
/// id leaves the leaf and the table.
pub open spec fn spec_evict(leaf: LeafView, cl: Map<u64, ClusterInnerView>) -> (LeafView, Map<
    u64,
    ClusterInnerView,
>) {
    if leaf.ids.len() >= leaf.cap && leaf.ids.len() > 0 {
        let v = leaf.ids[lru_index(leaf.ids, cl, leaf.ids.len() as int)];
        (LeafView { cap: leaf.cap, ids: crate::tree::spec_leaf_remove(leaf.ids, v) }, cl.remove(v))
    } else {
        (leaf, cl)
    }
}

/// The miner after a line that matched cluster `id`, and the result.
pub open spec fn spec_after_match(
    m: MinerView,
    id: u64,
    toks: Seq<TokenView>,
    member: Option<Seq<char>>,
    event: Option<u64>,
    now: u64,
) -> (MinerView, AddResult) {
    let tick = m.tick.wrapping_add(1);
    let c = m.clusters[id];
    let changed = spec_would_generalize(c.tokens, toks, m.options.wildcard);
    (
        MinerView {
            tick,
            clusters: m.clusters.insert(
                id,
                spec_matched_body(c, toks, m.options.wildcard, member, event, tick, now),
            ),
            ..m
        },
        AddResult {
            cluster_id: id,
            update: if changed {
                UpdateType::TemplateChanged
            } else {
                UpdateType::Unchanged
            },
        },
    )
}

/// The miner after storing cluster body `body`: the body is stored under its id, the
/// leaf its tokens belong to is created if needed, a full leaf evicts its least
/// recently used cluster, and the id is appended to the leaf.
pub open spec fn spec_insert_body(m: MinerView, body: ClusterInnerView) -> MinerView {
    let cl1 = m.clusters.insert(body.id, body);
    let lk = leaf_key(m.options, body.tokens);
    let leaf0 = if m.leaves.contains_key(lk) {
        m.leaves[lk]
    } else {
        LeafView { cap: m.options.max_clusters_per_leaf, ids: Seq::empty() }
    };
    let (leaf1, cl2) = spec_evict(leaf0, cl1);
    MinerView {
        clusters: cl2,
        leaves: m.leaves.insert(lk, LeafView { cap: leaf1.cap, ids: leaf1.ids.push(body.id) }),
        ..m
    }
}

/// The miner after a line that matched nothing created a new cluster, and the result.
pub open spec fn spec_after_create(
    m: MinerView,
    toks: Seq<TokenView>,
    suffix: Option<Seq<char>>,
    member: Option<Seq<char>>,
    event: Option<u64>,
    now: u64,
) -> (MinerView, AddResult) {
    let id = m.counter.wrapping_add(1);
    (
        spec_insert_body(
            MinerView { counter: id, ..m },
            spec_new_body(id, toks, now, suffix, member, event),
        ),
        AddResult { cluster_id: id, update: UpdateType::Created },
    )
}

/// What adding `line` (with an optional member label and event time, at wall-clock
/// `now`) does: the line joins the cluster it matches, else a new cluster is created.
pub open spec fn spec_observe(
    m: MinerView,
    line: Seq<char>,
    member: Option<Seq<char>>,
    event: Option<u64>,
    now: u64,
) -> (MinerView, AddResult) {
    let toks = spec_line_tokens(m.options, line);
    match spec_match(m, toks) {
        Some(id) => spec_after_match(m, id, toks, member, event, now),
        None => spec_after_create(m, toks, spec_line_suffix(m.options, line), member, event, now),
    }
}

/// The view of an optional string slice.
pub open spec fn opt_str_view(o: Option<&str>) -> Option<Seq<char>> {
    match o {
        Some(s) => Some(s@),
        None => None,
    }
}

/// Replacing the root of shard `c` by one that differs from it only at path `p` changes
/// the leaves only at (`c`, `p`).
proof fn lemma_leaves_update(ss: Map<usize, TreeNode>, c: usize, t: TreeNode, p: Seq<Seq<char>>)
    requires
        ss.contains_key(c),
        lookup(t, p) is Some,
        forall|q: Seq<Seq<char>>| q != p ==> lookup(t, q) == lookup(ss[c], q),
    ensures
        leaves_of(ss.insert(c, t)) == leaves_of(ss).insert((c as nat, p), lookup(t, p)->0),
{
    let ss2 = ss.insert(c, t);
    assert forall|k: (nat, Seq<Seq<char>>)| #[trigger] leaves_of(ss2).contains_key(k) <==> leaves_of(
        ss,
    ).insert((c as nat, p), lookup(t, p)->0).contains_key(k) by {
        if k.0 <= usize::MAX && k.0 as usize == c && k.1 != p {
            assert(lookup(t, k.1) == lookup(ss[c], k.1));
        }
    }
    assert forall|k: (nat, Seq<Seq<char>>)| #[trigger] leaves_of(ss2).contains_key(k) implies leaves_of(
        ss2,
    )[k] == leaves_of(ss).insert((c as nat, p), lookup(t, p)->0)[k] by {
        if k.0 as usize == c && k.1 != p {
            assert(lookup(t, k.1) == lookup(ss[c], k.1));
        }
    }
    assert(leaves_of(ss2) =~= leaves_of(ss).insert((c as nat, p), lookup(t, p)->0));
}

/// Adding a shard whose tree has no leaf leaves the leaves as they were.
proof fn lemma_leaves_new_shard(ss: Map<usize, TreeNode>, c: usize, t: TreeNode)
    requires
        !ss.contains_key(c),
        forall|q: Seq<Seq<char>>| #[trigger] lookup(t, q) is None,
    ensures
        leaves_of(ss.insert(c, t)) == leaves_of(ss),
{
    let ss2 = ss.insert(c, t);
    assert forall|k: (nat, Seq<Seq<char>>)| #[trigger] leaves_of(ss2).contains_key(k) <==> leaves_of(
        ss,
    ).contains_key(k) by {
        if k.0 <= usize::MAX && k.0 as usize == c {
            assert(lookup(t, k.1) is None);
        }
    }
    assert(leaves_of(ss2) =~= leaves_of(ss));
}

/// The leaf at a key of a leaf map, if any.
pub open spec fn leaf_at(leaves: Map<(nat, Seq<Seq<char>>), LeafView>, k: (nat, Seq<Seq<char>>)) -> Option<
    LeafView,
> {
    if leaves.contains_key(k) {
        Some(leaves[k])
    } else {
        None
    }
}

/// The incoming token texts at the template's wildcard positions, among the first `k`
/// positions.
pub open spec fn params_prefix(
    ts: Seq<TokenView>,
    xs: Seq<TokenView>,
    wildcard: Seq<char>,
    k: int,
) -> Seq<Seq<char>>
    decreases k,
{
    if k <= 0 {
        Seq::empty()
    } else {
        let prev = params_prefix(ts, xs, wildcard, k - 1);
        if ts[k - 1].text == wildcard {
            prev.push(xs[k - 1].text)
        } else {
            prev
        }
    }
}

/// The values a line supplies for a template's wildcard positions.
pub open spec fn spec_params(ts: Seq<TokenView>, xs: Seq<TokenView>, wildcard: Seq<char>) -> Seq<
    Seq<char>,
> {
    params_prefix(
        ts,
        xs,
        wildcard,
        if ts.len() <= xs.len() {
            ts.len() as int
        } else {
            xs.len() as int
        },
    )
}

/// The invariant of a miner: depth at least 2, each shard's tree well formed for its
/// token count, and each body stored under its own id.
pub open spec fn miner_wf_view(m: MinerView) -> bool {
    &&& m.options.depth >= 2
    &&& forall|k: u64| #[trigger] m.clusters.contains_key(k) ==> m.clusters[k].id == k
}

impl Miner {
    /// Well-formedness.
    pub closed spec fn wf(&self) -> bool {
        &&& miner_wf_view(self@)
        &&& forall|c: usize|
            #[trigger] self.shards@.contains_key(c) ==> wf(self.shards@[c], levels(self.options@, c as nat))
    }

    /// Build a miner from resolved options.
    pub fn from_options(options: Options) -> (m: Miner)
        requires
            options.depth >= 2,
        ensures
            m.wf(),
            m@.options == options@,
            m@.counter == 0,
            m@.tick == 0,
            m@.clusters == Map::<u64, ClusterInnerView>::empty(),
            m@.leaves == Map::<(nat, Seq<Seq<char>>), LeafView>::empty(),
            spec_validate(options@) is Ok ==> consistent(m@),
    {
        let m = Miner {
            shards: ShardTable::new(),
            clusters_by_id: ClusterTable::new(),
            options,
            counter: 0,
            tick: 0,
        };
        assert(m@.leaves =~= Map::<(nat, Seq<Seq<char>>), LeafView>::empty());
        proof {
            if spec_validate(m@.options) is Ok {
                law_fresh_consistent(m@);
            }
        }
        m
    }

    /// Start building a miner with the default builder.
    pub fn builder() -> (b: MinerBuilder)
        ensures
            b@ == crate::options::default_options(),
    {
        MinerBuilder::new()
    }

    /// Number of live clusters.
    pub fn len(&self) -> (n: usize)
        ensures
            n == self@.clusters.len(),
    {
        self.clusters_by_id.len()
    }

    /// Whether the miner has no clusters.
    pub fn is_empty(&self) -> (b: bool)
        ensures
            b == (self@.clusters.len() == 0),
    {
        self.clusters_by_id.len() == 0
    }

    /// The options the miner was built with.
    pub fn options(&self) -> (o: &Options)
        ensures
            o@ == self@.options,
    {
        &self.options
    }

    /// Compute the descent keys for a token vector (numeric -> wildcard).
    fn descent_keys(&self, tokens: &[Token<'_>]) -> (keys: Vec<String>)
        requires
            self.wf(),
        ensures
            strings_view(keys@) == spec_descent_keys(self@.options, views_of(tokens@)),
    {
        let ghost ts = views_of(tokens@);
        let p = self.options.prefix_len();
        let n = if p < tokens.len() {
            p
        } else {
            tokens.len()
        };
        assert(n == levels(self@.options, ts.len()));
        let mut keys: Vec<String> = Vec::new();
        let mut i: usize = 0;
        while i < n
            invariant
                n <= tokens.len(),
                i <= n,
                ts == views_of(tokens@),
                n == levels(self@.options, ts.len()),
                strings_view(keys@) == ts.take(i as int).map_values(
                    |t: TokenView| spec_key(self@.options, t),
                ),
            decreases n - i,
        {
            let tok = &tokens[i];
            let k = if self.options.parametrize_numeric_tokens && is_numeric_token(tok.text) {
                self.options.wildcard.clone()
            } else {
                tok.text.to_owned()
            };
            let ghost prev = keys@;
            keys.push(k);
            assert(ts[i as int] == tok@);
            assert(strings_view(keys@) =~= strings_view(prev).push(k@));
            assert(ts.take(i + 1).map_values(|t: TokenView| spec_key(self@.options, t)) =~= ts.take(
                i as int,
            ).map_values(|t: TokenView| spec_key(self@.options, t)).push(spec_key(self@.options, ts[i as int])));
            i = i + 1;
        }
        keys
    }

    /// Highest-similarity cluster in a leaf and its score.
    fn best_match(&self, ids: &[ClusterId], tokens: &[Token<'_>]) -> (r: Option<
        (ClusterId, crate::similarity::Similarity),
    >)
        ensures
            match best_in(ids@, self@.clusters, views_of(tokens@), self@.options.wildcard) {
                Some((id, s)) => r matches Some((rid, rs)) && rid == id && sim_pair(rs) == s
                    && rs.total > 0,
                None => r is None,
            },
    {
        let ghost toks = views_of(tokens@);
        let ghost w = self@.options.wildcard;
        let mut best: Option<(ClusterId, crate::similarity::Similarity)> = None;
        let mut i: usize = 0;
        while i < ids.len()
            invariant
                i <= ids.len(),
                toks == views_of(tokens@),
                w == self@.options.wildcard,
                match best_in(ids@.take(i as int), self@.clusters, toks, w) {
                    Some((id, s)) => best matches Some((rid, rs)) && rid == id && sim_pair(rs)
                        == s && rs.total > 0,
                    None => best is None,
                },
            decreases ids.len() - i,
        {
            let id = ids[i];
            assert(ids@.take(i + 1).drop_last() =~= ids@.take(i as int));
            if let Some(body) = self.clusters_by_id.get(id) {
                let sim = similarity(body.tokens.as_slice(), tokens, self.options.wildcard.as_str());
                match best {
                    Some((_, b)) => {
                        proof {
                            lemma_mul_fits(sim.matches, b.total);
                            lemma_mul_fits(b.matches, sim.total);
                        }
                        if (sim.matches as u128) * (b.total as u128) > (b.matches as u128) * (
                        sim.total as u128) {
                            best = Some((id, sim));
                        }
                    },
                    None => {
                        best = Some((id, sim));
                    },
                }
            }
            i = i + 1;
        }
        assert(ids@.take(ids.len() as int) =~= ids@);
        best
    }

    /// Preprocess a line the way `add` does, without learning: the masked text (which
    /// the returned tokens borrow from).
    fn mask_line(&self, line: &str) -> (masked: String)
        ensures
            masked@ == spec_apply_masks(self@.options.masks, line@),
    {
        apply_masks(line, self.options.masks.as_slice())
    }

    /// The first-line part of a masked line and the suffix.
    fn first_part<'a>(&self, masked: &'a str) -> (r: (&'a str, Option<&'a str>))
        ensures
            r.0@ == spec_first_part(self@.options, masked@).0,
            match r.1 {
                Some(s) => spec_first_part(self@.options, masked@).1 == Some(s@),
                None => spec_first_part(self@.options, masked@).1 is None,
            },
    {
        if self.options.first_line_only {
            split_first_line(masked)
        } else {
            (masked, None)
        }
    }

    /// The cluster that `tokens` match, without learning.
    fn find_match(&self, tokens: &[Token<'_>]) -> (r: Option<ClusterId>)
        requires
            self.wf(),
        ensures
            r == spec_match(self@, views_of(tokens@)),
    {
        let ghost toks = views_of(tokens@);
        let keys = self.descent_keys(tokens);
        let ghost lk = leaf_key(self@.options, toks);
        assert(lk == (tokens.len() as nat, strings_view(keys@)));
        match self.shards.leaf(tokens.len(), keys.as_slice()) {
            None => {
                assert(!self@.leaves.contains_key(lk));
                None
            },
            Some(leaf) => {
                assert(self@.leaves.contains_key(lk));
                assert(self@.leaves[lk] == leaf@);
                match self.best_match(leaf.ids(), tokens) {
                    Some((id, sim)) => {
                        if meets(sim, self.options.sim_threshold) {
                            Some(id)
                        } else {
                            None
                        }
                    },
                    None => None,
                }
            },
        }
    }

    /// Read-only: return the id of the best cluster at/above threshold, else None.
    /// Does not learn, does not touch LRU recency.
    pub fn match_only(&self, line: &str) -> (r: Option<ClusterId>)
        requires
            self.wf(),
        ensures
            r == spec_match(self@, spec_line_tokens(self@.options, line@)),
    {
        let masked = self.mask_line(line);
        let (first, _) = self.first_part(masked.as_str());
        let token_buf = tokenize_with(first, self.options.active_path_delimiters());
        let tokens = token_buf.as_slice();
        self.find_match(tokens)
    }
    /// Make sure there is a shard for `count`, creating an empty one if absent.
    fn ensure_shard(&mut self, count: usize)
        requires
            old(self).wf(),
        ensures
            final(self).wf(),
            final(self)@ == old(self)@,
            final(self).shards@.contains_key(count),
    {
        let probe = self.shards.take(count);
        match probe {
            Some(root) => {
                self.shards.put(count, root);
                assert(self.shards@ =~= old(self).shards@);
            },
            None => {
                let root = TreeNode::new_internal();
                let ghost ss = self.shards@;
                self.shards.put(count, root);
                proof {
                    assert(ss =~= old(self).shards@);
                    lemma_leaves_new_shard(ss, count, root);
                }
            },
        }
    }

    /// Apply `op` to the leaf at `keys` of the shard for `count`, creating the path if
    /// needed.
    fn leaf_op(&mut self, count: usize, keys: &[String], op: LeafOp)
        requires
            old(self).wf(),
            old(self).shards@.contains_key(count),
            keys.len() == levels(old(self)@.options, count as nat),
        ensures
            final(self).wf(),
            final(self).shards@.contains_key(count),
            final(self)@ == (MinerView {
                leaves: old(self)@.leaves.insert(
                    (count as nat, strings_view(keys@)),
                    apply_op(
                        leaf_at(old(self)@.leaves, (count as nat, strings_view(keys@))),
                        old(self)@.options.max_clusters_per_leaf,
                        op,
                    ),
                ),
                ..old(self)@
            }),
    {
        let ghost ss = self.shards@;
        let ghost p = strings_view(keys@);
        let cap = self.options.max_clusters_per_leaf;
        assert(leaf_at(self@.leaves, (count as nat, p)) == lookup(ss[count], p));
        let mut root = self.shards.take(count).unwrap();
        assert(wf(root, levels(self.options@, count as nat)));
        match op {
            LeafOp::Create => root.descend_or_create(keys, cap),
            LeafOp::Insert(id) => root.insert_at(keys, cap, id),
            LeafOp::Remove(id) => root.remove_at(keys, cap, id),
        }
        let ghost t = root;
        self.shards.put(count, root);
        proof {
            assert(self.shards@ =~= ss.insert(count, t));
            lemma_leaves_update(ss, count, t, p);
            assert forall|c: usize| #[trigger] self.shards@.contains_key(c) implies wf(
                self.shards@[c],
                levels(self.options@, c as nat),
            ) by {
                if c != count {
                    assert(self.shards@[c] == ss[c]);
                }
            }
        }
    }

    /// The first least recently used id of a leaf, if the leaf is not empty.
    fn lru_victim(&self, ids: &[ClusterId]) -> (r: Option<ClusterId>)
        ensures
            ids@.len() == 0 ==> r is None,
            ids@.len() > 0 ==> r == Some(ids@[lru_index(ids@, self@.clusters, ids@.len() as int)]),
    {
        if ids.len() == 0 {
            return None;
        }
        let mut best: usize = 0;
        let mut best_rec: u64 = match self.clusters_by_id.get(ids[0]) {
            Some(c) => c.recency(),
            None => 0,
        };
        let mut i: usize = 1;
        while i < ids.len()
            invariant
                1 <= i <= ids.len(),
                best < i,
                best == lru_index(ids@, self@.clusters, i as int),
                best_rec == recency_of(self@.clusters, ids@[best as int]),
            decreases ids.len() - i,
        {
            let rec = match self.clusters_by_id.get(ids[i]) {
                Some(c) => c.recency(),
                None => 0,
            };
            if rec < best_rec {
                best = i;
                best_rec = rec;
            }
            i = i + 1;
        }
        Some(ids[best])
    }

    /// Evict the least-recently-used cluster from the leaf at `keys` of shard `j` when it
    /// is full, to make room.
    fn evict_if_full(&mut self, count: usize, keys: &[String])
        requires
            old(self).wf(),
            old(self).shards@.contains_key(count),
            keys.len() == levels(old(self)@.options, count as nat),
            old(self)@.leaves.contains_key((count as nat, strings_view(keys@))),
        ensures
            final(self).wf(),
            final(self).shards@.contains_key(count),
            ({
                let k = (count as nat, strings_view(keys@));
                let (leaf1, cl1) = spec_evict(old(self)@.leaves[k], old(self)@.clusters);
                final(self)@ == (MinerView {
                    leaves: old(self)@.leaves.insert(k, leaf1),
                    clusters: cl1,
                    ..old(self)@
                })
            }),
    {
        let ghost k = (count as nat, strings_view(keys@));
        let ghost leaf0 = self@.leaves[k];
        let victim = match self.shards.leaf(count, keys) {
            Some(leaf) => {
                assert(leaf@ == leaf0);
                if leaf.is_full() {
                    self.lru_victim(leaf.ids())
                } else {
                    None
                }
            },
            None => None,
        };
        match victim {
            Some(v) => {
                self.leaf_op(count, keys, LeafOp::Remove(v));
                self.clusters_by_id.take(v);
                assert(self@.leaves =~= old(self)@.leaves.insert(k, spec_evict(leaf0, old(self)@.clusters).0));
            },
            None => {
                assert(old(self)@.leaves.insert(k, leaf0) =~= old(self)@.leaves);
            },
        }
    }

    /// Match a line and, on a hit, return the captured wildcard-position values
    /// (the incoming token at each position where the template token is wildcard).
    pub fn extract(&self, line: &str) -> (r: Option<(ClusterId, Vec<String>)>)
        requires
            self.wf(),
        ensures
            ({
                let toks = spec_line_tokens(self@.options, line@);
                match spec_match(self@, toks) {
                    Some(id) => r matches Some((rid, params)) && rid == id && strings_view(params@)
                        == spec_params(self@.clusters[id].tokens, toks, self@.options.wildcard),
                    None => r is None,
                }
            }),
    {
        let masked = self.mask_line(line);
        let (first, _) = self.first_part(masked.as_str());
        let token_buf = tokenize_with(first, self.options.active_path_delimiters());
        let tokens = token_buf.as_slice();
        let id = match self.find_match(tokens) {
            Some(id) => id,
            None => return None,
        };
        proof {
            lemma_best_in_member(
                self@.leaves[leaf_key(self@.options, views_of(tokens@))].ids,
                self@.clusters,
                views_of(tokens@),
                self@.options.wildcard,
            );
        }
        let body = match self.clusters_by_id.get(id) {
            Some(b) => b,
            None => return None,
        };
        let ghost ts = body@.tokens;
        let ghost xs = views_of(tokens@);
        let ghost w = self@.options.wildcard;
        let n = if body.tokens.len() <= tokens.len() {
            body.tokens.len()
        } else {
            tokens.len()
        };
        let mut params: Vec<String> = Vec::new();
        let mut i: usize = 0;
        while i < n
            invariant
                i <= n,
                n <= body.tokens.len(),
                n <= tokens.len(),
                ts == body@.tokens,
                xs == views_of(tokens@),
                w == self.options.wildcard@,
                strings_view(params@) == params_prefix(ts, xs, w, i as int),
            decreases n - i,
        {
            assert(ts[i as int] == body.tokens@[i as int]@);
            assert(xs[i as int] == tokens@[i as int]@);
            if crate::text::str_eq(body.tokens[i].text.as_str(), self.options.wildcard.as_str()) {
                let v = tokens[i].text.to_owned();
                let ghost prev = params@;
                params.push(v);
                assert(strings_view(params@) =~= strings_view(prev).push(v@));
            }
            i = i + 1;
        }
        Some((id, params))
    }

    /// Snapshot of all clusters, each once, in no particular order.
    pub fn clusters(&self) -> (r: Vec<Cluster>)
        requires
            self.wf(),
        ensures
            r@.len() == self@.clusters.len(),
            forall|i: int|
                0 <= i < r@.len() ==> self@.clusters.contains_key(#[trigger] r@[i]@.id) && r@[i]@
                    == spec_to_public(self@.clusters[r@[i]@.id]),
            forall|i: int, j: int|
                0 <= i < r@.len() && 0 <= j < r@.len() && i != j ==> #[trigger] r@[i]@.id
                    != #[trigger] r@[j]@.id,
            forall|k: u64|
                #[trigger] self@.clusters.contains_key(k) ==> exists|i: int|
                    0 <= i < r@.len() && #[trigger] r@[i]@.id == k,
    {
        let ids = self.clusters_by_id.ids();
        let mut out: Vec<Cluster> = Vec::new();
        let mut i: usize = 0;
        while i < ids.len()
            invariant
                i <= ids.len(),
                ids@.no_duplicates(),
                ids@.to_set() == self@.clusters.dom(),
                ids@.len() == self@.clusters.len(),
                out@.len() == i,
                miner_wf_view(self@),
                forall|m: int|
                    0 <= m < i ==> #[trigger] out@[m]@.id == ids@[m] && self@.clusters.contains_key(
                        ids@[m],
                    ) && out@[m]@ == spec_to_public(self@.clusters[ids@[m]]),
            decreases ids.len() - i,
        {
            let id = ids[i];
            assert(ids@.to_set().contains(id));
            let body = self.clusters_by_id.get(id).unwrap();
            let c = body.to_public(self.options.wildcard.as_str());
            out.push(c);
            i = i + 1;
        }
        proof {
            assert forall|a: int, b: int|
                0 <= a < out@.len() && 0 <= b < out@.len() && a != b implies #[trigger] out@[a]@.id
                != #[trigger] out@[b]@.id by {
                assert(out@[a]@.id == ids@[a]);
                assert(out@[b]@.id == ids@[b]);
            }
            assert forall|k: u64| #[trigger] self@.clusters.contains_key(k) implies exists|m: int|
                0 <= m < out@.len() && #[trigger] out@[m]@.id == k by {
                assert(ids@.to_set().contains(k));
                let m = choose|m: int| 0 <= m < ids@.len() && ids@[m] == k;
                assert(out@[m]@.id == k);
            }
        }
        out
    }

    /// Snapshot of a single cluster by id.
    pub fn cluster(&self, id: ClusterId) -> (r: Option<Cluster>)
        ensures
            match r {
                Some(c) => self@.clusters.contains_key(id) && c@ == spec_to_public(self@.clusters[id]),
                None => !self@.clusters.contains_key(id),
            },
    {
        match self.clusters_by_id.get(id) {
            Some(body) => Some(body.to_public(self.options.wildcard.as_str())),
            None => None,
        }
    }

    /// Apply a match to cluster `id`: bump its hit count and recency, fold in the event
    /// time, generalize the template and record the member.
    fn apply_match(
        &mut self,
        id: ClusterId,
        tokens: &[Token<'_>],
        member: Option<&str>,
        event_ms: Option<u64>,
        now: u64,
    ) -> (r: AddResult)
        requires
            old(self).wf(),
            old(self)@.clusters.contains_key(id),
        ensures
            final(self).wf(),
            (final(self)@, r) == spec_after_match(
                old(self)@,
                id,
                views_of(tokens@),
                opt_str_view(member),
                event_ms,
                now,
            ),
    {
        let mut body = self.clusters_by_id.take(id).unwrap();
        self.tick = self.tick.wrapping_add(1);
        body.touch(self.tick, now);
        if let Some(ms) = event_ms {
            body.observe_event(ms);
        }
        let needs = body.would_generalize(tokens, self.options.wildcard.as_str());
        let changed = if needs {
            body.generalize(tokens, self.options.wildcard.as_str())
        } else {
            false
        };
        if let Some(m) = member {
            body.add_member(m);
        }
        let ghost nb = body@;
        self.clusters_by_id.put(body);
        proof {
            let m = old(self)@;
            let expected = spec_matched_body(
                m.clusters[id],
                views_of(tokens@),
                m.options.wildcard,
                opt_str_view(member),
                event_ms,
                self.tick,
                now,
            );
            assert(nb == expected);
            assert(self@.clusters =~= m.clusters.insert(id, expected));
        }
        AddResult {
            cluster_id: id,
            update: if changed {
                UpdateType::TemplateChanged
            } else {
                UpdateType::Unchanged
            },
        }
    }

    /// Insert an already-constructed cluster body into the tree and the table (see
    /// [`spec_insert_body`]).
    fn insert_existing(&mut self, inner: ClusterInner)
        requires
            old(self).wf(),
        ensures
            final(self).wf(),
            final(self)@ == spec_insert_body(old(self)@, inner@),
    {
        let ghost m0 = self@;
        let ghost body = inner@;
        let view = borrow_tokens(inner.tokens.as_slice());
        let ghost toks = views_of(view@);
        assert(toks == body.tokens);
        let keys = self.descent_keys(view.as_slice());
        let count = view.len();
        let ghost lk = leaf_key(m0.options, toks);
        assert(lk == (count as nat, strings_view(keys@)));
        self.ensure_shard(count);
        assert(strings_view(keys@).len() == keys@.len());
        assert(levels(m0.options, toks.len()) <= toks.len());
        assert(spec_descent_keys(m0.options, toks).len() == levels(m0.options, toks.len()));
        self.leaf_op(count, keys.as_slice(), LeafOp::Create);
        let ghost leaf0 = self@.leaves[lk];
        assert(leaf0 == if m0.leaves.contains_key(lk) {
            m0.leaves[lk]
        } else {
            LeafView { cap: m0.options.max_clusters_per_leaf, ids: Seq::empty() }
        });
        let id = inner.id;
        self.clusters_by_id.put(inner);
        let ghost m1 = self@;
        self.evict_if_full(count, keys.as_slice());
        let ghost m2 = self@;
        self.leaf_op(count, keys.as_slice(), LeafOp::Insert(id));
        proof {
            let cl1 = m0.clusters.insert(id, body);
            assert(m1.clusters == cl1);
            let (leaf1, cl2) = spec_evict(leaf0, cl1);
            assert(m2.leaves == m0.leaves.insert(lk, leaf0).insert(lk, leaf1));
            assert(self@.leaves =~= m0.leaves.insert(lk, LeafView { cap: leaf1.cap, ids: leaf1.ids.push(id) }));
            assert(self@.clusters == cl2);
        }
    }

    /// Create a cluster for `tokens` (with the first-line suffix), evicting from a full
    /// leaf first.
    fn create(
        &mut self,
        tokens: &[Token<'_>],
        suffix: Option<&str>,
        member: Option<&str>,
        event_ms: Option<u64>,
        now: u64,
    ) -> (r: AddResult)
        requires
            old(self).wf(),
        ensures
            final(self).wf(),
            (final(self)@, r) == spec_after_create(
                old(self)@,
                views_of(tokens@),
                opt_str_view(suffix),
                opt_str_view(member),
                event_ms,
                now,
            ),
    {
        let id = self.counter.wrapping_add(1);
        self.counter = id;
        let owned = own_tokens(tokens);
        let suffix_owned: Option<String> = match suffix {
            Some(s) => Some(s.to_owned()),
            None => None,
        };
        let mut inner = ClusterInner::new(id, owned, now, suffix_owned, event_ms);
        if let Some(mm) = member {
            inner.add_member(mm);
            assert(inner@.members =~= seq![mm@]);
        }
        assert(inner@ == spec_new_body(id, views_of(tokens@), now, opt_str_view(suffix), opt_str_view(member), event_ms));
        self.insert_existing(inner);
        AddResult { cluster_id: id, update: UpdateType::Created }
    }

    /// Add a line observed at wall-clock `now_ms` (unix-ms), optionally recording a
    /// member label and an event timestamp: the line joins the cluster it matches, else
    /// a new cluster is created.
    pub fn observe(
        &mut self,
        line: &str,
        member: Option<&str>,
        event_ms: Option<u64>,
        now_ms: u64,
    ) -> (r: AddResult)
        requires
            old(self).wf(),
        ensures
            final(self).wf(),
            (final(self)@, r) == spec_observe(old(self)@, line@, opt_str_view(member), event_ms, now_ms),
            consistent(old(self)@) && old(self)@.counter < u64::MAX ==> consistent(final(self)@),
    {
        proof {
            if consistent(self@) && self@.counter < u64::MAX {
                law_observe(self@, line@, opt_str_view(member), event_ms, now_ms);
            }
        }
        let masked = self.mask_line(line);
        let (first, suffix) = self.first_part(masked.as_str());
        let token_buf = tokenize_with(first, self.options.active_path_delimiters());
        let tokens = token_buf.as_slice();
        match self.find_match(tokens) {
            Some(id) => {
                proof {
                    lemma_best_in_member(
                        self@.leaves[leaf_key(self@.options, views_of(tokens@))].ids,
                        self@.clusters,
                        views_of(tokens@),
                        self@.options.wildcard,
                    );
                }
                self.apply_match(id, tokens, member, event_ms, now_ms)
            },
            None => self.create(tokens, suffix, member, event_ms, now_ms),
        }
    }

    /// Ingest a line. Returns the assigned cluster id and what happened.
    pub fn add(&mut self, line: &str) -> (r: AddResult)
        requires
            old(self).wf(),
        ensures
            final(self).wf(),
            consistent(old(self)@) && old(self)@.counter < u64::MAX ==> consistent(final(self)@),
            exists|now: u64|
                #[trigger] spec_observe(old(self)@, line@, None, None, now) == (final(self)@, r),
    {
        let now = now_ms();
        self.observe(line, None, None, now)
    }

    /// Ingest a line, recording `member` on the matched/created cluster (deduped).
    pub fn add_with_member(&mut self, line: &str, member: &str) -> (r: AddResult)
        requires
            old(self).wf(),
        ensures
            final(self).wf(),
            consistent(old(self)@) && old(self)@.counter < u64::MAX ==> consistent(final(self)@),
            exists|now: u64|
                #[trigger] spec_observe(old(self)@, line@, Some(member@), None, now) == (
                    final(self)@,
                    r,
                ),
    {
        let now = now_ms();
        self.observe(line, Some(member), None, now)
    }

    /// Ingest a line with its event timestamp (unix-ms, parsed from the log by the
    /// caller), folded into the cluster's event-time window.
    pub fn add_at(&mut self, line: &str, event_ms: u64) -> (r: AddResult)
        requires
            old(self).wf(),
        ensures
            final(self).wf(),
            consistent(old(self)@) && old(self)@.counter < u64::MAX ==> consistent(final(self)@),
            exists|now: u64|
                #[trigger] spec_observe(old(self)@, line@, None, Some(event_ms), now) == (
                    final(self)@,
                    r,
                ),
    {
        let now = now_ms();
        self.observe(line, None, Some(event_ms), now)
    }

    /// Ingest a line with a member label and its event timestamp (unix-ms).
    pub fn add_with_member_at(&mut self, line: &str, member: &str, event_ms: u64) -> (r: AddResult)
        requires
            old(self).wf(),
        ensures
            final(self).wf(),
            consistent(old(self)@) && old(self)@.counter < u64::MAX ==> consistent(final(self)@),
            exists|now: u64|
                #[trigger] spec_observe(old(self)@, line@, Some(member@), Some(event_ms), now) == (
                    final(self)@,
                    r,
                ),
    {
        let now = now_ms();
        self.observe(line, Some(member), Some(event_ms), now)
    }
}

/// Borrowed views of owned tokens.
fn borrow_tokens<'a>(ts: &'a [crate::tokenize::OwnedToken]) -> (r: Vec<Token<'a>>)
    ensures
        views_of(r@) == crate::tokenize::owned_views(ts@),
{
    let mut r: Vec<Token<'a>> = Vec::new();
    let mut i: usize = 0;
    while i < ts.len()
        invariant
            i <= ts.len(),
            views_of(r@) == crate::tokenize::owned_views(ts@).take(i as int),
        decreases ts.len() - i,
    {
        let t = ts[i].as_token();
        let ghost prev = r@;
        r.push(t);
        assert(views_of(r@) =~= views_of(prev).push(t@));
        assert(crate::tokenize::owned_views(ts@).take(i + 1) =~= crate::tokenize::owned_views(ts@).take(i as int).push(ts@[i as int]@));
        i = i + 1;
    }
    assert(crate::tokenize::owned_views(ts@).take(ts.len() as int) =~= crate::tokenize::owned_views(ts@));
    r
}

/// The cluster `best_in` picks has a body.
proof fn lemma_best_in_member(
    ids: Seq<u64>,
    cl: Map<u64, ClusterInnerView>,
    toks: Seq<TokenView>,
    wildcard: Seq<char>,
)
    ensures
        best_in(ids, cl, toks, wildcard) matches Some((id, _)) ==> cl.contains_key(id),
    decreases ids.len(),
{
    if ids.len() > 0 {
        lemma_best_in_member(ids.drop_last(), cl, toks, wildcard);
    }
}

proof fn lemma_mul_fits(a: u64, b: u64)
    ensures
        0 <= (a as int) * (b as int) <= u128::MAX,
{
    assert(0 <= (a as int) * (b as int) <= u128::MAX) by (nonlinear_arith)
        requires
            0 <= a <= u64::MAX,
            0 <= b <= u64::MAX,
    ;
}


/// The options record a miner's options are serialized as (masks are not serialized).
pub open spec fn options_record_of(o: OptionsView) -> OptionsRecordView {
    OptionsRecordView {
        sim_threshold: o.sim_threshold,
        depth: o.depth,
        max_clusters: o.max_clusters,
        max_clusters_per_leaf: o.max_clusters_per_leaf,
        parametrize_numeric_tokens: o.parametrize_numeric_tokens,
        wildcard: o.wildcard,
        path_delimiters: o.path_delimiters,
        first_line_path_delimiters: o.first_line_path_delimiters,
        first_line_only: o.first_line_only,
    }
}

/// The record a cluster body is serialized as: everything but its LRU tick.
pub open spec fn record_of_body(c: ClusterInnerView) -> ClusterRecordView {
    ClusterRecordView {
        id: c.id,
        tokens: c.tokens,
        size: c.size,
        created_at_ms: c.created_at_ms,
        updated_at_ms: c.updated_at_ms,
        event_first_ms: c.event_first_ms,
        event_last_ms: c.event_last_ms,
        suffix: c.suffix,
        members: c.members,
    }
}

/// The body a cluster record is restored as, with LRU tick 0.
pub open spec fn body_of_record(r: ClusterRecordView) -> ClusterInnerView {
    ClusterInnerView {
        id: r.id,
        tokens: r.tokens,
        size: r.size,
        created_at_ms: r.created_at_ms,
        updated_at_ms: r.updated_at_ms,
        last_used: 0,
        event_first_ms: r.event_first_ms,
        event_last_ms: r.event_last_ms,
        suffix: r.suffix,
        members: r.members,
    }
}

/// Whether snapshot body `b` describes miner `m`: its options, its id counter, and each
/// of its clusters exactly once, in some order.
pub open spec fn describes(m: MinerView, b: SnapshotView) -> bool {
    &&& b.options == options_record_of(m.options)
    &&& b.counter == m.counter
    &&& b.clusters.len() == m.clusters.len()
    &&& forall|i: int|
        0 <= i < b.clusters.len() ==> m.clusters.contains_key(#[trigger] b.clusters[i].id)
            && b.clusters[i] == record_of_body(m.clusters[b.clusters[i].id])
    &&& forall|i: int, j: int|
        0 <= i < b.clusters.len() && 0 <= j < b.clusters.len() && i != j ==> #[trigger] b.clusters[i].id
            != #[trigger] b.clusters[j].id
    &&& forall|k: u64|
        #[trigger] m.clusters.contains_key(k) ==> exists|i: int|
            0 <= i < b.clusters.len() && #[trigger] b.clusters[i].id == k
}

/// The miner after replaying cluster records `rs`, in order, into `m`.
pub open spec fn insert_records(m: MinerView, rs: Seq<ClusterRecordView>) -> MinerView
    decreases rs.len(),
{
    if rs.len() == 0 {
        m
    } else {
        spec_insert_body(insert_records(m, rs.drop_last()), body_of_record(rs.last()))
    }
}

/// The miner after restoring snapshot body `b`: its options and LRU tick stay, its
/// counter becomes the snapshot's, and the snapshot's clusters are replayed into an
/// empty tree and table.
pub open spec fn spec_restore(m: MinerView, b: SnapshotView) -> MinerView {
    insert_records(
        MinerView {
            counter: b.counter,
            clusters: Map::empty(),
            leaves: Map::empty(),
            ..m
        },
        b.clusters,
    )
}

/// What restoring from `bytes` does to `m`: the restored miner when the bytes hold a
/// snapshot, else `m` unchanged.
pub open spec fn restored_from(m: MinerView, bytes: Seq<u8>) -> MinerView {
    match spec_decode(bytes) {
        DecodeOutcome::Body(b) => spec_restore(m, b),
        _ => m,
    }
}

/// Whether `r` is the error that restoring from `bytes` reports, or `Ok` when the bytes
/// hold a snapshot.
pub open spec fn restore_result_ok(bytes: Seq<u8>, r: Result<(), LogdrainError>) -> bool {
    match spec_decode(bytes) {
        DecodeOutcome::Body(_) => r is Ok,
        DecodeOutcome::BadMagic => r matches Err(LogdrainError::BadMagic),
        DecodeOutcome::Unsupported(v) => r matches Err(
            LogdrainError::UnsupportedSnapshotVersion { found, max },
        ) && found == v && max == VERSION,
        DecodeOutcome::Corrupt(msg) => r matches Err(LogdrainError::Decode(m)) && m@ == msg,
    }
}

/// What restoring from a backend's `load` reply does: a backend error is passed on and
/// nothing stored leaves the miner as it was (`Ok(false)`), both with `before` unchanged;
/// stored bytes are restored, with `Ok(true)` or the error that restoring reports.
pub open spec fn load_outcome(
    before: MinerView,
    loaded: Result<Option<Vec<u8>>, PersistenceError>,
    after: MinerView,
    r: Result<bool, LogdrainError>,
) -> bool {
    match loaded {
        Err(e) => r matches Err(LogdrainError::Persistence(e2)) && e2 == e && after == before,
        Ok(None) => r matches Ok(false) && after == before,
        Ok(Some(bytes)) => after == restored_from(before, bytes@) && match r {
            Ok(b) => b && restore_result_ok(bytes@, Ok(())),
            Err(e) => restore_result_ok(bytes@, Err(e)),
        },
    }
}

/// Token records for owned tokens.
fn token_records(ts: &[OwnedToken]) -> (r: Vec<TokenRecord>)
    ensures
        token_records_view(r@) == owned_views(ts@),
{
    let mut r: Vec<TokenRecord> = Vec::new();
    let mut i: usize = 0;
    while i < ts.len()
        invariant
            i <= ts.len(),
            token_records_view(r@) == owned_views(ts@).take(i as int),
        decreases ts.len() - i,
    {
        let t: TokenRecord = (ts[i].text.clone(), ts[i].leading_delim, ts[i].trailing_delim);
        let ghost prev = r@;
        r.push(t);
        assert(token_records_view(r@) =~= token_records_view(prev).push(
            crate::snapshot::token_record_view(t),
        ));
        assert(owned_views(ts@).take(i + 1) =~= owned_views(ts@).take(i as int).push(ts@[i as int]@));
        i = i + 1;
    }
    assert(owned_views(ts@).take(ts.len() as int) =~= owned_views(ts@));
    r
}

/// Owned tokens for token records.
fn tokens_of_records(ts: &[TokenRecord]) -> (r: Vec<OwnedToken>)
    ensures
        owned_views(r@) == token_records_view(ts@),
{
    let mut r: Vec<OwnedToken> = Vec::new();
    let mut i: usize = 0;
    while i < ts.len()
        invariant
            i <= ts.len(),
            owned_views(r@) == token_records_view(ts@).take(i as int),
        decreases ts.len() - i,
    {
        let t = OwnedToken {
            text: ts[i].0.clone(),
            leading_delim: ts[i].1,
            trailing_delim: ts[i].2,
        };
        let ghost prev = r@;
        r.push(t);
        assert(owned_views(r@) =~= owned_views(prev).push(t@));
        assert(token_records_view(ts@).take(i + 1) =~= token_records_view(ts@).take(i as int).push(
            crate::snapshot::token_record_view(ts@[i as int]),
        ));
        i = i + 1;
    }
    assert(token_records_view(ts@).take(ts.len() as int) =~= token_records_view(ts@));
    r
}

/// The record of a cluster body.
fn cluster_record(c: &ClusterInner) -> (r: ClusterRecord)
    ensures
        cluster_record_view(r) == record_of_body(c@),
{
    (
        c.id,
        token_records(c.tokens.as_slice()),
        c.size,
        c.created_at_ms,
        c.updated_at_ms,
        c.event_first_ms,
        c.event_last_ms,
        crate::cluster::copy_opt_string(&c.suffix),
        crate::cluster::copy_strings(c.members.as_slice()),
    )
}

/// The body a cluster record is restored as.
fn body_from_record(r: &ClusterRecord) -> (c: ClusterInner)
    ensures
        c@ == body_of_record(cluster_record_view(*r)),
{
    ClusterInner {
        id: r.0,
        tokens: tokens_of_records(r.1.as_slice()),
        size: r.2,
        created_at_ms: r.3,
        updated_at_ms: r.4,
        last_used: 0,
        event_first_ms: r.5,
        event_last_ms: r.6,
        suffix: crate::cluster::copy_opt_string(&r.7),
        members: crate::cluster::copy_strings(r.8.as_slice()),
    }
}

impl Miner {
    /// The options record of this miner's options.
    fn options_record(&self) -> (r: OptionsRecord)
        ensures
            options_record_view(r) == options_record_of(self@.options),
    {
        let o = &self.options;
        (
            (o.sim_threshold.num, o.sim_threshold.den),
            o.depth,
            o.max_clusters,
            o.max_clusters_per_leaf,
            o.parametrize_numeric_tokens,
            o.wildcard.clone(),
            vstd::slice::slice_to_vec(o.path_delimiters.as_slice()),
            vstd::slice::slice_to_vec(o.first_line_path_delimiters.as_slice()),
            o.first_line_only,
        )
    }

    /// Serialize miner state (options + counter + flat cluster list) to bytes.
    pub fn snapshot(&self) -> (r: Vec<u8>)
        requires
            self.wf(),
        ensures
            exists|b: SnapshotView|
                describes(self@, b) && #[trigger] frame(bincode_snapshot_bytes(b)) == r@
                    && spec_decode(r@) == DecodeOutcome::Body(b),
    {
        let ids = self.clusters_by_id.ids();
        let mut recs: Vec<ClusterRecord> = Vec::new();
        let mut i: usize = 0;
        while i < ids.len()
            invariant
                i <= ids.len(),
                ids@.no_duplicates(),
                ids@.to_set() == self@.clusters.dom(),
                ids@.len() == self@.clusters.len(),
                recs@.len() == i,
                miner_wf_view(self@),
                forall|m: int|
                    0 <= m < i ==> #[trigger] cluster_record_view(recs@[m]).id == ids@[m]
                        && self@.clusters.contains_key(ids@[m]) && cluster_record_view(recs@[m])
                        == record_of_body(self@.clusters[ids@[m]]),
            decreases ids.len() - i,
        {
            let id = ids[i];
            assert(ids@.to_set().contains(id));
            let body = self.clusters_by_id.get(id).unwrap();
            let rec = cluster_record(&body);
            recs.push(rec);
            i = i + 1;
        }
        let body: SnapshotRecord = (self.options_record(), self.counter, recs);
        let r = encode(&body);
        proof {
            let b = record_view(body);
            assert forall|m: int| 0 <= m < b.clusters.len() implies self@.clusters.contains_key(
                #[trigger] b.clusters[m].id,
            ) && b.clusters[m] == record_of_body(self@.clusters[b.clusters[m].id]) by {
                assert(b.clusters[m] == cluster_record_view(recs@[m]));
            }
            assert forall|a: int, c: int|
                0 <= a < b.clusters.len() && 0 <= c < b.clusters.len() && a != c implies #[trigger] b.clusters[a].id
                != #[trigger] b.clusters[c].id by {
                assert(b.clusters[a] == cluster_record_view(recs@[a]));
                assert(b.clusters[c] == cluster_record_view(recs@[c]));
            }
            assert forall|k: u64| #[trigger] self@.clusters.contains_key(k) implies exists|m: int|
                0 <= m < b.clusters.len() && #[trigger] b.clusters[m].id == k by {
                assert(ids@.to_set().contains(k));
                let m = choose|m: int| 0 <= m < ids@.len() && ids@[m] == k;
                assert(b.clusters[m] == cluster_record_view(recs@[m]));
                assert(cluster_record_view(recs@[m]).id == ids@[m]);
                assert(b.clusters[m].id == k);
            }
            assert(describes(self@, b));
        }
        r
    }

    /// Replace miner state from a snapshot. Clears existing clusters first; on an error
    /// nothing changes.
    ///
    /// The options are not changed: the snapshot carries them for self-description, and
    /// building the destination miner with matching options is the caller's
    /// responsibility.
    pub fn restore(&mut self, bytes: &[u8]) -> (r: Result<(), LogdrainError>)
        requires
            old(self).wf(),
        ensures
            final(self).wf(),
            final(self)@ == restored_from(old(self)@, bytes@),
            restore_result_ok(bytes@, r),
            (exists|m0: MinerView, b: SnapshotView|
                #[trigger] describes(m0, b) && consistent(m0) && m0.options == old(self)@.options
                    && spec_decode(bytes@) == DecodeOutcome::Body(b)) ==> consistent(final(self)@),
    {
        proof {
            if exists|m0: MinerView, b: SnapshotView|
                #[trigger] describes(m0, b) && consistent(m0) && m0.options == self@.options
                    && spec_decode(bytes@) == DecodeOutcome::Body(b) {
                let (m0, b) = choose|m0: MinerView, b: SnapshotView|
                    #[trigger] describes(m0, b) && consistent(m0) && m0.options == self@.options
                        && spec_decode(bytes@) == DecodeOutcome::Body(b);
                law_restore_snapshot(m0, self@, bytes@, b);
            }
        }
        let body = match decode(bytes) {
            Ok(b) => b,
            Err(e) => return Err(e),
        };
        let ghost b = record_view(body);
        self.shards.clear();
        self.clusters_by_id.clear();
        self.counter = body.1;
        let ghost m0 = self@;
        assert(leaves_of(self.shards@) =~= Map::<(nat, Seq<Seq<char>>), LeafView>::empty());
        assert(m0 == MinerView {
            counter: b.counter,
            clusters: Map::empty(),
            leaves: Map::empty(),
            ..old(self)@
        });
        let mut i: usize = 0;
        while i < body.2.len()
            invariant
                i <= body.2.len(),
                self.wf(),
                b == record_view(body),
                self@ == insert_records(m0, b.clusters.take(i as int)),
            decreases body.2.len() - i,
        {
            let inner = body_from_record(&body.2[i]);
            assert(b.clusters[i as int] == cluster_record_view(body.2@[i as int]));
            self.insert_existing(inner);
            assert(b.clusters.take(i + 1).drop_last() =~= b.clusters.take(i as int));
            i = i + 1;
        }
        assert(b.clusters.take(body.2.len() as int) =~= b.clusters);
        Ok(())
    }

    /// Restore from what a backend's `load` returned: a backend error is passed on,
    /// nothing stored leaves the miner unchanged (`Ok(false)`), and stored bytes are
    /// restored (`Ok(true)`, or the restore error).
    pub fn restore_loaded(&mut self, loaded: Result<Option<Vec<u8>>, PersistenceError>) -> (r:
        Result<bool, LogdrainError>)
        requires
            old(self).wf(),
        ensures
            final(self).wf(),
            match loaded {
                Err(e) => r matches Err(LogdrainError::Persistence(e2)) && e2 == e && final(self)@
                    == old(self)@,
                Ok(None) => r matches Ok(false) && final(self)@ == old(self)@,
                Ok(Some(bytes)) => final(self)@ == restored_from(old(self)@, bytes@) && match r {
                    Ok(b) => b && restore_result_ok(bytes@, Ok(())),
                    Err(e) => restore_result_ok(bytes@, Err(e)),
                },
            },
    {
        match loaded {
            Err(e) => Err(LogdrainError::Persistence(e)),
            Ok(None) => Ok(false),
            Ok(Some(bytes)) => match self.restore(bytes.as_slice()) {
                Ok(()) => Ok(true),
                Err(e) => Err(e),
            },
        }
    }

    /// Serialize the miner and store it via the given backend; a backend failure is
    /// reported as [`LogdrainError::Persistence`].
    pub fn save_state<P: Persistence>(&self, p: &mut P) -> (r: Result<(), LogdrainError>)
        requires
            self.wf(),
        ensures
            exists|b: SnapshotView|
                describes(self@, b) && spec_decode(#[trigger] frame(bincode_snapshot_bytes(b)))
                    == DecodeOutcome::Body(b) && match r {
                    Ok(()) => old(p).keeps_last_blob() ==> final(p).stored() == Some(
                        frame(bincode_snapshot_bytes(b)),
                    ),
                    Err(e) => e is Persistence,
                },
            old(p).never_fails() ==> r is Ok,
    {
        let bytes = self.snapshot();
        let ghost b = choose|b: SnapshotView|
            describes(self@, b) && #[trigger] frame(bincode_snapshot_bytes(b)) == bytes@
                && spec_decode(bytes@) == DecodeOutcome::Body(b);
        let r = match p.save(bytes.as_slice()) {
            Ok(()) => Ok(()),
            Err(e) => Err(LogdrainError::Persistence(e)),
        };
        assert(describes(self@, b) && spec_decode(frame(bincode_snapshot_bytes(b)))
            == DecodeOutcome::Body(b));
        r
    }

    /// Load state from the backend, replacing current state. Returns `false` if the
    /// backend held nothing (miner left unchanged), `true` if a snapshot was loaded.
    pub fn load_state<P: Persistence>(&mut self, p: &P) -> (r: Result<bool, LogdrainError>)
        requires
            old(self).wf(),
        ensures
            final(self).wf(),
            exists|loaded: Result<Option<Vec<u8>>, PersistenceError>|
                #[trigger] load_outcome(old(self)@, loaded, final(self)@, r) && (p.keeps_last_blob()
                    ==> (loaded matches Ok(o) ==> opt_bytes(o) == p.stored())) && (p.never_fails()
                    ==> loaded is Ok),
    {
        let loaded = p.load();
        let ghost reply = loaded;
        let r = self.restore_loaded(loaded);
        assert(load_outcome(old(self)@, reply, self@, r));
        r
    }
}

impl MinerBuilder {
    /// Validate options and construct a [`Miner`].
    pub fn build(self) -> (r: Result<Miner, LogdrainError>)
        ensures
            match spec_validate(self@) {
                Ok(o) => r matches Ok(m) && m.wf() && m@ == (MinerView {
                    options: o,
                    counter: 0,
                    tick: 0,
                    clusters: Map::empty(),
                    leaves: Map::empty(),
                }) && consistent(m@),
                Err(msg) => r matches Err(e) && e matches LogdrainError::InvalidConfig(s) && s@
                    == msg,
            },
    {
        match self.build_options() {
            Ok(o) => Ok(Miner::from_options(o)),
            Err(e) => Err(e),
        }
    }
}

} // verus!
