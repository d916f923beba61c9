//! The consistency of a miner state (tree and table agree, leaves stay within their
//! capacity, ids are fresh) and the laws the miner keeps: every add keeps it, a line
//! matches the cluster it was just assigned to, re-adding a line changes nothing in its
//! template, and a restored snapshot gives back the clusters it was taken from.
use vstd::prelude::*;

use crate::cluster::{
    generalized_token, spec_add_member, spec_generalize, spec_would_generalize, ClusterInnerView,
};
use crate::miner::{
    best_in, leaf_key, lru_index, spec_after_create, spec_after_match, spec_descent_keys, spec_evict,
    spec_key, spec_line_tokens, spec_match, spec_observe, AddResult, MinerView, UpdateType,
};
use crate::miner::{params_prefix, recency_of, spec_params};
use crate::tree::LeafView;
use crate::miner::{
    body_of_record, describes, insert_records, load_outcome, record_of_body, restored_from,
    spec_insert_body, spec_restore,
};
use crate::snapshot::{
    bincode_snapshot_bytes, frame, spec_decode, ClusterRecordView, DecodeOutcome, SnapshotView,
};
use crate::persistence::{opt_bytes, PersistenceError};
use crate::error::LogdrainError;
use crate::options::{meets_threshold, ratio_in_unit, spec_validate, OptionsView, Ratio};
use crate::tree::{first_index_of, spec_leaf_remove};
use crate::similarity::{frac_gt, match_count, spec_similarity, token_matches};
use crate::tokenize::TokenView;

verus! {

/// The similarity of a line that matches a template at every position: `n/n`, or `1/1`
/// for two empty vectors.
pub open spec fn full_sim(n: nat) -> (nat, nat) {
    if n == 0 {
        (1, 1)
    } else {
        (n, n)
    }
}

proof fn lemma_match_count_bounds(ts: Seq<TokenView>, xs: Seq<TokenView>, w: Seq<char>, k: int)
    requires
        0 <= k,
    ensures
        match_count(ts, xs, w, k) <= k,
        (forall|i: int| 0 <= i < k ==> token_matches(#[trigger] ts[i], xs[i], w)) ==> match_count(
            ts,
            xs,
            w,
            k,
        ) == k,
    decreases k,
{
    if k > 0 {
        lemma_match_count_bounds(ts, xs, w, k - 1);
    }
}

/// A similarity is a fraction with a positive denominator, at most 1.
pub proof fn lemma_sim_bounds(ts: Seq<TokenView>, xs: Seq<TokenView>, w: Seq<char>)
    ensures
        spec_similarity(ts, xs, w).1 > 0,
        spec_similarity(ts, xs, w).0 <= spec_similarity(ts, xs, w).1,
{
    lemma_match_count_bounds(ts, xs, w, ts.len() as int);
}

/// A template that accepts a line at every position scores the full similarity.
pub proof fn lemma_sim_full(ts: Seq<TokenView>, xs: Seq<TokenView>, w: Seq<char>)
    requires
        ts.len() == xs.len(),
        forall|i: int| 0 <= i < ts.len() ==> token_matches(#[trigger] ts[i], xs[i], w),
    ensures
        spec_similarity(ts, xs, w) == full_sim(ts.len()),
{
    lemma_match_count_bounds(ts, xs, w, ts.len() as int);
}

/// Generalizing is idempotent, and a generalized template accepts the line it was
/// generalized against at every position it shares with it.
pub proof fn lemma_generalize_idempotent(ts: Seq<TokenView>, xs: Seq<TokenView>, w: Seq<char>)
    ensures
        spec_generalize(ts, xs, w).len() == ts.len(),
        spec_generalize(spec_generalize(ts, xs, w), xs, w) == spec_generalize(ts, xs, w),
        !spec_would_generalize(spec_generalize(ts, xs, w), xs, w),
        forall|i: int|
            0 <= i < ts.len() && i < xs.len() ==> token_matches(
                #[trigger] spec_generalize(ts, xs, w)[i],
                xs[i],
                w,
            ),
{
    let g = spec_generalize(ts, xs, w);
    assert(spec_generalize(g, xs, w) =~= g);
}

/// A template that `xs` would not generalize already accepts `xs` at every shared
/// position.
pub proof fn lemma_no_generalize_matches(ts: Seq<TokenView>, xs: Seq<TokenView>, w: Seq<char>)
    requires
        !spec_would_generalize(ts, xs, w),
    ensures
        forall|i: int| 0 <= i < ts.len() && i < xs.len() ==> token_matches(#[trigger] ts[i], xs[i], w),
{
    assert forall|i: int| 0 <= i < ts.len() && i < xs.len() implies token_matches(
        #[trigger] ts[i],
        xs[i],
        w,
    ) by {
        if !token_matches(ts[i], xs[i], w) {
            assert(spec_would_generalize(ts, xs, w));
        }
    }
}

/// `a > b >= c` gives `a > c`, for fractions with positive denominators.
pub proof fn lemma_gt_ge(a: (nat, nat), b: (nat, nat), c: (nat, nat))
    requires
        a.1 > 0,
        b.1 > 0,
        c.1 > 0,
        frac_gt(a, b),
        !frac_gt(c, b),
    ensures
        frac_gt(a, c),
{
    let (a0, a1, b0, b1, c0, c1) = (a.0 as int, a.1 as int, b.0 as int, b.1 as int, c.0 as int, c.1 as int);
    assert(a0 * b1 * c1 > b0 * a1 * c1) by (nonlinear_arith)
        requires
            a0 * b1 > b0 * a1,
            c1 > 0,
    ;
    assert(c0 * b1 * a1 <= b0 * c1 * a1) by (nonlinear_arith)
        requires
            c0 * b1 <= b0 * c1,
            a1 > 0,
    ;
    assert(b0 * a1 * c1 == b0 * c1 * a1) by (nonlinear_arith);
    assert(a0 * c1 * b1 > c0 * a1 * b1) by (nonlinear_arith)
        requires
            a0 * b1 * c1 > c0 * b1 * a1,
    ;
    assert(a0 * c1 > c0 * a1) by (nonlinear_arith)
        requires
            a0 * c1 * b1 > c0 * a1 * b1,
            b1 > 0,
    ;
}

/// `a >= b > c` gives `a > c`, for fractions with positive denominators.
pub proof fn lemma_ge_gt(a: (nat, nat), b: (nat, nat), c: (nat, nat))
    requires
        a.1 > 0,
        b.1 > 0,
        c.1 > 0,
        !frac_gt(b, a),
        frac_gt(b, c),
    ensures
        frac_gt(a, c),
{
    let (a0, a1, b0, b1, c0, c1) = (a.0 as int, a.1 as int, b.0 as int, b.1 as int, c.0 as int, c.1 as int);
    assert(b0 * a1 * c1 <= a0 * b1 * c1) by (nonlinear_arith)
        requires
            b0 * a1 <= a0 * b1,
            c1 > 0,
    ;
    assert(b0 * c1 * a1 > c0 * b1 * a1) by (nonlinear_arith)
        requires
            b0 * c1 > c0 * b1,
            a1 > 0,
    ;
    assert(b0 * a1 * c1 == b0 * c1 * a1) by (nonlinear_arith);
    assert(a0 * c1 * b1 > c0 * a1 * b1) by (nonlinear_arith)
        requires
            a0 * b1 * c1 > c0 * b1 * a1,
    ;
    assert(a0 * c1 > c0 * a1) by (nonlinear_arith)
        requires
            a0 * c1 * b1 > c0 * a1 * b1,
            b1 > 0,
    ;
}

/// `a >= b >= c` gives `a >= c`, for fractions with positive denominators.
pub proof fn lemma_ge_ge(a: (nat, nat), b: (nat, nat), c: (nat, nat))
    requires
        a.1 > 0,
        b.1 > 0,
        c.1 > 0,
        !frac_gt(b, a),
        !frac_gt(c, b),
    ensures
        !frac_gt(c, a),
{
    if frac_gt(c, a) {
        lemma_ge_gt(b, c, a);
        assert(frac_gt(b, a));
    }
}

/// A similarity that reaches a threshold is greater than one that does not.
pub proof fn lemma_meets_gt(a: (nat, nat), b: (nat, nat), t: Ratio)
    requires
        a.1 > 0,
        b.1 > 0,
        meets_threshold(a, t),
        !meets_threshold(b, t),
    ensures
        frac_gt(a, b),
{
    let (a0, a1, b0, b1) = (a.0 as int, a.1 as int, b.0 as int, b.1 as int);
    let (num, den) = (t.num as int, t.den as int);
    assert(a0 * den * b1 >= num * a1 * b1) by (nonlinear_arith)
        requires
            a0 * den >= num * a1,
            b1 > 0,
    ;
    assert(b0 * den * a1 < num * b1 * a1) by (nonlinear_arith)
        requires
            b0 * den < num * b1,
            a1 > 0,
    ;
    assert(num * a1 * b1 == num * b1 * a1) by (nonlinear_arith);
    assert(a0 * b1 * den > b0 * a1 * den) by (nonlinear_arith)
        requires
            a0 * den * b1 > b0 * den * a1,
    ;
    assert(a0 * b1 > b0 * a1) by (nonlinear_arith)
        requires
            a0 * b1 * den > b0 * a1 * den,
            den > 0,
    ;
}

/// The full similarity reaches every threshold in `[0, 1]`, and no similarity exceeds it.
pub proof fn lemma_full_sim(n: nat, s: (nat, nat), t: Ratio)
    requires
        ratio_in_unit(t),
        s.1 > 0,
        s.0 <= s.1,
    ensures
        meets_threshold(full_sim(n), t),
        !frac_gt(s, full_sim(n)),
{
    let f = full_sim(n);
    let (f0, num, den) = (f.0 as int, t.num as int, t.den as int);
    assert(f0 * den >= num * f0) by (nonlinear_arith)
        requires
            0 <= num <= den,
            f0 > 0,
    ;
    assert(s.0 * f0 <= f0 * s.1) by (nonlinear_arith)
        requires
            s.0 <= s.1,
            f0 > 0,
    ;
}


/// The similarity of the body stored under `id` to `toks`.
pub open spec fn sim_of(
    cl: Map<u64, ClusterInnerView>,
    id: u64,
    toks: Seq<TokenView>,
    w: Seq<char>,
) -> (nat, nat) {
    spec_similarity(cl[id].tokens, toks, w)
}

/// What `best_in` picks: the first position whose body is strictly more similar than
/// every body before it and at least as similar as every body; nothing when no id has a
/// body.
pub proof fn lemma_best_in_char(
    ids: Seq<u64>,
    cl: Map<u64, ClusterInnerView>,
    toks: Seq<TokenView>,
    w: Seq<char>,
)
    ensures
        match best_in(ids, cl, toks, w) {
            Some((u, s)) => exists|p: int|
                0 <= p < ids.len() && ids[p] == u && cl.contains_key(u) && s == sim_of(
                    cl,
                    u,
                    toks,
                    w,
                ) && (forall|i: int|
                    0 <= i < p && cl.contains_key(#[trigger] ids[i]) ==> frac_gt(
                        s,
                        sim_of(cl, ids[i], toks, w),
                    )) && (forall|i: int|
                    0 <= i < ids.len() && cl.contains_key(#[trigger] ids[i]) ==> !frac_gt(
                        sim_of(cl, ids[i], toks, w),
                        s,
                    )),
            None => forall|i: int| 0 <= i < ids.len() ==> !cl.contains_key(#[trigger] ids[i]),
        },
    decreases ids.len(),
{
    if ids.len() > 0 {
        let pre = ids.drop_last();
        let x = ids.last();
        let n = ids.len() as int;
        lemma_best_in_char(pre, cl, toks, w);
        assert forall|i: int| 0 <= i < n - 1 implies #[trigger] ids[i] == pre[i] by {}
        if cl.contains_key(x) {
            let sx = sim_of(cl, x, toks, w);
            lemma_sim_bounds(cl[x].tokens, toks, w);
            match best_in(pre, cl, toks, w) {
                Some((pu, ps)) => {
                    let pp = choose|p: int|
                        0 <= p < pre.len() && pre[p] == pu && cl.contains_key(pu) && ps == sim_of(
                            cl,
                            pu,
                            toks,
                            w,
                        ) && (forall|i: int|
                            0 <= i < p && cl.contains_key(#[trigger] pre[i]) ==> frac_gt(
                                ps,
                                sim_of(cl, pre[i], toks, w),
                            )) && (forall|i: int|
                            0 <= i < pre.len() && cl.contains_key(#[trigger] pre[i]) ==> !frac_gt(
                                sim_of(cl, pre[i], toks, w),
                                ps,
                            ));
                    lemma_sim_bounds(cl[pu].tokens, toks, w);
                    if frac_gt(sx, ps) {
                        assert forall|i: int|
                            0 <= i < n - 1 && cl.contains_key(#[trigger] ids[i]) implies frac_gt(
                            sx,
                            sim_of(cl, ids[i], toks, w),
                        ) by {
                            assert(ids[i] == pre[i]);
                            lemma_sim_bounds(cl[ids[i]].tokens, toks, w);
                            lemma_gt_ge(sx, ps, sim_of(cl, ids[i], toks, w));
                        }
                        assert(ids[n - 1] == x);
                        assert forall|i: int|
                            0 <= i < n && cl.contains_key(#[trigger] ids[i]) implies !frac_gt(
                            sim_of(cl, ids[i], toks, w),
                            sx,
                        ) by {
                            if i < n - 1 {
                                assert(frac_gt(sx, sim_of(cl, ids[i], toks, w)));
                                lemma_sim_bounds(cl[ids[i]].tokens, toks, w);
                                let a = sim_of(cl, ids[i], toks, w);
                                assert(a.0 * sx.1 > sx.0 * a.1 ==> !(sx.0 * a.1 > a.0 * sx.1));
                            }
                        }
                    } else {
                        assert(ids[pp] == pu);
                        assert forall|i: int|
                            0 <= i < pp && cl.contains_key(#[trigger] ids[i]) implies frac_gt(
                            ps,
                            sim_of(cl, ids[i], toks, w),
                        ) by {
                            assert(ids[i] == pre[i]);
                        }
                        assert forall|i: int|
                            0 <= i < n && cl.contains_key(#[trigger] ids[i]) implies !frac_gt(
                            sim_of(cl, ids[i], toks, w),
                            ps,
                        ) by {
                            if i < n - 1 {
                                assert(ids[i] == pre[i]);
                            }
                        }
                    }
                },
                None => {
                    assert(ids[n - 1] == x);
                    assert forall|i: int|
                        0 <= i < n && cl.contains_key(#[trigger] ids[i]) implies !frac_gt(
                        sim_of(cl, ids[i], toks, w),
                        sx,
                    ) by {
                        if i < n - 1 {
                            assert(ids[i] == pre[i]);
                            assert(!cl.contains_key(pre[i]));
                        }
                    }
                    assert forall|i: int|
                        0 <= i < n - 1 && cl.contains_key(#[trigger] ids[i]) implies frac_gt(
                        sx,
                        sim_of(cl, ids[i], toks, w),
                    ) by {
                        assert(ids[i] == pre[i]);
                        assert(!cl.contains_key(pre[i]));
                    }
                },
            }
        } else {
            match best_in(pre, cl, toks, w) {
                Some((pu, ps)) => {
                    let pp = choose|p: int|
                        0 <= p < pre.len() && pre[p] == pu && cl.contains_key(pu) && ps == sim_of(
                            cl,
                            pu,
                            toks,
                            w,
                        ) && (forall|i: int|
                            0 <= i < p && cl.contains_key(#[trigger] pre[i]) ==> frac_gt(
                                ps,
                                sim_of(cl, pre[i], toks, w),
                            )) && (forall|i: int|
                            0 <= i < pre.len() && cl.contains_key(#[trigger] pre[i]) ==> !frac_gt(
                                sim_of(cl, pre[i], toks, w),
                                ps,
                            ));
                    assert(ids[pp] == pu);
                    assert forall|i: int|
                        0 <= i < pp && cl.contains_key(#[trigger] ids[i]) implies frac_gt(
                        ps,
                        sim_of(cl, ids[i], toks, w),
                    ) by {
                        assert(ids[i] == pre[i]);
                    }
                    assert forall|i: int|
                        0 <= i < n && cl.contains_key(#[trigger] ids[i]) implies !frac_gt(
                        sim_of(cl, ids[i], toks, w),
                        ps,
                    ) by {
                        if i < n - 1 {
                            assert(ids[i] == pre[i]);
                        }
                    }
                },
                None => {
                    assert forall|i: int| 0 <= i < n implies !cl.contains_key(#[trigger] ids[i]) by {
                        if i < n - 1 {
                            assert(ids[i] == pre[i]);
                        }
                    }
                },
            }
        }
    }
}

/// A position whose body is strictly more similar than every body before it and at least
/// as similar as every body after it is what `best_in` picks.
pub proof fn lemma_best_in_top(
    ids: Seq<u64>,
    cl: Map<u64, ClusterInnerView>,
    toks: Seq<TokenView>,
    w: Seq<char>,
    p: int,
)
    requires
        0 <= p < ids.len(),
        cl.contains_key(ids[p]),
        forall|i: int|
            0 <= i < p && cl.contains_key(#[trigger] ids[i]) ==> frac_gt(
                sim_of(cl, ids[p], toks, w),
                sim_of(cl, ids[i], toks, w),
            ),
        forall|i: int|
            p < i < ids.len() && cl.contains_key(#[trigger] ids[i]) ==> !frac_gt(
                sim_of(cl, ids[i], toks, w),
                sim_of(cl, ids[p], toks, w),
            ),
    ensures
        best_in(ids, cl, toks, w) == Some((ids[p], sim_of(cl, ids[p], toks, w))),
    decreases ids.len(),
{
    let pre = ids.drop_last();
    let n = ids.len() as int;
    assert forall|i: int| 0 <= i < n - 1 implies #[trigger] ids[i] == pre[i] by {}
    if p == n - 1 {
        lemma_best_in_char(pre, cl, toks, w);
        match best_in(pre, cl, toks, w) {
            Some((pu, ps)) => {
                let pp = choose|q: int|
                    0 <= q < pre.len() && pre[q] == pu && cl.contains_key(pu) && ps == sim_of(
                        cl,
                        pu,
                        toks,
                        w,
                    ) && (forall|i: int|
                        0 <= i < q && cl.contains_key(#[trigger] pre[i]) ==> frac_gt(
                            ps,
                            sim_of(cl, pre[i], toks, w),
                        )) && (forall|i: int|
                        0 <= i < pre.len() && cl.contains_key(#[trigger] pre[i]) ==> !frac_gt(
                            sim_of(cl, pre[i], toks, w),
                            ps,
                        ));
                assert(ids[pp] == pu);
            },
            None => {},
        }
    } else {
        assert(pre[p] == ids[p]);
        assert forall|i: int| 0 <= i < p && cl.contains_key(#[trigger] pre[i]) implies frac_gt(
            sim_of(cl, pre[p], toks, w),
            sim_of(cl, pre[i], toks, w),
        ) by {
            assert(ids[i] == pre[i]);
        }
        assert forall|i: int|
            p < i < pre.len() && cl.contains_key(#[trigger] pre[i]) implies !frac_gt(
            sim_of(cl, pre[i], toks, w),
            sim_of(cl, pre[p], toks, w),
        ) by {
            assert(ids[i] == pre[i]);
        }
        lemma_best_in_top(pre, cl, toks, w, p);
        assert(ids[n - 1] == ids.last());
    }
}

/// Removing `v` from ids without duplicates keeps every other id, adds none, and leaves
/// no `v` behind.
pub proof fn lemma_leaf_remove(ids: Seq<u64>, v: u64)
    requires
        ids.no_duplicates(),
    ensures
        spec_leaf_remove(ids, v).no_duplicates(),
        !spec_leaf_remove(ids, v).contains(v),
        ids.contains(v) ==> spec_leaf_remove(ids, v).len() + 1 == ids.len(),
        forall|u: u64| #[trigger] spec_leaf_remove(ids, v).contains(u) <==> (ids.contains(u) && u != v),
{
    let r = spec_leaf_remove(ids, v);
    if ids.contains(v) {
        let q = choose|q: int| 0 <= q < ids.len() && ids[q] == v;
        assert(forall|j: int| 0 <= j < q ==> ids[j] != v);
        let p = first_index_of(ids, v);
        assert(0 <= p < ids.len() && ids[p] == v);
        let n = ids.len() as int;
        assert forall|i: int, j: int| 0 <= i < r.len() && 0 <= j < r.len() && i != j implies r[i]
            != r[j] by {
            let ii = if i == p { n - 1 } else { i };
            let jj = if j == p { n - 1 } else { j };
            assert(r[i] == ids[ii]);
            assert(r[j] == ids[jj]);
        }
        assert forall|u: u64| #[trigger] r.contains(u) <==> (ids.contains(u) && u != v) by {
            if r.contains(u) {
                let i = choose|i: int| 0 <= i < r.len() && r[i] == u;
                let ii = if i == p { n - 1 } else { i };
                assert(r[i] == ids[ii]);
            }
            if ids.contains(u) && u != v {
                let i = choose|i: int| 0 <= i < ids.len() && ids[i] == u;
                if i == n - 1 {
                    assert(r[p] == u);
                } else {
                    assert(r[i] == u);
                }
            }
        }
    }
}


/// The leaf at `k` has the configured capacity, holds at most that many ids, each once,
/// each of a stored cluster whose tokens lead to `k`.
pub open spec fn leaf_consistent(m: MinerView, k: (nat, Seq<Seq<char>>)) -> bool {
    let l = m.leaves[k];
    &&& l.cap == m.options.max_clusters_per_leaf
    &&& l.ids.len() <= l.cap
    &&& l.ids.no_duplicates()
    &&& forall|i: int|
        0 <= i < l.ids.len() ==> m.clusters.contains_key(#[trigger] l.ids[i]) && leaf_key(
            m.options,
            m.clusters[l.ids[i]].tokens,
        ) == k
}

/// The cluster stored under `id` carries that id, is not newer than the counter, sits in
/// the leaf its tokens lead to, and lists each member once.
pub open spec fn body_consistent(m: MinerView, id: u64) -> bool {
    let lk = leaf_key(m.options, m.clusters[id].tokens);
    &&& m.clusters[id].id == id
    &&& id <= m.counter
    &&& m.leaves.contains_key(lk)
    &&& m.leaves[lk].ids.contains(id)
    &&& m.clusters[id].members.no_duplicates()
}

/// A consistent miner state: valid options, and a tree and a table that agree.
pub open spec fn consistent(m: MinerView) -> bool {
    &&& m.options.depth >= 2
    &&& ratio_in_unit(m.options.sim_threshold)
    &&& m.options.max_clusters_per_leaf >= 1
    &&& forall|k: (nat, Seq<Seq<char>>)| #[trigger] m.leaves.contains_key(k) ==> leaf_consistent(m, k)
    &&& forall|id: u64| #[trigger] m.clusters.contains_key(id) ==> body_consistent(m, id)
}

/// A fresh miner with valid options is consistent.
pub proof fn law_fresh_consistent(m: MinerView)
    requires
        m.options.depth >= 2,
        ratio_in_unit(m.options.sim_threshold),
        m.options.max_clusters_per_leaf >= 1,
        m.clusters == Map::<u64, ClusterInnerView>::empty(),
        m.leaves == Map::<(nat, Seq<Seq<char>>), LeafView>::empty(),
    ensures
        consistent(m),
{
}

/// A miner built from options that pass validation is consistent, so every law stated
/// here for consistent miners applies to it and, by `law_observe`, to every miner that
/// adds to it.
pub proof fn law_built_consistent(o: OptionsView, m: MinerView)
    requires
        spec_validate(o) is Ok,
        m.options == o,
        m.clusters == Map::<u64, ClusterInnerView>::empty(),
        m.leaves == Map::<(nat, Seq<Seq<char>>), LeafView>::empty(),
    ensures
        consistent(m),
{
    law_fresh_consistent(m);
}

/// Generalizing a template against a line of the same leaf keeps the leaf it leads to.
pub proof fn lemma_generalize_keeps_keys(
    m: MinerView,
    ts: Seq<TokenView>,
    xs: Seq<TokenView>,
)
    requires
        leaf_key(m.options, ts) == leaf_key(m.options, xs),
    ensures
        leaf_key(m.options, spec_generalize(ts, xs, m.options.wildcard)) == leaf_key(m.options, ts),
{
    let o = m.options;
    let w = o.wildcard;
    let g = spec_generalize(ts, xs, w);
    let kt = spec_descent_keys(o, ts);
    let kx = spec_descent_keys(o, xs);
    let kg = spec_descent_keys(o, g);
    assert(g.len() == ts.len());
    assert forall|i: int| 0 <= i < kg.len() implies kg[i] == kt[i] by {
        assert(kt[i] == spec_key(o, ts[i]));
        assert(kx[i] == spec_key(o, xs[i]));
        assert(kg[i] == spec_key(o, g[i]));
        assert(g[i] == generalized_token(ts[i], xs[i], w));
    }
    assert(kg =~= kt);
}

/// Recording a member keeps the members distinct.
pub proof fn lemma_add_member_distinct(ms: Seq<Seq<char>>, x: Seq<char>)
    requires
        ms.no_duplicates(),
    ensures
        spec_add_member(ms, x).no_duplicates(),
{
    if !ms.contains(x) {
        let r = ms.push(x);
        assert forall|i: int, j: int| 0 <= i < r.len() && 0 <= j < r.len() && i != j implies r[i]
            != r[j] by {
            if i == ms.len() as int {
                assert(ms[j] == r[j]);
            } else if j == ms.len() as int {
                assert(ms[i] == r[i]);
            }
        }
    }
}

proof fn lemma_lru_index_range(ids: Seq<u64>, cl: Map<u64, ClusterInnerView>, k: int)
    requires
        1 <= k,
    ensures
        0 <= lru_index(ids, cl, k) < k,
    decreases k,
{
    if k > 1 {
        lemma_lru_index_range(ids, cl, k - 1);
    }
}

/// A line that matches cluster `c` is matched to `c` again afterwards, and consistency is
/// kept.
proof fn lemma_observe_match(
    m: MinerView,
    c: u64,
    toks: Seq<TokenView>,
    member: Option<Seq<char>>,
    event: Option<u64>,
    now: u64,
)
    requires
        consistent(m),
        spec_match(m, toks) == Some(c),
    ensures
        ({
            let (m1, r) = spec_after_match(m, c, toks, member, event, now);
            &&& consistent(m1)
            &&& spec_match(m1, toks) == Some(c)
            &&& r.cluster_id == c
            &&& r.update != UpdateType::Created
            &&& m.clusters.contains_key(c)
            &&& m1.options == m.options
            &&& m1.clusters.contains_key(c)
            &&& !spec_would_generalize(m1.clusters[c].tokens, toks, m.options.wildcard)
        }),
{
    let o = m.options;
    let w = o.wildcard;
    let cl = m.clusters;
    let lk = leaf_key(o, toks);
    let ids = m.leaves[lk].ids;
    lemma_best_in_char(ids, cl, toks, w);
    let (_, s) = best_in(ids, cl, toks, w)->0;
    let p = choose|p: int|
        0 <= p < ids.len() && ids[p] == c && cl.contains_key(c) && s == sim_of(cl, c, toks, w) && (
        forall|i: int|
            0 <= i < p && cl.contains_key(#[trigger] ids[i]) ==> frac_gt(
                s,
                sim_of(cl, ids[i], toks, w),
            )) && (forall|i: int|
            0 <= i < ids.len() && cl.contains_key(#[trigger] ids[i]) ==> !frac_gt(
                sim_of(cl, ids[i], toks, w),
                s,
            ));
    assert(leaf_consistent(m, lk));
    let old_body = cl[c];
    assert(leaf_key(o, old_body.tokens) == lk);
    let (m1, r) = spec_after_match(m, c, toks, member, event, now);
    let nb = m1.clusters[c];
    // The new template accepts the line everywhere.
    if spec_would_generalize(old_body.tokens, toks, w) {
        lemma_generalize_idempotent(old_body.tokens, toks, w);
        lemma_generalize_keeps_keys(m, old_body.tokens, toks);
    } else {
        lemma_no_generalize_matches(old_body.tokens, toks, w);
    }
    assert(leaf_key(o, nb.tokens) == lk);
    lemma_sim_full(nb.tokens, toks, w);
    let f = full_sim(toks.len());
    let cl1 = m1.clusters;
    assert(sim_of(cl1, c, toks, w) == f);
    lemma_sim_bounds(old_body.tokens, toks, w);
    lemma_full_sim(toks.len(), s, o.sim_threshold);
    assert forall|i: int| 0 <= i < p && cl1.contains_key(#[trigger] ids[i]) implies frac_gt(
        sim_of(cl1, ids[p], toks, w),
        sim_of(cl1, ids[i], toks, w),
    ) by {
        assert(ids[i] != c);
        assert(cl.contains_key(ids[i]));
        lemma_sim_bounds(cl[ids[i]].tokens, toks, w);
        lemma_ge_gt(f, s, sim_of(cl, ids[i], toks, w));
    }
    assert forall|i: int| p < i < ids.len() && cl1.contains_key(#[trigger] ids[i]) implies !frac_gt(
        sim_of(cl1, ids[i], toks, w),
        sim_of(cl1, ids[p], toks, w),
    ) by {
        assert(ids[i] != c);
        assert(cl.contains_key(ids[i]));
        lemma_sim_bounds(cl[ids[i]].tokens, toks, w);
        lemma_ge_ge(f, s, sim_of(cl, ids[i], toks, w));
    }
    lemma_best_in_top(ids, cl1, toks, w, p);
    assert(m1.leaves == m.leaves);
    assert(spec_match(m1, toks) == Some(c));
    // Consistency.
    assert forall|k: (nat, Seq<Seq<char>>)| #[trigger] m1.leaves.contains_key(k) implies leaf_consistent(
        m1,
        k,
    ) by {
        assert(leaf_consistent(m, k));
    }
    assert forall|id: u64| #[trigger] m1.clusters.contains_key(id) implies body_consistent(m1, id) by {
        assert(body_consistent(m, id));
        if id == c {
            match member {
                Some(x) => lemma_add_member_distinct(old_body.members, x),
                None => {},
            }
        }
    }
}

/// A line that matches nothing creates a cluster under a fresh id, which the line then
/// matches; consistency is kept.
proof fn lemma_observe_create(
    m: MinerView,
    toks: Seq<TokenView>,
    suffix: Option<Seq<char>>,
    member: Option<Seq<char>>,
    event: Option<u64>,
    now: u64,
)
    requires
        consistent(m),
        m.counter < u64::MAX,
        spec_match(m, toks) is None,
    ensures
        ({
            let (m1, r) = spec_after_create(m, toks, suffix, member, event, now);
            &&& consistent(m1)
            &&& spec_match(m1, toks) == Some(r.cluster_id)
            &&& r.cluster_id == m.counter + 1
            &&& r.update == UpdateType::Created
            &&& !m.clusters.contains_key(r.cluster_id)
            &&& m1.options == m.options
            &&& m1.clusters.contains_key(r.cluster_id)
            &&& !spec_would_generalize(m1.clusters[r.cluster_id].tokens, toks, m.options.wildcard)
        }),
{
    let o = m.options;
    let w = o.wildcard;
    let cl = m.clusters;
    let d = (m.counter + 1) as u64;
    assert(m.counter.wrapping_add(1) == d);
    let lk = leaf_key(o, toks);
    let (m1, r) = spec_after_create(m, toks, suffix, member, event, now);
    let leaf0 = if m.leaves.contains_key(lk) {
        m.leaves[lk]
    } else {
        LeafView { cap: o.max_clusters_per_leaf, ids: Seq::empty() }
    };
    let l0 = leaf0.ids;
    if m.leaves.contains_key(lk) {
        assert(leaf_consistent(m, lk));
    }
    assert(!cl.contains_key(d)) by {
        if cl.contains_key(d) {
            assert(body_consistent(m, d));
        }
    }
    assert forall|i: int| 0 <= i < l0.len() implies cl.contains_key(#[trigger] l0[i]) && l0[i]
        != d && leaf_key(o, cl[l0[i]].tokens) == lk by {}
    let body = crate::miner::spec_new_body(d, toks, now, suffix, member, event);
    let cl1 = cl.insert(d, body);
    let (leaf1, cl2) = spec_evict(leaf0, cl1);
    let evicted = l0.len() >= leaf0.cap && l0.len() > 0;
    let v = if evicted {
        lemma_lru_index_range(l0, cl1, l0.len() as int);
        l0[lru_index(l0, cl1, l0.len() as int)]
    } else {
        0
    };
    if evicted {
        assert(l0.contains(v));
        lemma_leaf_remove(l0, v);
        assert(cl.contains_key(v) && v != d);
    }
    let l1 = leaf1.ids;
    assert(l1.no_duplicates());
    assert forall|u: u64| #[trigger] l1.contains(u) <==> (l0.contains(u) && (evicted ==> u != v)) by {}
    assert(!l1.contains(d));
    assert(cl2.contains_key(d) && cl2[d] == body);
    let l2 = l1.push(d);
    assert(m1.leaves == m.leaves.insert(lk, LeafView { cap: leaf1.cap, ids: l2 }));
    assert(m1.clusters == cl2);
    // Every body left in the new leaf is one of the old leaf's, unchanged.
    assert forall|i: int| 0 <= i < l1.len() implies cl2.contains_key(#[trigger] l1[i]) && cl2[l1[i]]
        == cl[l1[i]] && l0.contains(l1[i]) by {
        assert(l1.contains(l1[i]));
    }
    // The new cluster is the best match for the line.
    let toks_self = toks;
    assert forall|i: int| 0 <= i < toks.len() implies token_matches(#[trigger] toks[i], toks_self[i], w) by {}
    lemma_sim_full(toks, toks, w);
    let f = full_sim(toks.len());
    assert(sim_of(cl2, d, toks, w) == f);
    lemma_full_sim(toks.len(), (0, 1), o.sim_threshold);
    assert forall|i: int| 0 <= i < l1.len() && cl2.contains_key(#[trigger] l2[i]) implies frac_gt(
        sim_of(cl2, l2[l1.len() as int], toks, w),
        sim_of(cl2, l2[i], toks, w),
    ) by {
        let u = l1[i];
        assert(l2[i] == u);
        assert(l0.contains(u));
        let j = choose|j: int| 0 <= j < l0.len() && l0[j] == u;
        assert(m.leaves.contains_key(lk));
        lemma_best_in_char(l0, cl, toks, w);
        lemma_sim_bounds(cl[u].tokens, toks, w);
        match best_in(l0, cl, toks, w) {
            Some((b, sb)) => {
                assert(!meets_threshold(sb, o.sim_threshold));
                lemma_sim_bounds(cl[b].tokens, toks, w);
                lemma_meets_gt(f, sb, o.sim_threshold);
                assert(cl.contains_key(l0[j]));
                lemma_gt_ge(f, sb, sim_of(cl, u, toks, w));
            },
            None => {
                assert(!cl.contains_key(l0[j]));
            },
        }
    }
    lemma_best_in_top(l2, cl2, toks, w, l1.len() as int);
    assert(spec_match(m1, toks) == Some(d));
    assert(!spec_would_generalize(toks, toks, w));
    // Consistency.
    assert forall|k: (nat, Seq<Seq<char>>)| #[trigger] m1.leaves.contains_key(k) implies leaf_consistent(
        m1,
        k,
    ) by {
        if k == lk {
            assert forall|i: int, j: int| 0 <= i < l2.len() && 0 <= j < l2.len() && i != j implies l2[i]
                != l2[j] by {
                if i == l1.len() as int {
                    assert(l1.contains(l2[j]));
                } else if j == l1.len() as int {
                    assert(l1.contains(l2[i]));
                }
            }
            assert forall|i: int| 0 <= i < l2.len() implies m1.clusters.contains_key(#[trigger] l2[i])
                && leaf_key(o, m1.clusters[l2[i]].tokens) == k by {
                if i < l1.len() {
                    assert(l2[i] == l1[i]);
                    assert(l0.contains(l1[i]));
                }
            }
        } else {
            assert(leaf_consistent(m, k));
            let l = m.leaves[k];
            assert forall|i: int| 0 <= i < l.ids.len() implies m1.clusters.contains_key(#[trigger] l.ids[i])
                && leaf_key(o, m1.clusters[l.ids[i]].tokens) == k by {
                let u = l.ids[i];
                assert(body_consistent(m, u));
                if evicted && u == v {
                    assert(leaf_key(o, cl[v].tokens) == lk);
                }
            }
        }
    }
    assert forall|id: u64| #[trigger] m1.clusters.contains_key(id) implies body_consistent(m1, id) by {
        if id == d {
            assert(l2[l1.len() as int] == d);
            assert(l2.contains(d));
            match member {
                Some(x) => {
                    assert(body.members =~= seq![x]);
                },
                None => {},
            }
        } else {
            assert(cl.contains_key(id));
            assert(body_consistent(m, id));
            let ku = leaf_key(o, cl[id].tokens);
            if ku == lk {
                assert(l0.contains(id));
                assert(l1.contains(id));
                assert(l2.contains(id)) by {
                    let j = choose|j: int| 0 <= j < l1.len() && l1[j] == id;
                    assert(l2[j] == id);
                }
            }
        }
    }
}

/// Every add keeps a consistent miner consistent (while the id counter has room), and the
/// line then matches the cluster it was assigned to: a created cluster takes the next id,
/// which no cluster had.
pub proof fn law_observe(
    m: MinerView,
    line: Seq<char>,
    member: Option<Seq<char>>,
    event: Option<u64>,
    now: u64,
)
    requires
        consistent(m),
        m.counter < u64::MAX,
    ensures
        ({
            let (m1, r) = spec_observe(m, line, member, event, now);
            &&& consistent(m1)
            &&& spec_match(m1, spec_line_tokens(m.options, line)) == Some(r.cluster_id)
            &&& (r.update == UpdateType::Created <==> !m.clusters.contains_key(r.cluster_id))
            &&& (r.update == UpdateType::Created ==> r.cluster_id == m.counter + 1)
            &&& m1.options == m.options
            &&& m1.clusters.contains_key(r.cluster_id)
            &&& !spec_would_generalize(
                m1.clusters[r.cluster_id].tokens,
                spec_line_tokens(m.options, line),
                m.options.wildcard,
            )
        }),
{
    let toks = spec_line_tokens(m.options, line);
    match spec_match(m, toks) {
        Some(c) => lemma_observe_match(m, c, toks, member, event, now),
        None => lemma_observe_create(
            m,
            toks,
            crate::miner::spec_line_suffix(m.options, line),
            member,
            event,
            now,
        ),
    }
}


/// Adding a line, then a line with the same tokens (the same line, or in first-line mode
/// the same first line with another suffix), puts both in one cluster; the second add
/// changes neither its template nor its suffix.
pub proof fn law_readd_same_tokens(
    m: MinerView,
    line: Seq<char>,
    member: Option<Seq<char>>,
    event: Option<u64>,
    now: u64,
    line2: Seq<char>,
    member2: Option<Seq<char>>,
    event2: Option<u64>,
    now2: u64,
)
    requires
        consistent(m),
        m.counter < u64::MAX,
        spec_line_tokens(m.options, line2) == spec_line_tokens(m.options, line),
    ensures
        ({
            let (m1, r1) = spec_observe(m, line, member, event, now);
            let (m2, r2) = spec_observe(m1, line2, member2, event2, now2);
            &&& r2.cluster_id == r1.cluster_id
            &&& r2.update == UpdateType::Unchanged
            &&& m2.clusters.contains_key(r1.cluster_id)
            &&& m2.clusters[r1.cluster_id].tokens == m1.clusters[r1.cluster_id].tokens
            &&& m2.clusters[r1.cluster_id].suffix == m1.clusters[r1.cluster_id].suffix
        }),
{
    law_observe(m, line, member, event, now);
}

/// A cluster body with its LRU tick reset, as a restore gives it back.
pub open spec fn reset_tick(c: ClusterInnerView) -> ClusterInnerView {
    ClusterInnerView { last_used: 0, ..c }
}

/// Ids without duplicates that all lie among `b`'s, but for `x` which `b` holds, are
/// fewer than `b`'s; without the exception, at most as many.
proof fn lemma_sub_len(a: Seq<u64>, b: Seq<u64>, x: Option<u64>)
    requires
        a.no_duplicates(),
        b.no_duplicates(),
        forall|u: u64| #[trigger] a.contains(u) ==> b.contains(u) && Some(u) != x,
        x matches Some(v) ==> b.contains(v),
    ensures
        a.len() <= b.len(),
        x is Some ==> a.len() < b.len(),
{
    broadcast use vstd::seq_lib::seq_to_set_is_finite;
    broadcast use vstd::set::axiom_set_remove_len;

    a.unique_seq_to_set();
    b.unique_seq_to_set();
    let sb = match x {
        Some(v) => b.to_set().remove(v),
        None => b.to_set(),
    };
    assert(a.to_set().subset_of(sb));
    vstd::set_lib::lemma_len_subset(a.to_set(), sb);
}

/// The state after replaying the first `j` records of a snapshot of consistent `m` into
/// an empty miner: the records' clusters, with reset ticks, each in the leaf of `m` it
/// came from, and no eviction along the way.
proof fn lemma_replay(m: MinerView, s0: MinerView, rs: Seq<ClusterRecordView>, j: int)
    requires
        consistent(m),
        0 <= j <= rs.len(),
        forall|i: int|
            0 <= i < rs.len() ==> m.clusters.contains_key(#[trigger] rs[i].id) && rs[i]
                == record_of_body(m.clusters[rs[i].id]),
        forall|i: int, k: int|
            0 <= i < rs.len() && 0 <= k < rs.len() && i != k ==> #[trigger] rs[i].id
                != #[trigger] rs[k].id,
        s0.options == m.options,
        s0.counter == m.counter,
        s0.clusters == Map::<u64, ClusterInnerView>::empty(),
        s0.leaves == Map::<(nat, Seq<Seq<char>>), LeafView>::empty(),
    ensures
        ({
            let sj = insert_records(s0, rs.take(j));
            &&& sj.options == m.options
            &&& sj.counter == m.counter
            &&& sj.tick == s0.tick
            &&& forall|id: u64| #[trigger]
                sj.clusters.contains_key(id) <==> exists|i: int| 0 <= i < j && #[trigger] rs[i].id == id
            &&& forall|id: u64| #[trigger]
                sj.clusters.contains_key(id) ==> m.clusters.contains_key(id) && sj.clusters[id]
                    == reset_tick(m.clusters[id])
            &&& forall|k: (nat, Seq<Seq<char>>)| #[trigger]
                sj.leaves.contains_key(k) ==> {
                    &&& sj.leaves[k].cap == m.options.max_clusters_per_leaf
                    &&& sj.leaves[k].ids.no_duplicates()
                    &&& m.leaves.contains_key(k)
                    &&& forall|u: u64| #[trigger]
                        sj.leaves[k].ids.contains(u) ==> sj.clusters.contains_key(u)
                            && m.leaves[k].ids.contains(u)
                }
            &&& forall|id: u64| #[trigger]
                sj.clusters.contains_key(id) ==> sj.leaves.contains_key(
                    leaf_key(m.options, m.clusters[id].tokens),
                ) && sj.leaves[leaf_key(m.options, m.clusters[id].tokens)].ids.contains(id)
        }),
    decreases j,
{
    if j > 0 {
        lemma_replay(m, s0, rs, j - 1);
        let sp = insert_records(s0, rs.take(j - 1));
        assert(rs.take(j).drop_last() =~= rs.take(j - 1));
        let r = rs[j - 1];
        assert(rs.take(j).last() == r);
        let id = r.id;
        let c = m.clusters[id];
        let body = body_of_record(r);
        assert(body == reset_tick(c));
        let o = m.options;
        let lk = leaf_key(o, body.tokens);
        assert(body_consistent(m, id));
        assert(leaf_consistent(m, lk));
        assert(!sp.clusters.contains_key(id)) by {
            if sp.clusters.contains_key(id) {
                let i = choose|i: int| 0 <= i < j - 1 && #[trigger] rs[i].id == id;
                assert(rs[i].id != rs[j - 1].id);
            }
        }
        let cl1 = sp.clusters.insert(id, body);
        let leaf0 = if sp.leaves.contains_key(lk) {
            sp.leaves[lk]
        } else {
            LeafView { cap: o.max_clusters_per_leaf, ids: Seq::empty() }
        };
        assert forall|u: u64| #[trigger] leaf0.ids.contains(u) implies m.leaves[lk].ids.contains(u)
            && Some(u) != Some(id) by {}
        lemma_sub_len(leaf0.ids, m.leaves[lk].ids, Some(id));
        assert(spec_evict(leaf0, cl1) == (leaf0, cl1));
        let sj = insert_records(s0, rs.take(j));
        assert(sj == spec_insert_body(sp, body));
        let l2 = leaf0.ids.push(id);
        assert(sj.leaves == sp.leaves.insert(lk, LeafView { cap: leaf0.cap, ids: l2 }));
        assert(sj.clusters == cl1);
        assert forall|u: u64| #[trigger] l2.contains(u) <==> (leaf0.ids.contains(u) || u == id) by {
            if l2.contains(u) {
                let i = choose|i: int| 0 <= i < l2.len() && l2[i] == u;
                if i < leaf0.ids.len() {
                    assert(leaf0.ids.contains(u));
                }
            }
            if leaf0.ids.contains(u) {
                let i = choose|i: int| 0 <= i < leaf0.ids.len() && leaf0.ids[i] == u;
                assert(l2[i] == u);
            }
            if u == id {
                assert(l2[leaf0.ids.len() as int] == u);
            }
        }
        assert(l2.no_duplicates()) by {
            assert forall|a: int, b: int| 0 <= a < l2.len() && 0 <= b < l2.len() && a != b implies l2[a]
                != l2[b] by {
                if a == leaf0.ids.len() as int {
                    assert(leaf0.ids.contains(l2[b]));
                } else if b == leaf0.ids.len() as int {
                    assert(leaf0.ids.contains(l2[a]));
                }
            }
        }
        assert forall|u: u64| #[trigger]
            sj.clusters.contains_key(u) <==> exists|i: int| 0 <= i < j && #[trigger] rs[i].id == u by {
            if sj.clusters.contains_key(u) && u != id {
                let i = choose|i: int| 0 <= i < j - 1 && #[trigger] rs[i].id == u;
            }
            if exists|i: int| 0 <= i < j && #[trigger] rs[i].id == u {
                let i = choose|i: int| 0 <= i < j && #[trigger] rs[i].id == u;
                if i < j - 1 {
                    assert(sp.clusters.contains_key(u));
                }
            }
        }
        assert forall|k: (nat, Seq<Seq<char>>)| #[trigger] sj.leaves.contains_key(k) implies {
            &&& sj.leaves[k].cap == m.options.max_clusters_per_leaf
            &&& sj.leaves[k].ids.no_duplicates()
            &&& m.leaves.contains_key(k)
            &&& forall|u: u64| #[trigger]
                sj.leaves[k].ids.contains(u) ==> sj.clusters.contains_key(u) && m.leaves[k].ids.contains(
                    u,
                )
        } by {}
        assert forall|u: u64| #[trigger] sj.clusters.contains_key(u) implies sj.leaves.contains_key(
            leaf_key(m.options, m.clusters[u].tokens),
        ) && sj.leaves[leaf_key(m.options, m.clusters[u].tokens)].ids.contains(u) by {
            if u != id {
                let ku = leaf_key(m.options, m.clusters[u].tokens);
                if ku == lk {
                    assert(leaf0.ids.contains(u));
                }
            }
        }
    }
}

/// Restoring a snapshot of a consistent miner into a miner with the same options gives
/// back its clusters (each with its LRU tick reset) and its id counter, in a consistent
/// state.
pub proof fn law_restore_snapshot(m: MinerView, m2: MinerView, bytes: Seq<u8>, b: SnapshotView)
    requires
        consistent(m),
        describes(m, b),
        spec_decode(bytes) == DecodeOutcome::Body(b),
        m2.options == m.options,
    ensures
        ({
            let m3 = restored_from(m2, bytes);
            &&& m3.clusters == m.clusters.map_values(|c: ClusterInnerView| reset_tick(c))
            &&& m3.counter == m.counter
            &&& m3.options == m.options
            &&& consistent(m3)
        }),
{
    let rs = b.clusters;
    let s0 = MinerView { counter: b.counter, clusters: Map::empty(), leaves: Map::empty(), ..m2 };
    lemma_replay(m, s0, rs, rs.len() as int);
    assert(rs.take(rs.len() as int) =~= rs);
    let m3 = restored_from(m2, bytes);
    assert(m3 == insert_records(s0, rs));
    let want = m.clusters.map_values(|c: ClusterInnerView| reset_tick(c));
    assert forall|id: u64| #[trigger] m3.clusters.contains_key(id) <==> m.clusters.contains_key(id) by {
        if m.clusters.contains_key(id) {
            let i = choose|i: int| 0 <= i < rs.len() && #[trigger] rs[i].id == id;
            assert(exists|i: int| 0 <= i < rs.len() && #[trigger] rs[i].id == id);
        }
    }
    assert(m3.clusters =~= want);
    assert forall|k: (nat, Seq<Seq<char>>)| #[trigger] m3.leaves.contains_key(k) implies leaf_consistent(
        m3,
        k,
    ) by {
        assert(leaf_consistent(m, k));
        let l = m3.leaves[k].ids;
        assert forall|u: u64| #[trigger] l.contains(u) implies m.leaves[k].ids.contains(u) && Some(u)
            != None::<u64> by {}
        lemma_sub_len(l, m.leaves[k].ids, None);
        assert forall|i: int| 0 <= i < l.len() implies m3.clusters.contains_key(#[trigger] l[i])
            && leaf_key(m.options, m3.clusters[l[i]].tokens) == k by {
            assert(l.contains(l[i]));
            let q = choose|q: int| 0 <= q < m.leaves[k].ids.len() && m.leaves[k].ids[q] == l[i];
        }
    }
    assert forall|id: u64| #[trigger] m3.clusters.contains_key(id) implies body_consistent(m3, id) by {
        assert(body_consistent(m, id));
    }
}

/// Saving a consistent miner and loading what the backend gives back into a miner with
/// the same options restores its clusters (each with its LRU tick reset) and its id
/// counter: when the backend's `load` succeeds and returns the saved bytes, the load
/// reports `Ok(true)`.
pub proof fn law_save_then_load(
    m: MinerView,
    b: SnapshotView,
    m2: MinerView,
    loaded: Result<Option<Vec<u8>>, PersistenceError>,
    after: MinerView,
    r: Result<bool, LogdrainError>,
)
    requires
        consistent(m),
        describes(m, b),
        spec_decode(frame(bincode_snapshot_bytes(b))) == DecodeOutcome::Body(b),
        m2.options == m.options,
        load_outcome(m2, loaded, after, r),
        loaded matches Ok(o) && opt_bytes(o) == Some(frame(bincode_snapshot_bytes(b))),
    ensures
        r matches Ok(true),
        after.clusters == m.clusters.map_values(|c: ClusterInnerView| reset_tick(c)),
        after.counter == m.counter,
        after.options == m.options,
        consistent(after),
{
    let bytes = frame(bincode_snapshot_bytes(b));
    law_restore_snapshot(m, m2, bytes, b);
}

} // verus!

verus! {

/// Each add counts exactly one line: the cluster the line joins grows by one (a created
/// cluster starts at one), and every other cluster that remains is unchanged; a line that
/// joins a cluster removes none.
pub proof fn law_add_counts_one_line(
    m: MinerView,
    line: Seq<char>,
    member: Option<Seq<char>>,
    event: Option<u64>,
    now: u64,
)
    requires
        consistent(m),
        m.counter < u64::MAX,
    ensures
        ({
            let (m1, r) = spec_observe(m, line, member, event, now);
            &&& m1.clusters.contains_key(r.cluster_id)
            &&& m1.clusters[r.cluster_id].size == if r.update == UpdateType::Created {
                1
            } else {
                m.clusters[r.cluster_id].size.wrapping_add(1)
            }
            &&& forall|k: u64|
                k != r.cluster_id && #[trigger] m1.clusters.contains_key(k) ==> m.clusters.contains_key(k)
                    && m1.clusters[k] == m.clusters[k]
            &&& r.update != UpdateType::Created ==> m1.clusters.dom() == m.clusters.dom()
        }),
{
    law_observe(m, line, member, event, now);
    let toks = spec_line_tokens(m.options, line);
    let (m1, r) = spec_observe(m, line, member, event, now);
    match spec_match(m, toks) {
        Some(c) => {
            assert(m.clusters.contains_key(c)) by {
                lemma_observe_match(m, c, toks, member, event, now);
            }
            assert(m1.clusters.dom() =~= m.clusters.dom());
        },
        None => {
            let d = (m.counter + 1) as u64;
            let lk = leaf_key(m.options, toks);
            let leaf0 = if m.leaves.contains_key(lk) {
                m.leaves[lk]
            } else {
                LeafView { cap: m.options.max_clusters_per_leaf, ids: Seq::empty() }
            };
            let body = crate::miner::spec_new_body(
                d,
                toks,
                now,
                crate::miner::spec_line_suffix(m.options, line),
                member,
                event,
            );
            let cl1 = m.clusters.insert(d, body);
            assert(m.counter.wrapping_add(1) == d);
            assert(m1.clusters == spec_evict(leaf0, cl1).1);
        },
    }
}

} // verus!

verus! {

/// Tokens with the same texts lead to the same leaf.
proof fn lemma_leaf_key_texts(m: MinerView, xs: Seq<TokenView>, ys: Seq<TokenView>)
    requires
        crate::retokenize::texts(xs) == crate::retokenize::texts(ys),
    ensures
        leaf_key(m.options, xs) == leaf_key(m.options, ys),
{
    let o = m.options;
    assert(xs.len() == crate::retokenize::texts(xs).len());
    assert(ys.len() == crate::retokenize::texts(ys).len());
    let kx = spec_descent_keys(o, xs);
    let ky = spec_descent_keys(o, ys);
    assert forall|i: int| 0 <= i < kx.len() implies kx[i] == ky[i] by {
        assert(crate::retokenize::texts(xs)[i] == xs[i].text);
        assert(crate::retokenize::texts(ys)[i] == ys[i].text);
    }
    assert(kx =~= ky);
}

proof fn lemma_match_count_mono(
    e: Seq<TokenView>,
    xs: Seq<TokenView>,
    ys: Seq<TokenView>,
    w: Seq<char>,
    k: int,
)
    requires
        0 <= k <= e.len(),
        e.len() <= xs.len(),
        e.len() <= ys.len(),
        forall|i: int| 0 <= i < e.len() ==> token_matches(#[trigger] e[i], xs[i], w) ==> token_matches(e[i], ys[i], w),
    ensures
        match_count(e, xs, w, k) <= match_count(e, ys, w, k),
    decreases k,
{
    if k > 0 {
        lemma_match_count_mono(e, xs, ys, w, k - 1);
    }
}

/// A line whose every text is the other line's text or the wildcard is no more similar to
/// any template than the other line.
proof fn lemma_sim_mono(e: Seq<TokenView>, xs: Seq<TokenView>, ys: Seq<TokenView>, w: Seq<char>)
    requires
        xs.len() == ys.len(),
        forall|i: int| 0 <= i < xs.len() ==> (#[trigger] xs[i]).text == ys[i].text || xs[i].text == w,
    ensures
        !frac_gt(spec_similarity(e, xs, w), spec_similarity(e, ys, w)),
{
    if e.len() == xs.len() && e.len() > 0 {
        assert forall|i: int| 0 <= i < e.len() implies token_matches(#[trigger] e[i], xs[i], w) ==> token_matches(
            e[i],
            ys[i],
            w,
        ) by {}
        lemma_match_count_mono(e, xs, ys, w, e.len() as int);
        let (a, b) = (match_count(e, xs, w, e.len() as int) as int, match_count(e, ys, w, e.len() as int) as int);
        let n = e.len() as int;
        assert(a * n <= b * n) by (nonlinear_arith)
            requires
                a <= b,
                n > 0,
        ;
    }
}

/// Whether every token of every cluster can be rendered and read back.
pub open spec fn plain_templates(m: MinerView) -> bool {
    forall|k: u64, i: int|
        m.clusters.contains_key(k) && 0 <= i < m.clusters[k].tokens.len() ==> crate::retokenize::plain_token(
            #[trigger] m.clusters[k].tokens[i],
            crate::options::spec_active_delims(m.options),
        )
}

/// Without masks or first-line mode, the rendered template of the cluster a line was just
/// assigned to is matched to that cluster again, provided the templates, the line's tokens
/// and the wildcard can be rendered and read back.
pub proof fn law_template_matches_its_cluster(
    m: MinerView,
    line: Seq<char>,
    member: Option<Seq<char>>,
    event: Option<u64>,
    now: u64,
)
    requires
        consistent(m),
        m.counter < u64::MAX,
        m.options.masks.len() == 0,
        !m.options.first_line_only,
        plain_templates(m),
        forall|i: int|
            0 <= i < spec_line_tokens(m.options, line).len() ==> crate::retokenize::plain_token(
                #[trigger] spec_line_tokens(m.options, line)[i],
                crate::options::spec_active_delims(m.options),
            ),
        m.options.wildcard.len() > 0,
        crate::retokenize::no_sep(m.options.wildcard, crate::retokenize::ws_sep()),
        crate::retokenize::no_sep(
            m.options.wildcard,
            crate::retokenize::delim_sep(crate::options::spec_active_delims(m.options)),
        ),
    ensures
        ({
            let (m1, r) = spec_observe(m, line, member, event, now);
            spec_match(
                m1,
                spec_line_tokens(m1.options, crate::cluster::spec_render(m1.clusters[r.cluster_id].tokens)),
            ) == Some(r.cluster_id)
        }),
{
    let o = m.options;
    let w = o.wildcard;
    let d = crate::options::spec_active_delims(o);
    let toks = spec_line_tokens(o, line);
    law_observe(m, line, member, event, now);
    let (m1, r) = spec_observe(m, line, member, event, now);
    let c = r.cluster_id;
    let ct = m1.clusters[c].tokens;
    lemma_no_generalize_matches(ct, toks, w);
    // The new template is the line with some texts replaced by the wildcard.
    assert(ct.len() == toks.len()) by {
        let lk = leaf_key(o, toks);
        lemma_best_in_char(m1.leaves[lk].ids, m1.clusters, toks, w);
        let p = choose|p: int| 0 <= p < m1.leaves[lk].ids.len() && m1.leaves[lk].ids[p] == c;
        assert(leaf_consistent(m1, lk));
    }
    assert forall|i: int| 0 <= i < ct.len() implies crate::retokenize::plain_token(#[trigger] ct[i], d) by {
        assert(token_matches(ct[i], toks[i], w));
        assert(crate::retokenize::plain_token(toks[i], d));
        if m.clusters.contains_key(c) {
            let old = m.clusters[c].tokens;
            assert(m1.clusters[c].tokens == if spec_would_generalize(old, toks, w) {
                spec_generalize(old, toks, w)
            } else {
                old
            });
            assert(crate::retokenize::plain_token(old[i], d));
        }
    }
    crate::retokenize::law_render_retokenizes(ct, d);
    let tmpl = crate::cluster::spec_render(ct);
    let xs = spec_line_tokens(o, tmpl);
    assert(crate::mask::spec_apply_masks(o.masks, tmpl) == tmpl);
    assert(xs == crate::tokenize::spec_tokenize(tmpl, d));
    let tx = crate::retokenize::texts(xs);
    assert(tx == crate::retokenize::texts(ct));
    assert(xs.len() == ct.len()) by {
        assert(tx.len() == xs.len());
        assert(crate::retokenize::texts(ct).len() == ct.len());
    }
    assert forall|i: int| 0 <= i < xs.len() implies (#[trigger] xs[i]).text == toks[i].text || xs[i].text == w by {
        assert(tx[i] == xs[i].text);
        assert(crate::retokenize::texts(ct)[i] == ct[i].text);
        assert(token_matches(ct[i], toks[i], w));
    }
    // Same leaf as the line.
    let lk = leaf_key(o, toks);
    assert(leaf_key(o, ct) == lk) by {
        lemma_best_in_char(m1.leaves[lk].ids, m1.clusters, toks, w);
        let p = choose|p: int| 0 <= p < m1.leaves[lk].ids.len() && m1.leaves[lk].ids[p] == c;
        assert(leaf_consistent(m1, lk));
    }
    lemma_leaf_key_texts(m1, xs, ct);
    // `c` is still the first most similar cluster of that leaf.
    let ids = m1.leaves[lk].ids;
    let cl = m1.clusters;
    lemma_best_in_char(ids, cl, toks, w);
    let (_, s) = best_in(ids, cl, toks, w)->0;
    let p = choose|p: int|
        0 <= p < ids.len() && ids[p] == c && cl.contains_key(c) && s == sim_of(cl, c, toks, w) && (
        forall|i: int|
            0 <= i < p && cl.contains_key(#[trigger] ids[i]) ==> frac_gt(
                s,
                sim_of(cl, ids[i], toks, w),
            )) && (forall|i: int|
            0 <= i < ids.len() && cl.contains_key(#[trigger] ids[i]) ==> !frac_gt(
                sim_of(cl, ids[i], toks, w),
                s,
            ));
    assert forall|i: int| 0 <= i < ct.len() implies token_matches(#[trigger] ct[i], xs[i], w) by {
        assert(tx[i] == xs[i].text);
        assert(crate::retokenize::texts(ct)[i] == ct[i].text);
    }
    lemma_sim_full(ct, xs, w);
    lemma_sim_full(ct, toks, w);
    let f = full_sim(ct.len());
    assert(sim_of(cl, c, xs, w) == f);
    assert(s == f);
    assert forall|i: int| 0 <= i < p && cl.contains_key(#[trigger] ids[i]) implies frac_gt(
        sim_of(cl, ids[p], xs, w),
        sim_of(cl, ids[i], xs, w),
    ) by {
        lemma_sim_mono(cl[ids[i]].tokens, xs, toks, w);
        lemma_sim_bounds(cl[ids[i]].tokens, xs, w);
        lemma_sim_bounds(cl[ids[i]].tokens, toks, w);
        lemma_gt_ge(f, sim_of(cl, ids[i], toks, w), sim_of(cl, ids[i], xs, w));
    }
    assert forall|i: int| p < i < ids.len() && cl.contains_key(#[trigger] ids[i]) implies !frac_gt(
        sim_of(cl, ids[i], xs, w),
        sim_of(cl, ids[p], xs, w),
    ) by {
        lemma_sim_mono(cl[ids[i]].tokens, xs, toks, w);
        lemma_sim_bounds(cl[ids[i]].tokens, xs, w);
        lemma_sim_bounds(cl[ids[i]].tokens, toks, w);
        lemma_ge_ge(f, sim_of(cl, ids[i], toks, w), sim_of(cl, ids[i], xs, w));
    }
    lemma_best_in_top(ids, cl, xs, w, p);
    lemma_full_sim(ct.len(), (0, 1), o.sim_threshold);
}

/// One observed line: the line, an optional member label, an optional event time, and
/// the wall-clock time of the add.
pub type Observation = (Seq<char>, Option<Seq<char>>, Option<u64>, u64);

/// The miner after observing `obs` in order, and the result of each add.
pub open spec fn spec_run(m: MinerView, obs: Seq<Observation>) -> (MinerView, Seq<AddResult>)
    decreases obs.len(),
{
    if obs.len() == 0 {
        (m, Seq::empty())
    } else {
        let (m0, rs) = spec_run(m, obs.drop_last());
        let o = obs.last();
        let (m1, r) = spec_observe(m0, o.0, o.1, o.2, o.3);
        (m1, rs.push(r))
    }
}

/// How many of the results `rs` name cluster `id`.
pub open spec fn count_id(rs: Seq<AddResult>, id: u64) -> nat
    decreases rs.len(),
{
    if rs.len() == 0 {
        0
    } else {
        count_id(rs.drop_last(), id) + if rs.last().cluster_id == id {
            1nat
        } else {
            0nat
        }
    }
}

proof fn lemma_count_id_bounds(rs: Seq<AddResult>, id: u64)
    ensures
        count_id(rs, id) <= rs.len(),
        (forall|j: int| 0 <= j < rs.len() ==> #[trigger] rs[j].cluster_id < id) ==> count_id(rs, id)
            == 0,
    decreases rs.len(),
{
    if rs.len() > 0 {
        let p = rs.drop_last();
        assert forall|j: int| 0 <= j < p.len() implies #[trigger] p[j] == rs[j] by {}
        lemma_count_id_bounds(p, id);
        if forall|j: int| 0 <= j < rs.len() ==> #[trigger] rs[j].cluster_id < id {
            assert forall|j: int| 0 <= j < p.len() implies #[trigger] p[j].cluster_id < id by {
                assert(p[j] == rs[j]);
            }
            assert(rs[rs.len() - 1].cluster_id < id);
        }
    }
}

proof fn lemma_run_counts(m: MinerView, obs: Seq<Observation>)
    requires
        consistent(m),
        m.clusters == Map::<u64, ClusterInnerView>::empty(),
        m.counter + obs.len() <= u64::MAX,
    ensures
        ({
            let (m1, rs) = spec_run(m, obs);
            &&& consistent(m1)
            &&& m1.counter <= m.counter + obs.len()
            &&& rs.len() == obs.len()
            &&& forall|j: int| 0 <= j < rs.len() ==> #[trigger] rs[j].cluster_id <= m1.counter
            &&& forall|id: u64| #[trigger] m1.clusters.contains_key(id) ==> m1.clusters[id].size
                == count_id(rs, id)
        }),
    decreases obs.len(),
{
    if obs.len() > 0 {
        let pre = obs.drop_last();
        lemma_run_counts(m, pre);
        let (m0, rs0) = spec_run(m, pre);
        let o = obs.last();
        let (m1, r) = spec_observe(m0, o.0, o.1, o.2, o.3);
        let rs = rs0.push(r);
        assert(spec_run(m, obs) == (m1, rs));
        law_observe(m0, o.0, o.1, o.2, o.3);
        law_add_counts_one_line(m0, o.0, o.1, o.2, o.3);
        let toks = spec_line_tokens(m0.options, o.0);
        if r.update == UpdateType::Created {
            assert(spec_match(m0, toks) is None);
            assert(m1.counter == m0.counter + 1);
            assert forall|j: int| 0 <= j < rs0.len() implies #[trigger] rs0[j].cluster_id < r.cluster_id by {}
            lemma_count_id_bounds(rs0, r.cluster_id);
        } else {
            assert(spec_match(m0, toks) is Some);
            assert(m1.counter == m0.counter);
            assert(m0.clusters.contains_key(r.cluster_id));
            assert(body_consistent(m0, r.cluster_id));
            lemma_count_id_bounds(rs0, r.cluster_id);
        }
        assert forall|j: int| 0 <= j < rs.len() implies #[trigger] rs[j].cluster_id <= m1.counter by {
            if j < rs0.len() {
                assert(rs[j] == rs0[j]);
            }
        }
        assert forall|id: u64| #[trigger] m1.clusters.contains_key(id) implies m1.clusters[id].size
            == count_id(rs, id) by {
            assert(rs.drop_last() == rs0);
            if id != r.cluster_id {
                assert(m0.clusters.contains_key(id));
            }
        }
    }
}

/// Over a run of adds into a fresh consistent miner, every cluster that is still held
/// has as its size the number of adds that were assigned to it.
pub proof fn law_run_counts(m: MinerView, obs: Seq<Observation>)
    requires
        consistent(m),
        m.clusters == Map::<u64, ClusterInnerView>::empty(),
        m.counter + obs.len() <= u64::MAX,
    ensures
        ({
            let (m1, rs) = spec_run(m, obs);
            &&& rs.len() == obs.len()
            &&& forall|id: u64| #[trigger] m1.clusters.contains_key(id) ==> m1.clusters[id].size
                == count_id(rs, id)
        }),
{
    lemma_run_counts(m, obs);
}

/// Whether `id` names a cluster held by `m` whose tokens lead to the same leaf as `toks`.
pub open spec fn candidate(m: MinerView, toks: Seq<TokenView>, id: u64) -> bool {
    m.clusters.contains_key(id) && leaf_key(m.options, m.clusters[id].tokens) == leaf_key(
        m.options,
        toks,
    )
}

/// An add into a consistent miner creates a new cluster exactly when no held cluster
/// with the line's leaf key reaches the similarity threshold; otherwise the line joins
/// such a cluster of greatest similarity.
pub proof fn law_match_or_create(
    m: MinerView,
    line: Seq<char>,
    member: Option<Seq<char>>,
    event: Option<u64>,
    now: u64,
)
    requires
        consistent(m),
    ensures
        ({
            let toks = spec_line_tokens(m.options, line);
            let w = m.options.wildcard;
            let (m1, r) = spec_observe(m, line, member, event, now);
            &&& (r.update == UpdateType::Created <==> forall|c: u64|
                #[trigger] candidate(m, toks, c) ==> !meets_threshold(
                    sim_of(m.clusters, c, toks, w),
                    m.options.sim_threshold,
                ))
            &&& r.update != UpdateType::Created ==> {
                &&& candidate(m, toks, r.cluster_id)
                &&& meets_threshold(sim_of(m.clusters, r.cluster_id, toks, w), m.options.sim_threshold)
                &&& forall|c: u64| #[trigger]
                    candidate(m, toks, c) ==> !frac_gt(
                        sim_of(m.clusters, c, toks, w),
                        sim_of(m.clusters, r.cluster_id, toks, w),
                    )
            }
        }),
{
    let toks = spec_line_tokens(m.options, line);
    let w = m.options.wildcard;
    let t = m.options.sim_threshold;
    let k = leaf_key(m.options, toks);
    let (m1, r) = spec_observe(m, line, member, event, now);
    assert forall|c: u64| #[trigger] candidate(m, toks, c) implies m.leaves.contains_key(k)
        && m.leaves[k].ids.contains(c) by {
        assert(body_consistent(m, c));
    }
    if m.leaves.contains_key(k) {
        let ids = m.leaves[k].ids;
        assert(leaf_consistent(m, k));
        lemma_best_in_char(ids, m.clusters, toks, w);
        match best_in(ids, m.clusters, toks, w) {
            Some((u, s)) => {
                let p = choose|p: int|
                    0 <= p < ids.len() && ids[p] == u && m.clusters.contains_key(u) && s == sim_of(
                        m.clusters,
                        u,
                        toks,
                        w,
                    ) && (forall|i: int|
                        0 <= i < p && m.clusters.contains_key(#[trigger] ids[i]) ==> frac_gt(
                            s,
                            sim_of(m.clusters, ids[i], toks, w),
                        )) && (forall|i: int|
                        0 <= i < ids.len() && m.clusters.contains_key(#[trigger] ids[i]) ==> !frac_gt(
                            sim_of(m.clusters, ids[i], toks, w),
                            s,
                        ));
                assert(candidate(m, toks, u));
                assert forall|c: u64| #[trigger] candidate(m, toks, c) implies !frac_gt(
                    sim_of(m.clusters, c, toks, w),
                    s,
                ) by {
                    let i = choose|i: int| 0 <= i < ids.len() && ids[i] == c;
                    assert(m.clusters.contains_key(ids[i]));
                }
                if meets_threshold(s, t) {
                    assert(spec_match(m, toks) == Some(u));
                } else {
                    assert(spec_match(m, toks) is None);
                    assert forall|c: u64| #[trigger] candidate(m, toks, c) implies !meets_threshold(
                        sim_of(m.clusters, c, toks, w),
                        t,
                    ) by {
                        lemma_sim_bounds(m.clusters[c].tokens, toks, w);
                        lemma_sim_bounds(m.clusters[u].tokens, toks, w);
                        if meets_threshold(sim_of(m.clusters, c, toks, w), t) {
                            lemma_meets_gt(sim_of(m.clusters, c, toks, w), s, t);
                        }
                    }
                }
            },
            None => {
                assert(spec_match(m, toks) is None);
                assert forall|c: u64| #[trigger] candidate(m, toks, c) implies false by {
                    let i = choose|i: int| 0 <= i < ids.len() && ids[i] == c;
                    assert(m.clusters.contains_key(ids[i]));
                }
            },
        }
    } else {
        assert(spec_match(m, toks) is None);
    }
}

/// In a consistent miner, the cluster a line matches has as many tokens as the line, so
/// the parameters `extract` reports alongside the id `match_only` reports are the line's
/// texts at every wildcard position of the template, in order.
pub proof fn law_extract_agrees_with_match(m: MinerView, line: Seq<char>)
    requires
        consistent(m),
    ensures
        ({
            let toks = spec_line_tokens(m.options, line);
            spec_match(m, toks) matches Some(id) ==> {
                &&& m.clusters.contains_key(id)
                &&& m.clusters[id].tokens.len() == toks.len()
                &&& spec_params(m.clusters[id].tokens, toks, m.options.wildcard) == params_prefix(
                    m.clusters[id].tokens,
                    toks,
                    m.options.wildcard,
                    toks.len() as int,
                )
            }
        }),
{
    let toks = spec_line_tokens(m.options, line);
    let k = leaf_key(m.options, toks);
    if let Some(id) = spec_match(m, toks) {
        let ids = m.leaves[k].ids;
        lemma_best_in_char(ids, m.clusters, toks, m.options.wildcard);
        assert(leaf_consistent(m, k));
        let p = choose|p: int| 0 <= p < ids.len() && ids[p] == id;
        assert(m.clusters.contains_key(ids[p]));
        assert(leaf_key(m.options, m.clusters[id].tokens) == k);
    }
}

/// How many of the first `i` template tokens are the wildcard.
pub open spec fn wildcards_before(ts: Seq<TokenView>, w: Seq<char>, i: int) -> nat
    decreases i,
{
    if i <= 0 {
        0
    } else {
        wildcards_before(ts, w, i - 1) + if ts[i - 1].text == w {
            1nat
        } else {
            0nat
        }
    }
}

proof fn lemma_params_prefix_positions(ts: Seq<TokenView>, xs: Seq<TokenView>, w: Seq<char>, k: int)
    requires
        0 <= k <= ts.len(),
        k <= xs.len(),
    ensures
        params_prefix(ts, xs, w, k).len() == wildcards_before(ts, w, k),
        forall|i: int|
            0 <= i < k && (#[trigger] ts[i]).text == w ==> params_prefix(ts, xs, w, k)[wildcards_before(
                ts,
                w,
                i,
            ) as int] == xs[i].text,
    decreases k,
{
    if k > 0 {
        lemma_params_prefix_positions(ts, xs, w, k - 1);
        let prev = params_prefix(ts, xs, w, k - 1);
        assert forall|i: int| 0 <= i < k && (#[trigger] ts[i]).text == w implies params_prefix(
            ts,
            xs,
            w,
            k,
        )[wildcards_before(ts, w, i) as int] == xs[i].text by {
            if i < k - 1 {
                lemma_wildcards_before_mono(ts, w, i + 1, k - 1);
                assert(wildcards_before(ts, w, i + 1) == wildcards_before(ts, w, i) + 1);
            }
        }
    }
}

proof fn lemma_wildcards_before_mono(ts: Seq<TokenView>, w: Seq<char>, i: int, j: int)
    requires
        i <= j,
    ensures
        wildcards_before(ts, w, i) <= wildcards_before(ts, w, j),
    decreases j - i,
{
    if i < j {
        lemma_wildcards_before_mono(ts, w, i, j - 1);
    }
}

/// The parameters of a line against a template of the same length are the line's token
/// texts at the template's wildcard positions, in left-to-right order: one per wildcard,
/// and the one for the wildcard at position `i` is the line's token at `i`.
pub proof fn law_params_are_wildcard_texts_in_order(
    ts: Seq<TokenView>,
    xs: Seq<TokenView>,
    w: Seq<char>,
)
    requires
        ts.len() == xs.len(),
    ensures
        spec_params(ts, xs, w).len() == wildcards_before(ts, w, ts.len() as int),
        forall|i: int|
            0 <= i < ts.len() && (#[trigger] ts[i]).text == w ==> spec_params(ts, xs, w)[wildcards_before(
                ts,
                w,
                i,
            ) as int] == xs[i].text,
{
    lemma_params_prefix_positions(ts, xs, w, ts.len() as int);
}

/// What `extract` reports for a line that a consistent miner matches: one parameter per
/// wildcard of the matched template, the one for the wildcard at position `i` being the
/// line's token text at `i`, in left-to-right order.
pub proof fn law_extract_params_in_order(m: MinerView, line: Seq<char>)
    requires
        consistent(m),
    ensures
        ({
            let toks = spec_line_tokens(m.options, line);
            let w = m.options.wildcard;
            spec_match(m, toks) matches Some(id) ==> {
                let ts = m.clusters[id].tokens;
                let ps = spec_params(ts, toks, w);
                &&& ps.len() == wildcards_before(ts, w, ts.len() as int)
                &&& forall|i: int|
                    0 <= i < ts.len() && (#[trigger] ts[i]).text == w ==> ps[wildcards_before(
                        ts,
                        w,
                        i,
                    ) as int] == toks[i].text
            }
        }),
{
    law_extract_agrees_with_match(m, line);
    let toks = spec_line_tokens(m.options, line);
    if let Some(id) = spec_match(m, toks) {
        law_params_are_wildcard_texts_in_order(m.clusters[id].tokens, toks, m.options.wildcard);
    }
}

/// The least-recently-used pick among the first `k` ids of a leaf is the first id of
/// smallest recency: every id before it was used strictly later, and none after it
/// earlier.
pub proof fn law_lru_index_first_least_recent(ids: Seq<u64>, cl: Map<u64, ClusterInnerView>, k: int)
    requires
        1 <= k <= ids.len(),
    ensures
        0 <= lru_index(ids, cl, k) < k,
        forall|i: int|
            0 <= i < lru_index(ids, cl, k) ==> recency_of(cl, #[trigger] ids[i]) > recency_of(
                cl,
                ids[lru_index(ids, cl, k)],
            ),
        forall|i: int|
            0 <= i < k ==> recency_of(cl, #[trigger] ids[i]) >= recency_of(
                cl,
                ids[lru_index(ids, cl, k)],
            ),
    decreases k,
{
    if k > 1 {
        law_lru_index_first_least_recent(ids, cl, k - 1);
    }
}

/// Eviction from a full leaf removes, from the leaf and the table, the first id of the
/// leaf whose cluster was used least recently (every id before it was used strictly
/// later, none after it earlier); a leaf that is not full loses nothing.
pub proof fn law_evict_first_least_recent(leaf: LeafView, cl: Map<u64, ClusterInnerView>)
    ensures
        leaf.ids.len() >= leaf.cap && leaf.ids.len() > 0 ==> exists|p: int|
            0 <= p < leaf.ids.len() && spec_evict(leaf, cl) == (
            LeafView { cap: leaf.cap, ids: spec_leaf_remove(leaf.ids, #[trigger] leaf.ids[p]) },
            cl.remove(leaf.ids[p]),
        ) && (forall|i: int|
                0 <= i < p ==> recency_of(cl, #[trigger] leaf.ids[i]) > recency_of(cl, leaf.ids[p]))
                && (forall|i: int|
                0 <= i < leaf.ids.len() ==> recency_of(cl, #[trigger] leaf.ids[i]) >= recency_of(
                    cl,
                    leaf.ids[p],
                )),
        !(leaf.ids.len() >= leaf.cap && leaf.ids.len() > 0) ==> spec_evict(leaf, cl) == (leaf, cl),
{
    if leaf.ids.len() >= leaf.cap && leaf.ids.len() > 0 {
        let n = leaf.ids.len() as int;
        law_lru_index_first_least_recent(leaf.ids, cl, n);
        let p = lru_index(leaf.ids, cl, n);
        assert(spec_evict(leaf, cl) == (
            LeafView { cap: leaf.cap, ids: spec_leaf_remove(leaf.ids, leaf.ids[p]) },
            cl.remove(leaf.ids[p]),
        ));
    }
}

} // verus!
