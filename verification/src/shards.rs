//! The prefix trees of a miner, one per token count, in a `DashMap`.
use vstd::prelude::*;

use dashmap::DashMap;
use rustc_hash::FxBuildHasher;

use crate::cluster::strings_view;
use crate::tree::{lookup, LeafBucket, TreeNode};

verus! {

/// The prefix tree a `DashMap` of shards holds for each token count.
pub uninterp spec fn dashmap_roots(m: DashMap<usize, TreeNode, FxBuildHasher>) -> Map<
    usize,
    TreeNode,
>;

/// A copy of the leaf at `keys` under `root`, if there is one.
pub fn leaf_copy(root: &TreeNode, keys: &[String]) -> (r: Option<LeafBucket>)
    ensures
        match lookup(*root, strings_view(keys@)) {
            Some(l) => r matches Some(b) && b@ == l,
            None => r is None,
        },
{
    match root.descend(keys) {
        Some(b) => Some(b.duplicate()),
        None => None,
    }
}

/// `DashMap::with_hasher`: no shards.
#[verifier::external_body]
fn roots_new() -> (m: DashMap<usize, TreeNode, FxBuildHasher>)
    ensures
        dashmap_roots(m).is_empty(),
{
    DashMap::with_hasher(FxBuildHasher)
}

/// `DashMap::clear`: removes every shard.
#[verifier::external_body]
fn roots_clear(m: &mut DashMap<usize, TreeNode, FxBuildHasher>)
    ensures
        dashmap_roots(*final(m)).is_empty(),
{
    m.clear()
}

/// `DashMap::view`: a copy of the leaf at `keys` in the shard for `count`, made by
/// [`leaf_copy`] while the entry is read; `None` when there is no such shard.
#[verifier::external_body]
fn roots_leaf(m: &DashMap<usize, TreeNode, FxBuildHasher>, count: usize, keys: &[String]) -> (r:
    Option<Option<LeafBucket>>)
    ensures
        match r {
            None => !dashmap_roots(*m).contains_key(count),
            Some(x) => dashmap_roots(*m).contains_key(count) && match lookup(
                dashmap_roots(*m)[count],
                strings_view(keys@),
            ) {
                Some(l) => x matches Some(b) && b@ == l,
                None => x is None,
            },
        },
{
    m.view(&count, |_, root| leaf_copy(root, keys))
}

/// `DashMap::remove`: takes the shard for `count` out of the map.
#[verifier::external_body]
fn roots_remove(m: &mut DashMap<usize, TreeNode, FxBuildHasher>, count: usize) -> (r: Option<
    TreeNode,
>)
    ensures
        dashmap_roots(*final(m)) == dashmap_roots(*old(m)).remove(count),
        match r {
            Some(t) => dashmap_roots(*old(m)).contains_key(count) && t == dashmap_roots(
                *old(m),
            )[count],
            None => !dashmap_roots(*old(m)).contains_key(count),
        },
{
    m.remove(&count).map(|(_, t)| t)
}

/// `DashMap::insert`: stores `root` as the shard for `count`, replacing any there.
#[verifier::external_body]
fn roots_insert(m: &mut DashMap<usize, TreeNode, FxBuildHasher>, count: usize, root: TreeNode)
    ensures
        dashmap_roots(*final(m)) == dashmap_roots(*old(m)).insert(count, root),
{
    m.insert(count, root);
}

/// The prefix trees of a miner, keyed by token count.
#[derive(Debug)]
pub struct ShardTable {
    map: DashMap<usize, TreeNode, FxBuildHasher>,
}

impl View for ShardTable {
    type V = Map<usize, TreeNode>;

    closed spec fn view(&self) -> Map<usize, TreeNode> {
        dashmap_roots(self.map)
    }
}

impl ShardTable {
    /// No shards.
    pub fn new() -> (t: ShardTable)
        ensures
            t@ == Map::<usize, TreeNode>::empty(),
    {
        let t = ShardTable { map: roots_new() };
        assert(t@ =~= Map::<usize, TreeNode>::empty());
        t
    }

    /// Remove every shard.
    pub fn clear(&mut self)
        ensures
            final(self)@ == Map::<usize, TreeNode>::empty(),
    {
        roots_clear(&mut self.map);
        assert(self@ =~= Map::<usize, TreeNode>::empty());
    }

    /// Whether there is a shard for `count`, and a copy of its leaf at `keys`.
    pub fn leaf(&self, count: usize, keys: &[String]) -> (r: Option<LeafBucket>)
        ensures
            match r {
                Some(b) => self@.contains_key(count) && lookup(self@[count], strings_view(keys@))
                    == Some(b@),
                None => !(self@.contains_key(count) && lookup(self@[count], strings_view(keys@))
                    is Some),
            },
    {
        match roots_leaf(&self.map, count, keys) {
            Some(x) => x,
            None => None,
        }
    }

    /// Take the shard for `count` out.
    pub fn take(&mut self, count: usize) -> (r: Option<TreeNode>)
        ensures
            final(self)@ == old(self)@.remove(count),
            match r {
                Some(t) => old(self)@.contains_key(count) && t == old(self)@[count],
                None => !old(self)@.contains_key(count),
            },
    {
        roots_remove(&mut self.map, count)
    }

    /// Store `root` as the shard for `count`.
    pub fn put(&mut self, count: usize, root: TreeNode)
        ensures
            final(self)@ == old(self)@.insert(count, root),
    {
        roots_insert(&mut self.map, count, root);
    }
}

} // verus!
