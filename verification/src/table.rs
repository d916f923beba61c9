//! The cluster bodies of a miner, keyed by id, in a `DashMap`.
use vstd::prelude::*;

use dashmap::DashMap;
use rustc_hash::FxBuildHasher;

use crate::cluster::{ClusterInner, ClusterInnerView};
use crate::ClusterId;

verus! {

#[verifier::external_type_specification]
#[verifier::external_body]
#[verifier::reject_recursive_types(K)]
#[verifier::reject_recursive_types(V)]
#[verifier::reject_recursive_types(S)]
pub struct ExDashMap<K, V, S>(DashMap<K, V, S>);

#[verifier::external_type_specification]
#[verifier::external_body]
pub struct ExFxBuildHasher(FxBuildHasher);

/// The bodies a `DashMap` of clusters holds, by id.
pub uninterp spec fn dashmap_bodies(m: DashMap<u64, ClusterInner, FxBuildHasher>) -> Map<
    u64,
    ClusterInnerView,
>;

/// `DashMap::with_hasher`: an empty map.
#[verifier::external_body]
fn bodies_new() -> (m: DashMap<u64, ClusterInner, FxBuildHasher>)
    ensures
        dashmap_bodies(m).is_empty(),
{
    DashMap::with_hasher(FxBuildHasher)
}

/// `DashMap::len`: the number of entries.
#[verifier::external_body]
fn bodies_len(m: &DashMap<u64, ClusterInner, FxBuildHasher>) -> (n: usize)
    ensures
        n == dashmap_bodies(*m).len(),
{
    m.len()
}

/// `DashMap::view`: a copy of the body stored under `id`, made by
/// [`ClusterInner::duplicate`] while the entry is read.
#[verifier::external_body]
fn bodies_get(m: &DashMap<u64, ClusterInner, FxBuildHasher>, id: u64) -> (r: Option<ClusterInner>)
    ensures
        match r {
            Some(c) => dashmap_bodies(*m).contains_key(id) && c@ == dashmap_bodies(*m)[id],
            None => !dashmap_bodies(*m).contains_key(id),
        },
{
    m.view(&id, |_, c| c.duplicate())
}

/// `DashMap::remove`: takes the entry under `id` out of the map.
#[verifier::external_body]
fn bodies_remove(m: &mut DashMap<u64, ClusterInner, FxBuildHasher>, id: u64) -> (r: Option<
    ClusterInner,
>)
    ensures
        dashmap_bodies(*final(m)) == dashmap_bodies(*old(m)).remove(id),
        match r {
            Some(c) => dashmap_bodies(*old(m)).contains_key(id) && c@ == dashmap_bodies(*old(m))[id],
            None => !dashmap_bodies(*old(m)).contains_key(id),
        },
{
    m.remove(&id).map(|(_, c)| c)
}

/// `DashMap::insert`: stores `c` under `id`, replacing any entry there.
#[verifier::external_body]
fn bodies_insert(m: &mut DashMap<u64, ClusterInner, FxBuildHasher>, id: u64, c: ClusterInner)
    ensures
        dashmap_bodies(*final(m)) == dashmap_bodies(*old(m)).insert(id, c@),
{
    m.insert(id, c);
}

/// `DashMap::clear`: removes every entry.
#[verifier::external_body]
fn bodies_clear(m: &mut DashMap<u64, ClusterInner, FxBuildHasher>)
    ensures
        dashmap_bodies(*final(m)).is_empty(),
{
    m.clear()
}

/// `DashMap::iter`: the key of each entry, each once, in the map's own order.
#[verifier::external_body]
fn bodies_keys(m: &DashMap<u64, ClusterInner, FxBuildHasher>) -> (r: Vec<u64>)
    ensures
        r@.no_duplicates(),
        r@.to_set() == dashmap_bodies(*m).dom(),
{
    m.iter().map(|e| *e.key()).collect()
}

/// The cluster bodies of a miner, keyed by id.
#[derive(Debug)]
pub struct ClusterTable {
    map: DashMap<ClusterId, ClusterInner, FxBuildHasher>,
}

impl View for ClusterTable {
    type V = Map<u64, ClusterInnerView>;

    closed spec fn view(&self) -> Map<u64, ClusterInnerView> {
        dashmap_bodies(self.map)
    }
}

impl ClusterTable {
    /// An empty table.
    pub fn new() -> (t: ClusterTable)
        ensures
            t@ == Map::<u64, ClusterInnerView>::empty(),
    {
        let t = ClusterTable { map: bodies_new() };
        assert(t@ =~= Map::<u64, ClusterInnerView>::empty());
        t
    }

    /// Number of clusters.
    pub fn len(&self) -> (n: usize)
        ensures
            n == self@.len(),
    {
        bodies_len(&self.map)
    }

    /// A copy of the body of cluster `id`.
    pub fn get(&self, id: ClusterId) -> (r: Option<ClusterInner>)
        ensures
            match r {
                Some(c) => self@.contains_key(id) && c@ == self@[id],
                None => !self@.contains_key(id),
            },
    {
        bodies_get(&self.map, id)
    }

    /// Remove and return the body of cluster `id`.
    pub fn take(&mut self, id: ClusterId) -> (r: Option<ClusterInner>)
        ensures
            final(self)@ == old(self)@.remove(id),
            match r {
                Some(c) => old(self)@.contains_key(id) && c@ == old(self)@[id],
                None => !old(self)@.contains_key(id),
            },
    {
        bodies_remove(&mut self.map, id)
    }

    /// Store `c` under its id, replacing any body stored there.
    pub fn put(&mut self, c: ClusterInner)
        ensures
            final(self)@ == old(self)@.insert(c.id, c@),
    {
        let id = c.id;
        bodies_insert(&mut self.map, id, c);
    }

    /// Remove every cluster.
    pub fn clear(&mut self)
        ensures
            final(self)@ == Map::<u64, ClusterInnerView>::empty(),
    {
        bodies_clear(&mut self.map);
        assert(self@ =~= Map::<u64, ClusterInnerView>::empty());
    }

    /// The ids of all clusters, each once, in no particular order.
    pub fn ids(&self) -> (r: Vec<ClusterId>)
        ensures
            r@.no_duplicates(),
            r@.to_set() == self@.dom(),
            r@.len() == self@.len(),
    {
        let r = bodies_keys(&self.map);
        proof {
            r@.unique_seq_to_set();
        }
        r
    }
}

} // verus!
