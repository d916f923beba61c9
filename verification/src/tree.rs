//! Prefix tree within a shard + per-leaf cluster bucket.
use vstd::prelude::*;

use crate::cluster::strings_view;
use crate::text::str_eq;
use crate::ClusterId;

verus! {

/// What a leaf bucket is, as plain values.
pub struct LeafView {
    pub cap: usize,
    pub ids: Seq<u64>,
}

/// Leaf bucket: the cluster ids at a leaf, with a capacity. The leaf only tracks
/// membership; the miner performs capacity-bounded LRU eviction.
#[derive(Debug)]
pub struct LeafBucket {
    cap: usize,
    ids: Vec<ClusterId>,
}

impl View for LeafBucket {
    type V = LeafView;

    closed spec fn view(&self) -> LeafView {
        LeafView { cap: self.cap, ids: self.ids@ }
    }
}

/// The index of the first occurrence of `id` in `ids` (meaningful when it occurs).
pub open spec fn first_index_of(ids: Seq<u64>, id: u64) -> int {
    choose|p: int| 0 <= p < ids.len() && ids[p] == id && forall|j: int| 0 <= j < p ==> ids[j] != id
}

/// The ids after removing `id`: its first occurrence is swap-removed (the last id takes
/// its place); without an occurrence nothing changes.
pub open spec fn spec_leaf_remove(ids: Seq<u64>, id: u64) -> Seq<u64> {
    if ids.contains(id) {
        let p = first_index_of(ids, id);
        ids.update(p, ids.last()).drop_last()
    } else {
        ids
    }
}

impl LeafBucket {
    /// New leaf bounded at `cap` clusters.
    pub fn new(cap: usize) -> (b: LeafBucket)
        ensures
            b@ == (LeafView { cap, ids: Seq::empty() }),
    {
        LeafBucket { cap, ids: Vec::new() }
    }

    /// A copy of this bucket.
    pub fn duplicate(&self) -> (b: LeafBucket)
        ensures
            b@ == self@,
    {
        LeafBucket { cap: self.cap, ids: vstd::slice::slice_to_vec(self.ids.as_slice()) }
    }

    /// The cluster ids currently in the bucket.
    pub fn ids(&self) -> (r: &[ClusterId])
        ensures
            r@ == self@.ids,
    {
        self.ids.as_slice()
    }

    /// Whether the bucket is at capacity (a further insert should evict first).
    pub fn is_full(&self) -> (b: bool)
        ensures
            b == (self@.ids.len() >= self@.cap),
    {
        self.ids.len() >= self.cap
    }

    /// Add a cluster id (caller ensures capacity via [`Self::is_full`] + eviction).
    pub fn insert(&mut self, id: ClusterId)
        ensures
            final(self)@ == (LeafView { cap: old(self)@.cap, ids: old(self)@.ids.push(id) }),
    {
        self.ids.push(id);
    }

    /// Remove a cluster id if present.
    pub fn remove(&mut self, id: ClusterId)
        ensures
            final(self)@ == (LeafView { cap: old(self)@.cap, ids: spec_leaf_remove(old(self)@.ids, id) }),
    {
        let mut i: usize = 0;
        while i < self.ids.len()
            invariant
                i <= self.ids.len(),
                self@ == old(self)@,
                forall|j: int| 0 <= j < i ==> self.ids@[j] != id,
            decreases self.ids.len() - i,
        {
            if self.ids[i] == id {
                proof {
                    let ids = self.ids@;
                    assert(ids[i as int] == id);
                    assert(ids.contains(id));
                    assert(0 <= i < ids.len() && ids[i as int] == id && forall|j: int|
                        0 <= j < i ==> ids[j] != id);
                    let p = first_index_of(ids, id);
                    if p < i {
                        assert(ids[p] != id);
                    } else if p > i {
                        assert(ids[i as int] != id);
                    }
                    assert(p == i);
                }
                self.ids.swap_remove(i);
                return;
            }
            i = i + 1;
        }
        assert(!self.ids@.contains(id));
    }
}

/// A child of an internal node: the token key on the edge and the subtree below it.
#[derive(Debug)]
pub struct TreeChild {
    pub key: String,
    pub node: TreeNode,
}

/// A node in a shard's prefix tree.
#[derive(Debug)]
pub enum TreeNode {
    /// Internal node keyed by token text (or wildcard for numeric positions).
    Internal { children: Vec<TreeChild> },
    /// Terminal node holding the cluster bucket.
    Leaf(LeafBucket),
}

/// The index of the first child whose key is `k`, searching from `i`.
pub open spec fn find_key(cs: Seq<TreeChild>, k: Seq<char>, i: int) -> Option<int>
    decreases cs.len() - i,
{
    if i < 0 || i >= cs.len() {
        None
    } else if cs[i].key@ == k {
        Some(i)
    } else {
        find_key(cs, k, i + 1)
    }
}

/// The leaf reached by following `path` from `n`, if the whole path exists and ends at
/// a leaf.
pub open spec fn lookup(n: TreeNode, path: Seq<Seq<char>>) -> Option<LeafView>
    decreases n,
{
    match n {
        TreeNode::Leaf(b) => if path.len() == 0 {
            Some(b@)
        } else {
            None
        },
        TreeNode::Internal { children } => if path.len() == 0 {
            None
        } else {
            match find_key(children@, path[0], 0) {
                Some(i) => if 0 <= i < children@.len() {
                    lookup(children@[i].node, path.drop_first())
                } else {
                    None
                },
                None => None,
            }
        },
    }
}

/// Well-formed at depth `d`: leaves sit exactly `d` levels below, and an internal node
/// at depth 0 has no children.
pub open spec fn wf(n: TreeNode, d: nat) -> bool
    decreases n,
{
    match n {
        TreeNode::Leaf(_) => d == 0,
        TreeNode::Internal { children } => (d == 0 ==> children@.len() == 0) && forall|i: int|
            0 <= i < children@.len() ==> wf(#[trigger] children@[i].node, (d - 1) as nat),
    }
}

/// What happens to a leaf at the end of a path.
pub enum LeafOp {
    /// Only make sure the leaf exists.
    Create,
    /// Append an id.
    Insert(u64),
    /// Remove an id (see [`spec_leaf_remove`]).
    Remove(u64),
}

/// The leaf after `op`, starting from `b` (or a fresh empty leaf of capacity `cap`).
pub open spec fn apply_op(b: Option<LeafView>, cap: usize, op: LeafOp) -> LeafView {
    let base = match b {
        Some(l) => l,
        None => LeafView { cap, ids: Seq::empty() },
    };
    match op {
        LeafOp::Create => base,
        LeafOp::Insert(id) => LeafView { cap: base.cap, ids: base.ids.push(id) },
        LeafOp::Remove(id) => LeafView { cap: base.cap, ids: spec_leaf_remove(base.ids, id) },
    }
}

proof fn lemma_find_key_push(cs: Seq<TreeChild>, c: TreeChild, k: Seq<char>, i: int)
    requires
        0 <= i <= cs.len(),
    ensures
        find_key(cs.push(c), k, i) == match find_key(cs, k, i) {
            Some(j) => Some(j),
            None => if c.key@ == k {
                Some(cs.len() as int)
            } else {
                None
            },
        },
    decreases cs.len() - i,
{
    let cs2 = cs.push(c);
    if i < cs.len() {
        assert(cs2[i] == cs[i]);
        lemma_find_key_push(cs, c, k, i + 1);
    } else {
        assert(find_key(cs2, k, i + 1) is None);
    }
}

proof fn lemma_find_key_update(cs: Seq<TreeChild>, j: int, c: TreeChild, k: Seq<char>, i: int)
    requires
        0 <= i <= cs.len(),
        0 <= j < cs.len(),
        c.key@ == cs[j].key@,
    ensures
        find_key(cs.update(j, c), k, i) == find_key(cs, k, i),
    decreases cs.len() - i,
{
    if i < cs.len() {
        let cs2 = cs.update(j, c);
        assert(cs2[i].key@ == cs[i].key@);
        lemma_find_key_update(cs, j, c, k, i + 1);
    }
}

proof fn lemma_find_key_range(cs: Seq<TreeChild>, k: Seq<char>, i: int)
    requires
        0 <= i,
    ensures
        match find_key(cs, k, i) {
            Some(j) => i <= j < cs.len() && cs[j].key@ == k && forall|m: int|
                i <= m < j ==> cs[m].key@ != k,
            None => forall|m: int| i <= m < cs.len() ==> cs[m].key@ != k,
        },
    decreases cs.len() - i,
{
    if 0 <= i < cs.len() {
        lemma_find_key_range(cs, k, i + 1);
    }
}

proof fn lemma_seq_first_rest_eq<A>(a: Seq<A>, b: Seq<A>)
    requires
        a.len() > 0,
        b.len() > 0,
        a[0] == b[0],
        a.drop_first() == b.drop_first(),
    ensures
        a == b,
{
    assert(a.len() == a.drop_first().len() + 1);
    assert(b.len() == b.drop_first().len() + 1);
    assert forall|i: int| 0 <= i < a.len() implies a[i] == b[i] by {
        if i > 0 {
            assert(a[i] == a.drop_first()[i - 1]);
            assert(b[i] == b.drop_first()[i - 1]);
        }
    }
    assert(a =~= b);
}

impl TreeNode {
    /// Create an empty internal node.
    pub fn new_internal() -> (n: TreeNode)
        ensures
            n is Internal && n->children@.len() == 0,
            forall|p: Seq<Seq<char>>| lookup(n, p) is None,
            forall|d: nat| wf(n, d),
    {
        let n = TreeNode::Internal { children: Vec::new() };
        assert forall|p: Seq<Seq<char>>| lookup(n, p) is None by {
            if p.len() > 0 {
                assert(find_key(n->children@, p[0], 0) is None);
            }
        }
        n
    }

    /// Read-only descent: returns the leaf if the full path exists, else `None`.
    pub fn descend(&self, keys: &[String]) -> (r: Option<&LeafBucket>)
        ensures
            match r {
                Some(b) => lookup(*self, strings_view(keys@)) == Some(b@),
                None => lookup(*self, strings_view(keys@)) is None,
            },
    {
        assert(strings_view(keys@).skip(0) =~= strings_view(keys@));
        self.descend_from(keys, 0)
    }

    fn descend_from(&self, keys: &[String], pos: usize) -> (r: Option<&LeafBucket>)
        requires
            pos <= keys.len(),
        ensures
            match r {
                Some(b) => lookup(*self, strings_view(keys@).skip(pos as int)) == Some(b@),
                None => lookup(*self, strings_view(keys@).skip(pos as int)) is None,
            },
        decreases keys.len() - pos,
    {
        let ghost path = strings_view(keys@).skip(pos as int);
        assert(path.len() == keys.len() - pos);
        match self {
            TreeNode::Leaf(b) => {
                if pos == keys.len() {
                    Some(b)
                } else {
                    None
                }
            },
            TreeNode::Internal { children } => {
                if pos == keys.len() {
                    return None;
                }
                let k = keys[pos].as_str();
                let mut i: usize = 0;
                while i < children.len()
                    invariant
                        i <= children.len(),
                        self is Internal,
                        self->children@ == children@,
                        pos < keys.len(),
                        k@ == path[0],
                        path == strings_view(keys@).skip(pos as int),
                        find_key(children@, path[0], 0) == find_key(children@, path[0], i as int),
                    decreases children.len() - i,
                {
                    if str_eq(children[i].key.as_str(), k) {
                        assert(find_key(children@, path[0], i as int) == Some(i as int));
                        assert(path.drop_first() =~= strings_view(keys@).skip(pos + 1));
                        let r = children[i].node.descend_from(keys, pos + 1);
                        assert(find_key(children@, path[0], 0) == Some(i as int));
                        assert(lookup(*self, path) == lookup(children@[i as int].node, path.drop_first()));
                        return r;
                    }
                    i = i + 1;
                }
                None
            },
        }
    }

    /// Descend `keys` from this node, creating internal nodes and the terminal
    /// leaf (bounded by `leaf_cap`) as needed.
    pub fn descend_or_create(&mut self, keys: &[String], leaf_cap: usize)
        requires
            wf(*old(self), keys.len() as nat),
        ensures
            wf(*final(self), keys.len() as nat),
            lookup(*final(self), strings_view(keys@)) == Some(
                apply_op(lookup(*old(self), strings_view(keys@)), leaf_cap, LeafOp::Create),
            ),
            forall|p: Seq<Seq<char>>|
                p != strings_view(keys@) ==> lookup(*final(self), p) == lookup(*old(self), p),
    {
        self.apply_at(keys, 0, leaf_cap, LeafOp::Create);
        assert(strings_view(keys@).skip(0) =~= strings_view(keys@));
    }

    /// Append `id` to the leaf at `keys`, creating the path first if needed.
    pub fn insert_at(&mut self, keys: &[String], leaf_cap: usize, id: u64)
        requires
            wf(*old(self), keys.len() as nat),
        ensures
            wf(*final(self), keys.len() as nat),
            lookup(*final(self), strings_view(keys@)) == Some(
                apply_op(lookup(*old(self), strings_view(keys@)), leaf_cap, LeafOp::Insert(id)),
            ),
            forall|p: Seq<Seq<char>>|
                p != strings_view(keys@) ==> lookup(*final(self), p) == lookup(*old(self), p),
    {
        self.apply_at(keys, 0, leaf_cap, LeafOp::Insert(id));
        assert(strings_view(keys@).skip(0) =~= strings_view(keys@));
    }

    /// Remove `id` from the leaf at `keys`, creating the path first if needed.
    pub fn remove_at(&mut self, keys: &[String], leaf_cap: usize, id: u64)
        requires
            wf(*old(self), keys.len() as nat),
        ensures
            wf(*final(self), keys.len() as nat),
            lookup(*final(self), strings_view(keys@)) == Some(
                apply_op(lookup(*old(self), strings_view(keys@)), leaf_cap, LeafOp::Remove(id)),
            ),
            forall|p: Seq<Seq<char>>|
                p != strings_view(keys@) ==> lookup(*final(self), p) == lookup(*old(self), p),
    {
        self.apply_at(keys, 0, leaf_cap, LeafOp::Remove(id));
        assert(strings_view(keys@).skip(0) =~= strings_view(keys@));
    }

    fn apply_leaf(b: &mut LeafBucket, op: LeafOp)
        ensures
            final(b)@ == apply_op(Some(old(b)@), 0, op),
    {
        match op {
            LeafOp::Create => {},
            LeafOp::Insert(id) => b.insert(id),
            LeafOp::Remove(id) => b.remove(id),
        }
    }

    fn apply_at(&mut self, keys: &[String], pos: usize, leaf_cap: usize, op: LeafOp)
        requires
            pos <= keys.len(),
            wf(*old(self), (keys.len() - pos) as nat),
        ensures
            wf(*final(self), (keys.len() - pos) as nat),
            lookup(*final(self), strings_view(keys@).skip(pos as int)) == Some(
                apply_op(lookup(*old(self), strings_view(keys@).skip(pos as int)), leaf_cap, op),
            ),
            forall|p: Seq<Seq<char>>|
                p != strings_view(keys@).skip(pos as int) ==> lookup(*final(self), p) == lookup(
                    *old(self),
                    p,
                ),
        decreases keys.len() - pos,
    {
        let ghost path = strings_view(keys@).skip(pos as int);
        assert(path.len() == keys.len() - pos);
        if pos == keys.len() {
            // No more keys: this node must be (or become) the leaf.
            let is_leaf = match self {
                TreeNode::Leaf(_) => true,
                TreeNode::Internal { .. } => false,
            };
            if !is_leaf {
                *self = TreeNode::Leaf(LeafBucket::new(leaf_cap));
            }
            match self {
                TreeNode::Leaf(b) => {
                    let ghost before = b@;
                    Self::apply_leaf(b, op);
                },
                TreeNode::Internal { .. } => {},
            }
            proof {
                assert forall|p: Seq<Seq<char>>| p != path implies lookup(*self, p) == lookup(
                    *old(self),
                    p,
                ) by {
                    assert(path.len() == 0);
                    if p.len() > 0 {
                        if let TreeNode::Internal { children } = *old(self) {
                            assert(children@.len() == 0);
                            assert(find_key(children@, p[0], 0) is None);
                        }
                    } else {
                        assert(p =~= path);
                    }
                }
            }
            return;
        }
        match self {
            TreeNode::Leaf(_) => {
                // A leaf above the last key cannot occur in a well-formed shard.
                assert(false);
            },
            TreeNode::Internal { children } => {
                let k = keys[pos].as_str();
                let ghost cs = children@;
                let mut i: usize = 0;
                let mut found: bool = false;
                while i < children.len() && !found
                    invariant
                        i <= children.len(),
                        children@ == cs,
                        pos < keys.len(),
                        k@ == path[0],
                        path == strings_view(keys@).skip(pos as int),
                        find_key(cs, path[0], 0) == find_key(cs, path[0], i as int),
                        found ==> i < children.len() && cs[i as int].key@ == k@,
                    decreases children.len() - i + if found {
                        0int
                    } else {
                        1int
                    },
                {
                    if str_eq(children[i].key.as_str(), k) {
                        found = true;
                    } else {
                        i = i + 1;
                    }
                }
                proof {
                    lemma_find_key_range(cs, path[0], 0);
                    lemma_find_key_range(cs, path[0], i as int);
                    assert(path.drop_first() =~= strings_view(keys@).skip(pos + 1));
                }
                if found {
                    assert(find_key(cs, path[0], 0) == Some(i as int));
                    let mut child = children.remove(i);
                    assert(wf(child.node, (keys.len() - pos - 1) as nat));
                    let ghost old_child = child;
                    child.node.apply_at(keys, pos + 1, leaf_cap, op);
                    let ghost new_child = child;
                    children.insert(i, child);
                    proof {
                        assert(children@ =~= cs.update(i as int, new_child));
                        assert((*self) is Internal);
                        assert((*self)->children@ == children@);
                        assert((*old(self))->children@ == cs);
                        assert(old_child == cs[i as int]);
                        assert forall|q: Seq<char>| #[trigger] find_key(children@, q, 0) == find_key(cs, q, 0) by {
                            lemma_find_key_update(cs, i as int, new_child, q, 0);
                        }
                        assert forall|j: int| 0 <= j < children@.len() implies wf(
                            #[trigger] children@[j].node,
                            (keys.len() - pos - 1) as nat,
                        ) by {
                            if j != i {
                                assert(children@[j] == cs[j]);
                            }
                        }
                        assert forall|p: Seq<Seq<char>>| p != path implies lookup(*self, p) == lookup(
                            *old(self),
                            p,
                        ) by {
                            if p.len() > 0 {
                                lemma_find_key_range(cs, p[0], 0);
                                assert(find_key(children@, p[0], 0) == find_key(cs, p[0], 0));
                                match find_key(cs, p[0], 0) {
                                    Some(j) => {
                                        if j == i {
                                            assert(p[0] == path[0]);
                                            assert(p.drop_first() != path.drop_first()) by {
                                                if p.drop_first() == path.drop_first() {
                                                    lemma_seq_first_rest_eq(p, path);
                                                }
                                            }
                                            assert(lookup(new_child.node, p.drop_first()) == lookup(
                                                old_child.node,
                                                p.drop_first(),
                                            ));
                                        } else {
                                            assert(children@[j] == cs[j]);
                                        }
                                    },
                                    None => {},
                                }
                            }
                        }
                    }
                } else {
                    assert(find_key(cs, path[0], 0) is None);
                    let mut node = if pos + 1 == keys.len() {
                        TreeNode::Leaf(LeafBucket::new(leaf_cap))
                    } else {
                        TreeNode::new_internal()
                    };
                    proof {
                        assert(wf(node, (keys.len() - pos - 1) as nat));
                        assert(path.drop_first().len() == keys.len() - pos - 1);
                        if pos + 1 == keys.len() {
                            assert(lookup(node, path.drop_first()) == Some(
                                LeafView { cap: leaf_cap, ids: Seq::empty() },
                            ));
                        } else {
                            assert(lookup(node, path.drop_first()) is None);
                        }
                    }
                    let ghost before = node;
                    node.apply_at(keys, pos + 1, leaf_cap, op);
                    assert(lookup(node, path.drop_first()) == Some(apply_op(None, leaf_cap, op)));
                    let c = TreeChild { key: keys[pos].clone(), node };
                    assert(c.key@ == path[0]);
                    children.push(c);
                    proof {
                        assert forall|q: Seq<char>| #[trigger] find_key(children@, q, 0) == match find_key(cs, q, 0) {
                            Some(j) => Some(j),
                            None => if c.key@ == q {
                                Some(cs.len() as int)
                            } else {
                                None
                            },
                        } by {
                            lemma_find_key_push(cs, c, q, 0);
                        }
                        assert forall|j: int| 0 <= j < children@.len() implies wf(
                            #[trigger] children@[j].node,
                            (keys.len() - pos - 1) as nat,
                        ) by {
                            if j < cs.len() {
                                assert(children@[j] == cs[j]);
                            }
                        }
                        assert forall|p: Seq<Seq<char>>| p != path implies lookup(*self, p) == lookup(
                            *old(self),
                            p,
                        ) by {
                            if p.len() > 0 {
                                lemma_find_key_range(cs, p[0], 0);
                                assert(find_key(children@, p[0], 0) == match find_key(cs, p[0], 0) {
                                    Some(j) => Some(j),
                                    None => if c.key@ == p[0] {
                                        Some(cs.len() as int)
                                    } else {
                                        None
                                    },
                                });
                                match find_key(cs, p[0], 0) {
                                    Some(j) => {
                                        assert(children@[j] == cs[j]);
                                    },
                                    None => {
                                        if c.key@ == p[0] {
                                            assert(p[0] == path[0]);
                                            assert(p.drop_first() != path.drop_first()) by {
                                                if p.drop_first() == path.drop_first() {
                                                    lemma_seq_first_rest_eq(p, path);
                                                }
                                            }
                                            assert(children@[cs.len() as int] == c);
                                            assert(lookup(c.node, p.drop_first()) == lookup(
                                                before,
                                                p.drop_first(),
                                            ));
                                            if pos + 1 == keys.len() {
                                                if p.drop_first().len() == 0 {
                                                    assert(p.drop_first() =~= path.drop_first());
                                                }
                                            }
                                            assert(lookup(before, p.drop_first()) is None);
                                        }
                                    },
                                }
                            }
                        }
                    }
                }
            },
        }
    }
}

} // verus!
