use vstd::prelude::*;

use crate::node::NodeView;
use crate::node_id::{group_node_id, NodeId};

verus! {

broadcast use group_node_id;

/// `s` with every occurrence of `x` removed.
pub open spec fn without(s: Seq<NodeId>, x: NodeId) -> Seq<NodeId> {
    s.filter(differs_from(x))
}

/// The test "is not `x`".
pub open spec fn differs_from(x: NodeId) -> spec_fn(NodeId) -> bool {
    |c: NodeId| c != x
}

/// The abstract state of a `Tree`.
///
/// `slots[i]` holds the node with id index `i`, or `None` where that node
/// has been removed; `free` lists the vacated slots in the order in which
/// they will be reused (last first); `depths[i]` is the number of parent
/// links between the node of slot `i` and the top of its chain.
pub struct TreeView<T> {
    pub root: Option<NodeId>,
    pub slots: Seq<Option<NodeView<T>>>,
    pub free: Seq<NodeId>,
    pub depths: Seq<nat>,
}

impl<T> TreeView<T> {
    /// `id` designates a node of the tree.
    pub open spec fn has(self, id: NodeId) -> bool {
        id.idx() < self.slots.len() && self.slots[id.idx() as int] is Some
    }

    /// The node that `id` designates.
    pub open spec fn node(self, id: NodeId) -> NodeView<T> {
        self.slots[id.idx() as int]->0
    }

    pub open spec fn parent(self, id: NodeId) -> Option<NodeId> {
        self.node(id).parent
    }

    pub open spec fn children(self, id: NodeId) -> Seq<NodeId> {
        self.node(id).children
    }

    pub open spec fn depth(self, id: NodeId) -> nat {
        self.depths[id.idx() as int]
    }

    /// The id that the next inserted node receives.
    pub open spec fn next_id(self) -> NodeId {
        if self.free.len() > 0 {
            self.free.last()
        } else {
            NodeId::from_idx(self.slots.len())
        }
    }

    /// The links of the node `id` agree with those of its parent and
    /// children, and its depth is one more than its parent's.
    pub open spec fn node_wf(self, id: NodeId) -> bool {
        &&& (self.parent(id) is Some ==> {
            &&& self.has(self.parent(id)->0)
            &&& self.children(self.parent(id)->0).contains(id)
            &&& self.depth(id) == self.depth(self.parent(id)->0) + 1
        })
        &&& (self.parent(id) is None ==> self.depth(id) == 0)
        &&& self.children(id).no_duplicates()
        &&& forall|j: int|
            0 <= j < self.children(id).len() ==> {
                &&& self.has(#[trigger] self.children(id)[j])
                &&& self.parent(self.children(id)[j]) == Some(id)
            }
    }

    /// Every vacated slot is listed once in `free`, and `free` lists only
    /// vacated slots.
    pub open spec fn free_ok(self) -> bool {
        &&& self.free.no_duplicates()
        &&& forall|i: int|
            0 <= i < self.free.len() ==> {
                &&& (#[trigger] self.free[i]).idx() < self.slots.len()
                &&& self.slots[self.free[i].idx() as int] is None
            }
    }

    /// The invariant of a tree: consistent parent and child links, depths
    /// that follow the parent links (so no chain of parents loops), a root
    /// without a parent, and an exact record of the vacated slots.
    pub open spec fn wf(self) -> bool {
        &&& self.depths.len() == self.slots.len()
        &&& self.slots.len() <= u32::MAX + 1
        &&& (self.root is Some ==> self.has(self.root->0) && self.parent(self.root->0) is None)
        &&& forall|id: NodeId| #[trigger] self.has(id) ==> self.node_wf(id)
        &&& self.free_ok()
    }

    /// The node reached from `id` by following `k` parent links.
    pub open spec fn ancestor_at(self, id: NodeId, k: nat) -> Option<NodeId>
        decreases k,
    {
        if k == 0 {
            Some(id)
        } else if self.has(id) && self.parent(id) is Some {
            self.ancestor_at(self.parent(id)->0, (k - 1) as nat)
        } else {
            None
        }
    }

    /// `n` is `x` or lies below `x`.
    pub open spec fn in_subtree(self, n: NodeId, x: NodeId) -> bool {
        &&& self.has(n)
        &&& self.has(x)
        &&& self.depth(n) >= self.depth(x)
        &&& self.ancestor_at(n, (self.depth(n) - self.depth(x)) as nat) == Some(x)
    }

    /// `n` lies strictly below `x`.
    pub open spec fn strictly_below(self, n: NodeId, x: NodeId) -> bool {
        self.in_subtree(n, x) && n != x
    }
}

/// Every node lies in its own subtree.
pub proof fn lemma_in_subtree_self<T>(v: TreeView<T>, n: NodeId)
    requires
        v.has(n),
    ensures
        v.in_subtree(n, n),
{
}

/// Stepping to the parent: `n` lies in the subtree of `x` exactly when it is
/// `x` or its parent does.
pub proof fn lemma_parent_step<T>(v: TreeView<T>, n: NodeId, x: NodeId)
    requires
        v.wf(),
        v.has(n),
        v.parent(n) is Some,
    ensures
        v.in_subtree(n, x) <==> (n == x || v.in_subtree(v.parent(n)->0, x)),
{
    let p = v.parent(n)->0;
    assert(v.node_wf(n));
    if v.in_subtree(n, x) && n != x {
        if v.depth(n) == v.depth(x) {
            assert(v.ancestor_at(n, 0) == Some(n));
        }
        let k = (v.depth(n) - v.depth(x)) as nat;
        assert(v.ancestor_at(n, k) == v.ancestor_at(p, (k - 1) as nat));
    }
    if v.in_subtree(p, x) {
        let k = (v.depth(p) - v.depth(x)) as nat;
        assert(v.ancestor_at(n, k + 1) == v.ancestor_at(p, k));
    }
}

/// A node without a parent has only itself above it.
pub proof fn lemma_no_parent_step<T>(v: TreeView<T>, n: NodeId, x: NodeId)
    requires
        v.wf(),
        v.has(n),
        v.parent(n) is None,
    ensures
        v.in_subtree(n, x) <==> n == x,
{
    assert(v.node_wf(n));
}

/// A node strictly below another has a parent, and its depth is larger.
pub proof fn lemma_strictly_below_has_parent<T>(v: TreeView<T>, n: NodeId, x: NodeId)
    requires
        v.wf(),
        v.strictly_below(n, x),
    ensures
        v.parent(n) is Some,
        v.depth(n) > v.depth(x),
{
    assert(v.node_wf(n));
    if v.depth(n) == v.depth(x) {
        assert(v.ancestor_at(n, 0) == Some(n));
    }
}

/// The ancestors of a node are nodes of the tree, at decreasing depths.
pub proof fn lemma_ancestor_chain<T>(v: TreeView<T>, n: NodeId, k: nat)
    requires
        v.wf(),
        v.has(n),
        k <= v.depth(n),
    ensures
        v.ancestor_at(n, k) is Some,
        v.has(v.ancestor_at(n, k)->0),
        v.depth(v.ancestor_at(n, k)->0) == v.depth(n) - k,
    decreases k,
{
    assert(v.node_wf(n));
    if k > 0 {
        let p = v.parent(n)->0;
        lemma_ancestor_chain(v, p, (k - 1) as nat);
    }
}

/// Depths are smaller than the number of slots: the chain above a node is
/// made of distinct nodes.
pub proof fn lemma_depth_bound<T>(v: TreeView<T>, n: NodeId)
    requires
        v.wf(),
        v.has(n),
    ensures
        v.depth(n) < v.slots.len(),
{
    let d = v.depth(n) as int;
    let ks = vstd::set_lib::set_int_range(0, d + 1);
    let f = |k: int| (v.ancestor_at(n, k as nat)->0).idx() as int;
    vstd::set_lib::lemma_int_range(0, d + 1);
    assert forall|k: int| #[trigger] ks.contains(k) implies {
        &&& v.has(v.ancestor_at(n, k as nat)->0)
        &&& v.depth(v.ancestor_at(n, k as nat)->0) == d - k
    } by {
        lemma_ancestor_chain(v, n, k as nat);
    }
    assert(vstd::relations::injective_on(f, ks)) by {
        assert forall|a: int, b: int| ks.contains(a) && ks.contains(b) && #[trigger] f(a) == #[trigger] f(b) implies a == b by {
            let ida = v.ancestor_at(n, a as nat)->0;
            let idb = v.ancestor_at(n, b as nat)->0;
            assert(ida.idx() == idb.idx());
        }
    }
    let img = ks.map(f);
    vstd::set_lib::lemma_map_size(ks, img, f);
    let range = vstd::set_lib::set_int_range(0, v.slots.len() as int);
    vstd::set_lib::lemma_int_range(0, v.slots.len() as int);
    assert(img.subset_of(range)) by {
        assert forall|i: int| #[trigger] img.contains(i) implies range.contains(i) by {
            let k = choose|k: int| ks.contains(k) && f(k) == i;
        }
    }
    vstd::set_lib::lemma_len_subset(img, range);
}

} // verus!

verus! {

impl<T> TreeView<T> {
    /// The tree with the node `id` replaced by `n`.
    pub open spec fn with_node(self, id: NodeId, n: NodeView<T>) -> TreeView<T> {
        TreeView { slots: self.slots.update(id.idx() as int, Some(n)), ..self }
    }
}

} // verus!

verus! {

impl<T> TreeView<T> {
    /// `id` may be handed to the tree's operations: its index is at most the
    /// number of slots.
    pub open spec fn in_range(self, id: NodeId) -> bool {
        id.idx() <= self.slots.len()
    }

    /// A new node can be given an id: a vacated slot can be reused, or a new
    /// slot's index still fits an id.
    pub open spec fn can_allocate(self) -> bool {
        self.free.len() > 0 || self.slots.len() <= u32::MAX
    }

    pub open spec fn with_parent(self, id: NodeId, p: Option<NodeId>) -> TreeView<T> {
        self.with_node(id, NodeView { parent: p, ..self.node(id) })
    }

    pub open spec fn with_children(self, id: NodeId, c: Seq<NodeId>) -> TreeView<T> {
        self.with_node(id, NodeView { children: c, ..self.node(id) })
    }

    pub open spec fn with_depths(self, d: Seq<nat>) -> TreeView<T> {
        TreeView { depths: d, ..self }
    }

    /// `c` appended to the children of `p`, and `p` made the parent of `c`.
    pub open spec fn link(self, p: NodeId, c: NodeId) -> TreeView<T> {
        self.with_children(p, self.children(p).push(c)).with_parent(c, Some(p))
    }

    /// `c` removed from the children of `p`.
    pub open spec fn unlink(self, p: NodeId, c: NodeId) -> TreeView<T> {
        self.with_children(p, without(self.children(p), c))
    }

    /// The depths with those of the subtree of `x` moved by `delta`.
    pub open spec fn shift_subtree(self, x: NodeId, delta: int) -> Seq<nat> {
        Seq::new(
            self.depths.len(),
            |i: int|
                if self.in_subtree(NodeId::from_idx(i as nat), x) {
                    (self.depths[i] + delta) as nat
                } else {
                    self.depths[i]
                },
        )
    }

    /// The node `n`, at depth `d`, stored under `next_id()`: in the most
    /// recently vacated slot, or in a new last slot.
    pub open spec fn allocate(self, n: NodeView<T>, d: nat) -> TreeView<T> {
        if self.free.len() > 0 {
            TreeView {
                root: self.root,
                slots: self.slots.update(self.free.last().idx() as int, Some(n)),
                free: self.free.drop_last(),
                depths: self.depths.update(self.free.last().idx() as int, d),
            }
        } else {
            TreeView { slots: self.slots.push(Some(n)), depths: self.depths.push(d), ..self }
        }
    }

    /// The tree after inserting `data` as the last child of `p`.
    pub open spec fn insert_under(self, data: T, p: NodeId) -> TreeView<T> {
        let id = self.next_id();
        self.allocate(
            NodeView { data, parent: Some(p), children: Seq::empty() },
            self.depth(p) + 1,
        ).with_children(p, self.children(p).push(id))
    }

    /// The tree after inserting `data` as the new root; the previous root,
    /// if any, becomes its only child.
    pub open spec fn insert_as_root(self, data: T) -> TreeView<T> {
        let id = self.next_id();
        match self.root {
            None => TreeView {
                root: Some(id),
                ..self.allocate(NodeView { data, parent: None, children: Seq::empty() }, 0)
            },
            Some(r) => {
                let a = self.with_depths(self.shift_subtree(r, 1)).allocate(
                    NodeView { data, parent: None, children: seq![r] },
                    0,
                );
                TreeView { root: Some(id), ..a.with_parent(r, Some(id)) }
            },
        }
    }
}

/// The id handed out next designates a vacant slot.
pub proof fn lemma_next_id_vacant<T>(v: TreeView<T>)
    requires
        v.free_ok(),
        v.can_allocate(),
    ensures
        !v.has(v.next_id()),
        v.next_id().idx() <= v.slots.len(),
        forall|id: NodeId| v.has(id) ==> id != v.next_id(),
{
    if v.free.len() > 0 {
        assert(v.free_ok());
        let i = v.free.len() - 1;
        assert(v.free[i] == v.free.last());
    } else {
        assert(NodeId::from_idx(v.slots.len()).idx() == v.slots.len());
    }
}

/// Inserting under a node of a tree keeps the tree well formed.
pub proof fn lemma_insert_under_wf<T>(v: TreeView<T>, data: T, p: NodeId)
    requires
        v.wf(),
        v.has(p),
        v.can_allocate(),
    ensures
        v.insert_under(data, p).wf(),
        v.insert_under(data, p).has(v.next_id()),
{
    let id = v.next_id();
    let w = v.insert_under(data, p);
    lemma_next_id_vacant(v);
    assert(w.slots.len() == w.depths.len());
    assert(w.has(id));
    assert(w.has(p));
    assert forall|y: NodeId| #[trigger] w.has(y) implies w.node_wf(y) by {
        if y == id {
            assert(w.children(p).contains(id)) by {
                assert(w.children(p)[v.children(p).len() as int] == id);
            }
        } else {
            assert(v.has(y));
            assert(v.node_wf(y));
            if y == p {
                assert forall|j: int| 0 <= j < w.children(p).len() implies {
                    &&& w.has(#[trigger] w.children(p)[j])
                    &&& w.parent(w.children(p)[j]) == Some(p)
                } by {
                    if j < v.children(p).len() {
                        assert(w.children(p)[j] == v.children(p)[j]);
                    }
                }
                assert(w.children(p).no_duplicates());
            }
            if v.parent(y) is Some {
                let q = v.parent(y)->0;
                if q == p {
                    let k = choose|k: int| 0 <= k < v.children(p).len() && v.children(p)[k] == y;
                    assert(w.children(p)[k] == y);
                }
            }
            assert forall|j: int| 0 <= j < w.children(y).len() implies {
                &&& w.has(#[trigger] w.children(y)[j])
                &&& w.parent(w.children(y)[j]) == Some(y)
            } by {
                if y != p {
                    assert(v.has(v.children(y)[j]));
                }
            }
        }
    }
    assert(w.free_ok()) by {
        if v.free.len() > 0 {
            assert forall|i: int| 0 <= i < w.free.len() implies {
                &&& (#[trigger] w.free[i]).idx() < w.slots.len()
                &&& w.slots[w.free[i].idx() as int] is None
            } by {
                assert(w.free[i] == v.free[i]);
                assert(v.free[i] != v.free[v.free.len() - 1]);
            }
        }
    }
}

} // verus!

verus! {

/// Inserting a new root keeps the tree well formed.
pub proof fn lemma_insert_as_root_wf<T>(v: TreeView<T>, data: T)
    requires
        v.wf(),
        v.can_allocate(),
    ensures
        v.insert_as_root(data).wf(),
        v.insert_as_root(data).has(v.next_id()),
{
    let id = v.next_id();
    let w = v.insert_as_root(data);
    lemma_next_id_vacant(v);
    match v.root {
        None => {
            assert forall|y: NodeId| #[trigger] w.has(y) implies w.node_wf(y) by {
                if y != id {
                    assert(v.has(y));
                    assert(v.node_wf(y));
                    assert forall|j: int| 0 <= j < w.children(y).len() implies {
                        &&& w.has(#[trigger] w.children(y)[j])
                        &&& w.parent(w.children(y)[j]) == Some(y)
                    } by {
                        assert(v.has(v.children(y)[j]));
                    }
                }
            }
            assert(w.free_ok()) by {
                if v.free.len() > 0 {
                    assert forall|i: int| 0 <= i < w.free.len() implies {
                        &&& (#[trigger] w.free[i]).idx() < w.slots.len()
                        &&& w.slots[w.free[i].idx() as int] is None
                    } by {
                        assert(w.free[i] == v.free[i]);
                        assert(v.free[i] != v.free[v.free.len() - 1]);
                    }
                }
            }
        },
        Some(r) => {
            assert(v.node_wf(r));
            assert forall|y: NodeId| #[trigger] w.has(y) implies w.depth(y) == (if y == id {
                0
            } else if v.in_subtree(y, r) {
                v.depth(y) + 1
            } else {
                v.depth(y)
            }) by {
                if y != id {
                    assert(NodeId::from_idx(y.idx()) == y);
                }
            }
            assert forall|y: NodeId| #[trigger] w.has(y) implies w.node_wf(y) by {
                if y == id {
                    assert(w.children(id) == seq![r]);
                    assert(w.children(id)[0] == r);
                    assert(w.has(r));
                } else if y == r {
                    assert(v.in_subtree(r, r));
                    assert(w.children(id).contains(r)) by {
                        assert(w.children(id)[0] == r);
                    }
                    assert forall|j: int| 0 <= j < w.children(r).len() implies {
                        &&& w.has(#[trigger] w.children(r)[j])
                        &&& w.parent(w.children(r)[j]) == Some(r)
                    } by {
                        assert(v.has(v.children(r)[j]));
                    }
                } else {
                    assert(v.has(y));
                    assert(v.node_wf(y));
                    if v.parent(y) is Some {
                        lemma_parent_step(v, y, r);
                    } else {
                        lemma_no_parent_step(v, y, r);
                    }
                    assert forall|j: int| 0 <= j < w.children(y).len() implies {
                        &&& w.has(#[trigger] w.children(y)[j])
                        &&& w.parent(w.children(y)[j]) == Some(y)
                    } by {
                        assert(v.has(v.children(y)[j]));
                    }
                }
            }
            assert(w.free_ok()) by {
                if v.free.len() > 0 {
                    assert forall|i: int| 0 <= i < w.free.len() implies {
                        &&& (#[trigger] w.free[i]).idx() < w.slots.len()
                        &&& w.slots[w.free[i].idx() as int] is None
                    } by {
                        assert(w.free[i] == v.free[i]);
                        assert(v.free[i] != v.free[v.free.len() - 1]);
                    }
                }
            }
        },
    }
}

} // verus!

verus! {

/// What `without` keeps: every element but `x`, in order, once each if
/// they were once each.
pub proof fn lemma_without<T>(s: Seq<NodeId>, x: NodeId)
    ensures
        forall|c: NodeId| #[trigger] without(s, x).contains(c) <==> (s.contains(c) && c != x),
        s.no_duplicates() ==> without(s, x).no_duplicates(),
        !s.contains(x) ==> without(s, x) == s,
        without(s, x).len() <= s.len(),
    decreases s.len(),
{
    reveal(Seq::filter);
    if s.len() > 0 {
        let r = s.drop_last();
        lemma_without::<T>(r, x);
        assert(s == r.push(s.last()));
        assert forall|c: NodeId| #[trigger] without(s, x).contains(c) <==> (s.contains(c) && c != x) by {
            if s.contains(c) && c != x {
                let i = choose|i: int| 0 <= i < s.len() && s[i] == c;
                if i < s.len() - 1 {
                    assert(r[i] == c);
                }
            }
            if without(s, x).contains(c) {
                if c != s.last() {
                    let i = choose|i: int| 0 <= i < without(s, x).len() && without(s, x)[i] == c;
                    assert(without(r, x).contains(c)) by {
                        if s.last() != x {
                            assert(without(s, x) == without(r, x).push(s.last()));
                            assert(without(r, x)[i] == c);
                        }
                    }
                }
            }
        }
        if s.no_duplicates() {
            assert(r.no_duplicates()) by {
                assert forall|i: int, j: int| 0 <= i < r.len() && 0 <= j < r.len() && i != j implies r[i] != r[j] by {
                    assert(r[i] == s[i] && r[j] == s[j]);
                }
            }
            if s.last() != x {
                assert(!r.contains(s.last())) by {
                    if r.contains(s.last()) {
                        let i = choose|i: int| 0 <= i < r.len() && r[i] == s.last();
                        assert(s[i] == s[s.len() - 1]);
                    }
                }
                assert(!without(r, x).contains(s.last()));
                let w = without(s, x);
                assert(w == without(r, x).push(s.last()));
                assert forall|i: int, j: int| 0 <= i < w.len() && 0 <= j < w.len() && i != j implies w[i] != w[j] by {
                    if i < w.len() - 1 && j < w.len() - 1 {
                        assert(w[i] == without(r, x)[i] && w[j] == without(r, x)[j]);
                    } else if i < w.len() - 1 {
                        assert(without(r, x).contains(w[i]));
                    } else {
                        assert(without(r, x).contains(w[j]));
                    }
                }
            }
        }
        if !s.contains(x) {
            assert(!r.contains(x)) by {
                if r.contains(x) {
                    let i = choose|i: int| 0 <= i < r.len() && r[i] == x;
                    assert(s[i] == x);
                }
            }
        }
    }
}

/// Appending an element not yet present keeps a sequence free of
/// duplicates, and the result contains exactly the old elements and it.
pub proof fn lemma_push_no_dup(s: Seq<NodeId>, x: NodeId)
    requires
        s.no_duplicates(),
        !s.contains(x),
    ensures
        s.push(x).no_duplicates(),
{
    let t = s.push(x);
    assert forall|i: int, j: int| 0 <= i < t.len() && 0 <= j < t.len() && i != j implies t[i] != t[j] by {
        if i < s.len() && j < s.len() {
            assert(t[i] == s[i] && t[j] == s[j]);
        } else if i < s.len() {
            assert(t[i] == s[i]);
        } else {
            assert(t[j] == s[j]);
        }
    }
}

} // verus!

verus! {

impl<T> TreeView<T> {
    /// The child of `x` on the path from `x` down to `n`, for `n` strictly
    /// below `x`.
    pub open spec fn child_toward(self, n: NodeId, x: NodeId) -> NodeId {
        self.ancestor_at(n, (self.depth(n) - self.depth(x) - 1) as nat)->0
    }

    /// Moving `x`, with its subtree, to the end of the children of `p`,
    /// where `p` is not in the subtree of `x`.
    pub open spec fn move_across(self, x: NodeId, p: NodeId) -> TreeView<T> {
        let d = match self.parent(x) {
            Some(o) => self.unlink(o, x),
            None => self,
        };
        d.link(p, x).with_depths(self.shift_subtree(x, self.depth(p) + 1 - self.depth(x)))
    }
}

/// Moving a node that is not the root under a node outside its subtree
/// keeps the tree well formed.
pub proof fn lemma_move_across_wf<T>(v: TreeView<T>, x: NodeId, p: NodeId)
    requires
        v.wf(),
        v.has(x),
        v.has(p),
        x != p,
        !v.in_subtree(p, x),
        v.root != Some(x),
    ensures
        v.move_across(x, p).wf(),
{
    let w = v.move_across(x, p);
    let delta = v.depth(p) + 1 - v.depth(x);
    assert(v.node_wf(x));
    assert(v.node_wf(p));
    lemma_in_subtree_self(v, x);
    let o = v.parent(x);
    if o is Some {
        assert(v.node_wf(o->0));
        lemma_without::<T>(v.children(o->0), x);
        assert(o->0 != x);
    }
    assert forall|y: NodeId| #[trigger] w.has(y) implies v.has(y) by {
    }
    assert forall|y: NodeId| #[trigger] w.has(y) implies w.depth(y) == (if v.in_subtree(y, x) {
        (v.depth(y) + delta) as nat
    } else {
        v.depth(y)
    }) by {
        assert(NodeId::from_idx(y.idx()) == y);
    }
    assert forall|y: NodeId| v.has(y) implies #[trigger] w.has(y) by {
    }
    assert(w.parent(x) == Some(p));
    assert(w.children(x) == v.children(x));
    // The new children of p: the old ones (without x when p was the old
    // parent), then x.
    let base = if o == Some(p) {
        without(v.children(p), x)
    } else {
        v.children(p)
    };
    assert(w.children(p) == base.push(x));
    assert(!base.contains(x)) by {
        if o != Some(p) && v.children(p).contains(x) {
            let j = choose|j: int| 0 <= j < v.children(p).len() && v.children(p)[j] == x;
            assert(v.parent(v.children(p)[j]) == Some(p));
        }
    }
    assert(base.no_duplicates());
    lemma_push_no_dup(base, x);
    assert forall|c: NodeId| #[trigger] base.contains(c) implies v.children(p).contains(c) && c != x by {
    }
    assert(w.children(p).contains(x)) by {
        assert(w.children(p)[base.len() as int] == x);
    }
    assert forall|y: NodeId| #[trigger] w.has(y) implies w.node_wf(y) by {
        assert(v.has(y));
        assert(v.node_wf(y));
        // The parent side.
        if y != x {
            assert(w.parent(y) == v.parent(y));
            if v.parent(y) is Some {
                let q = v.parent(y)->0;
                lemma_parent_step(v, y, x);
                assert(v.node_wf(q));
                assert(w.children(q).contains(y)) by {
                    if q == p {
                        assert(base.contains(y)) by {
                            if o == Some(p) {
                                assert(without(v.children(p), x).contains(y));
                            }
                        }
                        let k = choose|k: int| 0 <= k < base.len() && base[k] == y;
                        assert(w.children(p)[k] == y);
                    } else if o == Some(q) {
                        assert(without(v.children(q), x).contains(y));
                        assert(w.children(q) == without(v.children(q), x));
                    } else {
                        assert(w.children(q) == v.children(q));
                    }
                }
            } else {
                lemma_no_parent_step(v, y, x);
            }
        }
        // The children side.
        if y == p {
            assert forall|j: int| 0 <= j < w.children(p).len() implies {
                &&& w.has(#[trigger] w.children(p)[j])
                &&& w.parent(w.children(p)[j]) == Some(p)
            } by {
                if j < base.len() {
                    let c = base[j];
                    assert(w.children(p)[j] == c);
                    assert(base.contains(c));
                    assert(v.children(p).contains(c));
                    let k = choose|k: int| 0 <= k < v.children(p).len() && v.children(p)[k] == c;
                    assert(v.parent(v.children(p)[k]) == Some(p));
                }
            }
        } else if o == Some(y) {
            let s = without(v.children(y), x);
            assert(w.children(y) == s);
            assert forall|j: int| 0 <= j < w.children(y).len() implies {
                &&& w.has(#[trigger] w.children(y)[j])
                &&& w.parent(w.children(y)[j]) == Some(y)
            } by {
                let c = s[j];
                assert(s.contains(c));
                let k = choose|k: int| 0 <= k < v.children(y).len() && v.children(y)[k] == c;
                assert(v.parent(v.children(y)[k]) == Some(y));
            }
        } else {
            assert(w.children(y) == v.children(y));
            assert forall|j: int| 0 <= j < w.children(y).len() implies {
                &&& w.has(#[trigger] w.children(y)[j])
                &&& w.parent(w.children(y)[j]) == Some(y)
            } by {
                let c = v.children(y)[j];
                assert(v.has(c) && v.parent(c) == Some(y));
            }
        }
    }
    assert(w.free_ok()) by {
        assert forall|i: int| 0 <= i < w.free.len() implies {
            &&& (#[trigger] w.free[i]).idx() < w.slots.len()
            &&& w.slots[w.free[i].idx() as int] is None
        } by {
            assert(v.free[i] == w.free[i]);
        }
    }
    if v.root is Some {
        let r = v.root->0;
        assert(v.has(r));
        assert(w.parent(r) == v.parent(r));
    }
}

} // verus!

verus! {

/// One more parent link above the `k`-th ancestor.
pub proof fn lemma_ancestor_step<T>(v: TreeView<T>, n: NodeId, k: nat)
    ensures
        v.ancestor_at(n, k + 1) == (match v.ancestor_at(n, k) {
            Some(a) => if v.has(a) && v.parent(a) is Some {
                Some(v.parent(a)->0)
            } else {
                None::<NodeId>
            },
            None => None::<NodeId>,
        }),
    decreases k,
{
    if v.has(n) && v.parent(n) is Some {
        let p = v.parent(n)->0;
        if k > 0 {
            lemma_ancestor_step(v, p, (k - 1) as nat);
        } else {
            assert(v.ancestor_at(p, 0) == Some(p));
        }
    }
}

/// The child of `x` toward a node `n` strictly below `x` is a child of `x`
/// whose subtree holds `n`.
pub proof fn lemma_child_toward<T>(v: TreeView<T>, n: NodeId, x: NodeId)
    requires
        v.wf(),
        v.strictly_below(n, x),
    ensures
        v.has(v.child_toward(n, x)),
        v.parent(v.child_toward(n, x)) == Some(x),
        v.children(x).contains(v.child_toward(n, x)),
        v.depth(v.child_toward(n, x)) == v.depth(x) + 1,
        v.in_subtree(n, v.child_toward(n, x)),
        v.strictly_below(v.child_toward(n, x), x),
{
    lemma_strictly_below_has_parent(v, n, x);
    let k = (v.depth(n) - v.depth(x) - 1) as nat;
    lemma_ancestor_chain(v, n, k);
    let s = v.child_toward(n, x);
    lemma_ancestor_step(v, n, k);
    assert(v.ancestor_at(n, k + 1) == Some(x));
    assert(v.node_wf(s));
    assert(v.ancestor_at(s, 1) == v.ancestor_at(x, 0));
}

impl<T> TreeView<T> {
    /// Moving `x` to the end of the children of `p`, where `p` lies strictly
    /// below `x`: the child `s` of `x` toward `p` first takes the place of
    /// `x` (appended to the children of the parent of `x`, or made the root
    /// when `x` was the root), then `x`, with its other children, goes under
    /// `p`.
    pub open spec fn move_down(self, x: NodeId, p: NodeId) -> TreeView<T> {
        let s = self.child_toward(p, x);
        let a = match self.parent(x) {
            Some(o) => self.with_children(o, without(self.children(o), x).push(s)),
            None => self,
        };
        let b = a.with_parent(s, self.parent(x)).with_children(x, without(self.children(x), s));
        let c = b.link(p, x);
        TreeView {
            root: if self.root == Some(x) {
                Some(s)
            } else {
                self.root
            },
            depths: Seq::new(
                self.depths.len(),
                |i: int|
                    {
                        let y = NodeId::from_idx(i as nat);
                        if self.in_subtree(y, s) {
                            (self.depths[i] - 1) as nat
                        } else if self.in_subtree(y, x) {
                            (self.depths[i] + self.depth(p) - self.depth(x)) as nat
                        } else {
                            self.depths[i]
                        }
                    },
            ),
            ..c
        }
    }

    /// Moving `x` to the end of the children of `p`, whichever way.
    pub open spec fn move_to_parent(self, x: NodeId, p: NodeId) -> TreeView<T> {
        if self.strictly_below(p, x) {
            self.move_down(x, p)
        } else {
            self.move_across(x, p)
        }
    }
}

/// Moving a node under a node of its own subtree keeps the tree well formed.
pub proof fn lemma_move_down_wf<T>(v: TreeView<T>, x: NodeId, p: NodeId)
    requires
        v.wf(),
        v.strictly_below(p, x),
    ensures
        v.move_down(x, p).wf(),
{
    let w = v.move_down(x, p);
    let s = v.child_toward(p, x);
    lemma_child_toward(v, p, x);
    assert(v.node_wf(x));
    assert(v.node_wf(p));
    assert(v.node_wf(s));
    lemma_in_subtree_self(v, x);
    lemma_in_subtree_self(v, s);
    lemma_without::<T>(v.children(x), s);
    assert(p != x);
    assert(!v.in_subtree(x, s));
    let o = v.parent(x);
    if o is Some {
        assert(v.node_wf(o->0));
        lemma_without::<T>(v.children(o->0), x);
        assert(!v.children(o->0).contains(s)) by {
            if v.children(o->0).contains(s) {
                let j = choose|j: int| 0 <= j < v.children(o->0).len() && v.children(o->0)[j] == s;
                assert(v.parent(v.children(o->0)[j]) == Some(o->0));
            }
        }
        assert(!without(v.children(o->0), x).contains(s));
        lemma_push_no_dup(without(v.children(o->0), x), s);
    }
    assert(!v.children(p).contains(x)) by {
        if v.children(p).contains(x) {
            let j = choose|j: int| 0 <= j < v.children(p).len() && v.children(p)[j] == x;
            assert(v.parent(v.children(p)[j]) == Some(p));
        }
    }
    lemma_push_no_dup(v.children(p), x);
    assert forall|y: NodeId| #[trigger] w.has(y) implies v.has(y) by {
    }
    assert forall|y: NodeId| v.has(y) implies #[trigger] w.has(y) by {
    }
    assert forall|y: NodeId| #[trigger] w.has(y) implies w.depth(y) == (if v.in_subtree(y, s) {
        (v.depth(y) - 1) as nat
    } else if v.in_subtree(y, x) {
        (v.depth(y) + v.depth(p) - v.depth(x)) as nat
    } else {
        v.depth(y)
    }) by {
        assert(NodeId::from_idx(y.idx()) == y);
    }
    assert(w.parent(x) == Some(p));
    assert(w.parent(s) == o);
    assert(w.children(x) == without(v.children(x), s));
    assert(w.children(p) == v.children(p).push(x));
    assert(w.children(p).contains(x)) by {
        assert(w.children(p)[v.children(p).len() as int] == x);
    }
    if o is Some {
        let oo = o->0;
        assert(w.children(oo) == without(v.children(oo), x).push(s));
        assert(w.children(oo).contains(s)) by {
            assert(w.children(oo)[without(v.children(oo), x).len() as int] == s);
        }
    }
    assert forall|y: NodeId| #[trigger] w.has(y) implies w.node_wf(y) by {
        assert(v.has(y));
        assert(v.node_wf(y));
        // The parent side.
        if y != x && y != s {
            assert(w.parent(y) == v.parent(y));
            if v.parent(y) is Some {
                let q = v.parent(y)->0;
                lemma_parent_step(v, y, x);
                lemma_parent_step(v, y, s);
                assert(v.node_wf(q));
                assert(w.children(q).contains(y)) by {
                    if o == Some(q) {
                        assert(without(v.children(q), x).contains(y));
                        let k = choose|k: int| 0 <= k < without(v.children(q), x).len() && without(v.children(q), x)[k] == y;
                        assert(w.children(q)[k] == y);
                    } else if q == x {
                        assert(without(v.children(x), s).contains(y));
                    } else if q == p {
                        let k = choose|k: int| 0 <= k < v.children(p).len() && v.children(p)[k] == y;
                        assert(w.children(p)[k] == y);
                    } else {
                        assert(w.children(q) == v.children(q));
                    }
                }
                if v.in_subtree(q, s) {
                    assert(v.depth(q) >= v.depth(s));
                }
            } else {
                lemma_no_parent_step(v, y, x);
                lemma_no_parent_step(v, y, s);
            }
        }
        // The children side.
        if y == p {
            assert forall|j: int| 0 <= j < w.children(p).len() implies {
                &&& w.has(#[trigger] w.children(p)[j])
                &&& w.parent(w.children(p)[j]) == Some(p)
            } by {
                if j < v.children(p).len() {
                    let c = v.children(p)[j];
                    assert(w.children(p)[j] == c);
                    assert(v.has(c) && v.parent(c) == Some(p));
                }
            }
        } else if y == x {
            let t = without(v.children(x), s);
            assert forall|j: int| 0 <= j < w.children(x).len() implies {
                &&& w.has(#[trigger] w.children(x)[j])
                &&& w.parent(w.children(x)[j]) == Some(x)
            } by {
                let c = t[j];
                assert(t.contains(c));
                let k = choose|k: int| 0 <= k < v.children(x).len() && v.children(x)[k] == c;
                assert(v.parent(v.children(x)[k]) == Some(x));
            }
        } else if o == Some(y) {
            let t = without(v.children(y), x);
            assert forall|j: int| 0 <= j < w.children(y).len() implies {
                &&& w.has(#[trigger] w.children(y)[j])
                &&& w.parent(w.children(y)[j]) == Some(y)
            } by {
                if j < t.len() {
                    let c = t[j];
                    assert(w.children(y)[j] == c);
                    assert(t.contains(c));
                    let k = choose|k: int| 0 <= k < v.children(y).len() && v.children(y)[k] == c;
                    assert(v.parent(v.children(y)[k]) == Some(y));
                }
            }
        } else {
            assert(w.children(y) == v.children(y));
            assert forall|j: int| 0 <= j < w.children(y).len() implies {
                &&& w.has(#[trigger] w.children(y)[j])
                &&& w.parent(w.children(y)[j]) == Some(y)
            } by {
                let c = v.children(y)[j];
                assert(v.has(c) && v.parent(c) == Some(y));
            }
        }
    }
    assert(w.free_ok()) by {
        assert forall|i: int| 0 <= i < w.free.len() implies {
            &&& (#[trigger] w.free[i]).idx() < w.slots.len()
            &&& w.slots[w.free[i].idx() as int] is None
        } by {
            assert(v.free[i] == w.free[i]);
        }
    }
    if v.root is Some {
        let r = v.root->0;
        assert(v.has(r));
        assert(v.node_wf(r));
    }
}

} // verus!

verus! {

impl<T> TreeView<T> {
    /// `x`, with its subtree, cut from its parent: it keeps its children but
    /// has no parent any more.
    pub open spec fn detach(self, x: NodeId) -> TreeView<T> {
        let d = match self.parent(x) {
            Some(o) => self.unlink(o, x),
            None => self,
        };
        d.with_parent(x, None).with_depths(self.shift_subtree(x, -self.depth(x)))
    }

    /// `x` cut from its parent and made the root.
    pub open spec fn detach_to_root(self, x: NodeId) -> TreeView<T> {
        TreeView { root: Some(x), ..self.detach(x) }
    }

    /// Moving `x`, with its subtree, to the root; the previous root becomes
    /// its last child.
    pub open spec fn move_to_root(self, x: NodeId) -> TreeView<T> {
        let a = self.detach_to_root(x);
        match self.root {
            Some(r) => a.move_to_parent(r, x),
            None => a,
        }
    }
}

/// Cutting a node from its parent keeps the tree well formed, as long as
/// the node is not the root.
pub proof fn lemma_detach_wf<T>(v: TreeView<T>, x: NodeId)
    requires
        v.wf(),
        v.has(x),
    ensures
        v.detach_to_root(x).wf(),
        v.root != Some(x) ==> v.detach(x).wf(),
        v.detach(x).has(x),
        v.detach(x).parent(x) is None,
        forall|y: NodeId| #[trigger] v.detach(x).has(y) <==> v.has(y),
{
    let w = v.detach(x);
    let delta = -v.depth(x);
    assert(v.node_wf(x));
    lemma_in_subtree_self(v, x);
    let o = v.parent(x);
    if o is Some {
        assert(v.node_wf(o->0));
        lemma_without::<T>(v.children(o->0), x);
        assert(o->0 != x);
    }
    assert forall|y: NodeId| #[trigger] w.has(y) <==> v.has(y) by {
    }
    assert forall|y: NodeId| #[trigger] w.has(y) implies w.depth(y) == (if v.in_subtree(y, x) {
        (v.depth(y) + delta) as nat
    } else {
        v.depth(y)
    }) by {
        assert(NodeId::from_idx(y.idx()) == y);
    }
    assert(w.parent(x) is None);
    assert(w.children(x) == v.children(x));
    assert forall|y: NodeId| #[trigger] w.has(y) implies w.node_wf(y) by {
        assert(v.has(y));
        assert(v.node_wf(y));
        if y != x {
            assert(w.parent(y) == v.parent(y));
            if v.parent(y) is Some {
                let q = v.parent(y)->0;
                lemma_parent_step(v, y, x);
                assert(v.node_wf(q));
                assert(w.children(q).contains(y)) by {
                    if o == Some(q) {
                        assert(without(v.children(q), x).contains(y));
                        assert(w.children(q) == without(v.children(q), x));
                    } else {
                        assert(w.children(q) == v.children(q));
                    }
                }
            } else {
                lemma_no_parent_step(v, y, x);
            }
        }
        if o == Some(y) {
            let s = without(v.children(y), x);
            assert(w.children(y) == s);
            assert forall|j: int| 0 <= j < w.children(y).len() implies {
                &&& w.has(#[trigger] w.children(y)[j])
                &&& w.parent(w.children(y)[j]) == Some(y)
            } by {
                let c = s[j];
                assert(s.contains(c));
                let k = choose|k: int| 0 <= k < v.children(y).len() && v.children(y)[k] == c;
                assert(v.parent(v.children(y)[k]) == Some(y));
            }
        } else {
            assert(w.children(y) == v.children(y));
            assert forall|j: int| 0 <= j < w.children(y).len() implies {
                &&& w.has(#[trigger] w.children(y)[j])
                &&& w.parent(w.children(y)[j]) == Some(y)
            } by {
                let c = v.children(y)[j];
                assert(v.has(c) && v.parent(c) == Some(y));
            }
        }
    }
    assert(w.free_ok()) by {
        assert forall|i: int| 0 <= i < w.free.len() implies {
            &&& (#[trigger] w.free[i]).idx() < w.slots.len()
            &&& w.slots[w.free[i].idx() as int] is None
        } by {
            assert(v.free[i] == w.free[i]);
        }
    }
    if v.root is Some && v.root != Some(x) {
        let r = v.root->0;
        assert(v.has(r));
        assert(w.parent(r) == v.parent(r));
    }
    let a = v.detach_to_root(x);
    assert forall|y: NodeId| #[trigger] a.has(y) implies a.node_wf(y) by {
        assert(w.has(y));
        assert(w.node_wf(y));
    }
    assert(a.free_ok());
}

} // verus!

verus! {

impl<T> TreeView<T> {
    /// Every node listed in `ids` given the parent `p`.
    pub open spec fn with_parent_all(self, ids: Seq<NodeId>, p: Option<NodeId>) -> TreeView<T> {
        TreeView {
            slots: Seq::new(
                self.slots.len(),
                |i: int|
                    if self.slots[i] is Some && ids.contains(NodeId::from_idx(i as nat)) {
                        Some(NodeView { parent: p, ..self.slots[i]->0 })
                    } else {
                        self.slots[i]
                    },
            ),
            ..self
        }
    }

    /// The slot of `x` vacated and listed last in `free`.
    pub open spec fn take_slot(self, x: NodeId) -> TreeView<T> {
        TreeView {
            slots: self.slots.update(x.idx() as int, None),
            free: self.free.push(x),
            ..self
        }
    }

    /// `x` removed: cut from its parent's children, its slot vacated, and the
    /// root cleared when `x` was the root.
    pub open spec fn remove_slot(self, x: NodeId) -> TreeView<T> {
        let a = match self.parent(x) {
            Some(p) => self.unlink(p, x),
            None => self,
        };
        TreeView {
            root: if self.root == Some(x) {
                None
            } else {
                self.root
            },
            ..a.take_slot(x)
        }
    }

    /// The depths with those strictly below `x` lowered by `delta`.
    pub open spec fn lower_below(self, x: NodeId, delta: nat) -> Seq<nat> {
        Seq::new(
            self.depths.len(),
            |i: int|
                if self.strictly_below(NodeId::from_idx(i as nat), x) {
                    (self.depths[i] - delta) as nat
                } else {
                    self.depths[i]
                },
        )
    }

    /// Removing `x` and leaving its children without a parent.
    pub open spec fn remove_orphaning(self, x: NodeId) -> TreeView<T> {
        self.with_parent_all(self.children(x), None).with_depths(
            self.lower_below(x, self.depth(x) + 1),
        ).remove_slot(x)
    }

    /// Removing `x` and handing its children to its parent, after the
    /// parent's own children; without a parent, as `remove_orphaning`.
    pub open spec fn remove_lifting(self, x: NodeId) -> TreeView<T> {
        match self.parent(x) {
            None => self.remove_orphaning(x),
            Some(p) => self.with_parent_all(self.children(x), Some(p)).with_children(
                p,
                self.children(p) + self.children(x),
            ).with_depths(self.lower_below(x, 1)).remove_slot(x),
        }
    }
}

/// Facts about a child of a node.
pub proof fn lemma_child_facts<T>(v: TreeView<T>, x: NodeId, c: NodeId)
    requires
        v.wf(),
        v.has(x),
        v.children(x).contains(c),
    ensures
        v.has(c),
        v.parent(c) == Some(x),
        v.depth(c) == v.depth(x) + 1,
        v.strictly_below(c, x),
        c != x,
{
    assert(v.node_wf(x));
    let j = choose|j: int| 0 <= j < v.children(x).len() && v.children(x)[j] == c;
    assert(v.has(v.children(x)[j]));
    assert(v.node_wf(c));
    lemma_in_subtree_self(v, x);
    lemma_parent_step(v, c, x);
}

/// Removing a node and orphaning its children keeps the tree well formed.
pub proof fn lemma_remove_orphaning_wf<T>(v: TreeView<T>, x: NodeId)
    requires
        v.wf(),
        v.has(x),
    ensures
        v.remove_orphaning(x).wf(),
        forall|y: NodeId| #[trigger] v.remove_orphaning(x).has(y) <==> (v.has(y) && y != x),
{
    let w = v.remove_orphaning(x);
    assert(v.node_wf(x));
    let o = v.parent(x);
    if o is Some {
        assert(v.node_wf(o->0));
        lemma_without::<T>(v.children(o->0), x);
        assert(o->0 != x);
        assert(!v.children(x).contains(o->0)) by {
            if v.children(x).contains(o->0) {
                lemma_child_facts(v, x, o->0);
            }
        }
    }
    assert forall|y: NodeId| #[trigger] w.has(y) <==> (v.has(y) && y != x) by {
        assert(NodeId::from_idx(y.idx()) == y);
    }
    assert forall|y: NodeId| #[trigger] w.has(y) implies {
        &&& w.depth(y) == (if v.strictly_below(y, x) {
            (v.depth(y) - v.depth(x) - 1) as nat
        } else {
            v.depth(y)
        })
        &&& w.parent(y) == (if v.children(x).contains(y) {
            None
        } else {
            v.parent(y)
        })
        &&& w.children(y) == (if o == Some(y) {
            without(v.children(y), x)
        } else {
            v.children(y)
        })
    } by {
        assert(NodeId::from_idx(y.idx()) == y);
    }
    assert forall|y: NodeId| #[trigger] w.has(y) implies w.node_wf(y) by {
        assert(v.has(y));
        assert(v.node_wf(y));
        if v.children(x).contains(y) {
            lemma_child_facts(v, x, y);
        } else if v.parent(y) is Some {
            let q = v.parent(y)->0;
            assert(q != x);
            lemma_parent_step(v, y, x);
            assert(v.node_wf(q));
            if o == Some(q) {
                assert(without(v.children(q), x).contains(y));
            }
        } else {
            if v.strictly_below(y, x) {
                lemma_strictly_below_has_parent(v, y, x);
            }
        }
        assert forall|j: int| 0 <= j < w.children(y).len() implies {
            &&& w.has(#[trigger] w.children(y)[j])
            &&& w.parent(w.children(y)[j]) == Some(y)
        } by {
            let c = w.children(y)[j];
            if o == Some(y) {
                assert(without(v.children(y), x).contains(c));
            } else {
                assert(v.children(y).contains(c));
            }
            lemma_child_facts(v, y, c);
            if v.children(x).contains(c) {
                lemma_child_facts(v, x, c);
            }
        }
    }
    assert(w.free_ok()) by {
        assert(v.free_ok());
        assert(!v.free.contains(x)) by {
            if v.free.contains(x) {
                let i = choose|i: int| 0 <= i < v.free.len() && v.free[i] == x;
            }
        }
        lemma_push_no_dup(v.free, x);
        assert forall|i: int| 0 <= i < w.free.len() implies {
            &&& (#[trigger] w.free[i]).idx() < w.slots.len()
            &&& w.slots[w.free[i].idx() as int] is None
        } by {
            if i < v.free.len() {
                assert(w.free[i] == v.free[i]);
            }
        }
    }
    if v.root is Some && v.root != Some(x) {
        let r = v.root->0;
        assert(v.has(r));
        assert(v.node_wf(r));
        if v.children(x).contains(r) {
            lemma_child_facts(v, x, r);
        }
    }
}

} // verus!

verus! {

/// Removing a node and handing its children to its parent keeps the tree
/// well formed.
#[verifier::spinoff_prover]
pub proof fn lemma_remove_lifting_wf<T>(v: TreeView<T>, x: NodeId)
    requires
        v.wf(),
        v.has(x),
    ensures
        v.remove_lifting(x).wf(),
        forall|y: NodeId| #[trigger] v.remove_lifting(x).has(y) <==> (v.has(y) && y != x),
{
    if v.parent(x) is None {
        lemma_remove_orphaning_wf(v, x);
        return;
    }
    let w = v.remove_lifting(x);
    let p = v.parent(x)->0;
    assert(v.node_wf(x));
    assert(v.node_wf(p));
    assert(p != x);
    assert(!v.children(x).contains(p)) by {
        if v.children(x).contains(p) {
            lemma_child_facts(v, x, p);
        }
    }
    let all = v.children(p) + v.children(x);
    lemma_without::<T>(all, x);
    assert(!v.children(x).contains(x)) by {
        if v.children(x).contains(x) {
            lemma_child_facts(v, x, x);
        }
    }
    assert(without(all, x) == without(v.children(p), x) + v.children(x)) by {
        vstd::seq::Seq::filter_distributes_over_add(v.children(p), v.children(x), differs_from(x));
        lemma_without::<T>(v.children(x), x);
    }
    lemma_without::<T>(v.children(p), x);
    // No node is a child of both p and x.
    assert forall|c: NodeId| v.children(x).contains(c) implies !#[trigger] v.children(p).contains(c) by {
        lemma_child_facts(v, x, c);
        if v.children(p).contains(c) {
            lemma_child_facts(v, p, c);
        }
    }
    assert(without(all, x).no_duplicates()) by {
        let a = without(v.children(p), x);
        let b = v.children(x);
        let s = a + b;
        assert forall|i: int, j: int| 0 <= i < s.len() && 0 <= j < s.len() && i != j implies s[i] != s[j] by {
            if i < a.len() && j >= a.len() {
                assert(a.contains(s[i]));
                assert(b.contains(s[j]));
            } else if j < a.len() && i >= a.len() {
                assert(a.contains(s[j]));
                assert(b.contains(s[i]));
            } else if i >= a.len() && j >= a.len() {
                assert(s[i] == b[i - a.len()] && s[j] == b[j - a.len()]);
            } else {
                assert(s[i] == a[i] && s[j] == a[j]);
            }
        }
    }
    assert forall|y: NodeId| #[trigger] w.has(y) <==> (v.has(y) && y != x) by {
        assert(NodeId::from_idx(y.idx()) == y);
    }
    assert forall|y: NodeId| #[trigger] w.has(y) implies {
        &&& w.depth(y) == (if v.strictly_below(y, x) {
            (v.depth(y) - 1) as nat
        } else {
            v.depth(y)
        })
        &&& w.parent(y) == (if v.children(x).contains(y) {
            Some(p)
        } else {
            v.parent(y)
        })
        &&& w.children(y) == (if y == p {
            without(all, x)
        } else {
            v.children(y)
        })
    } by {
        assert(NodeId::from_idx(y.idx()) == y);
    }
    assert forall|y: NodeId| #[trigger] w.has(y) implies w.node_wf(y) by {
        assert(v.has(y));
        assert(v.node_wf(y));
        if v.children(x).contains(y) {
            lemma_child_facts(v, x, y);
            assert(without(all, x).contains(y)) by {
                let k = choose|k: int| 0 <= k < v.children(x).len() && v.children(x)[k] == y;
                assert(all[v.children(p).len() + k] == y);
            }
        } else if v.parent(y) is Some {
            let q = v.parent(y)->0;
            assert(q != x);
            lemma_parent_step(v, y, x);
            assert(v.node_wf(q));
            if q == p {
                assert(without(all, x).contains(y)) by {
                    let k = choose|k: int| 0 <= k < v.children(p).len() && v.children(p)[k] == y;
                    assert(all[k] == y);
                }
            }
        } else {
            if v.strictly_below(y, x) {
                lemma_strictly_below_has_parent(v, y, x);
            }
        }
        assert forall|j: int| 0 <= j < w.children(y).len() implies {
            &&& w.has(#[trigger] w.children(y)[j])
            &&& w.parent(w.children(y)[j]) == Some(y)
        } by {
            let c = w.children(y)[j];
            if y == p {
                assert(without(all, x).contains(c));
                assert(all.contains(c));
                let k = choose|k: int| 0 <= k < all.len() && all[k] == c;
                if k < v.children(p).len() {
                    assert(v.children(p)[k] == c);
                    lemma_child_facts(v, p, c);
                } else {
                    assert(v.children(x)[k - v.children(p).len()] == c);
                    lemma_child_facts(v, x, c);
                }
            } else {
                assert(v.children(y).contains(c));
                lemma_child_facts(v, y, c);
                if v.children(x).contains(c) {
                    lemma_child_facts(v, x, c);
                }
            }
        }
    }
    assert(w.free_ok()) by {
        assert(v.free_ok());
        assert(!v.free.contains(x)) by {
            if v.free.contains(x) {
                let i = choose|i: int| 0 <= i < v.free.len() && v.free[i] == x;
            }
        }
        lemma_push_no_dup(v.free, x);
        assert forall|i: int| 0 <= i < w.free.len() implies {
            &&& (#[trigger] w.free[i]).idx() < w.slots.len()
            &&& w.slots[w.free[i].idx() as int] is None
        } by {
            if i < v.free.len() {
                assert(w.free[i] == v.free[i]);
            }
        }
    }
    if v.root is Some {
        let r = v.root->0;
        assert(v.has(r));
        assert(v.node_wf(r));
        assert(r != x);
        if v.children(x).contains(r) {
            lemma_child_facts(v, x, r);
        }
    }
}

} // verus!

verus! {

/// Re-parenting one more node.
pub proof fn lemma_with_parent_all_push<T>(v: TreeView<T>, ids: Seq<NodeId>, c: NodeId, p: Option<NodeId>)
    requires
        v.has(c),
        v.slots.len() <= u32::MAX + 1,
    ensures
        v.with_parent_all(ids.push(c), p) == v.with_parent_all(ids, p).with_parent(c, p),
{
    let a = v.with_parent_all(ids.push(c), p);
    let b = v.with_parent_all(ids, p).with_parent(c, p);
    assert forall|j: int| 0 <= j < v.slots.len() implies #[trigger] a.slots[j] == b.slots[j] by {
        let y = NodeId::from_idx(j as nat);
        assert(y.idx() == j);
        assert(ids.push(c).contains(y) <==> (ids.contains(y) || y == c)) by {
            if ids.push(c).contains(y) {
                let k = choose|k: int| 0 <= k < ids.push(c).len() && ids.push(c)[k] == y;
                if k < ids.len() {
                    assert(ids[k] == y);
                }
            }
            if ids.contains(y) {
                let k = choose|k: int| 0 <= k < ids.len() && ids[k] == y;
                assert(ids.push(c)[k] == y);
            }
            if y == c {
                assert(ids.push(c)[ids.len() as int] == y);
            }
        }
    }
    assert(a.slots =~= b.slots);
}

} // verus!

verus! {

impl<T> TreeView<T> {
    /// The nodes of the subtree of `x` in post-order (children's subtrees in
    /// order, then `x`), exploring at most `fuel` levels below `x`.
    pub open spec fn post_tree(self, x: NodeId, fuel: nat) -> Seq<NodeId>
        decreases fuel, 0nat,
    {
        if fuel == 0 {
            seq![x]
        } else {
            self.post_forest(self.children(x), (fuel - 1) as nat).push(x)
        }
    }

    /// The post-orders of the subtrees of `ids`, one after the other.
    pub open spec fn post_forest(self, ids: Seq<NodeId>, fuel: nat) -> Seq<NodeId>
        decreases fuel, ids.len() + 1,
    {
        if ids.len() == 0 {
            Seq::empty()
        } else {
            self.post_tree(ids[0], fuel) + self.post_forest(ids.drop_first(), fuel)
        }
    }

    /// The nodes of the subtree of `x` in post-order.
    pub open spec fn postorder(self, x: NodeId) -> Seq<NodeId> {
        self.post_tree(x, (self.slots.len() - self.depth(x)) as nat)
    }

    /// `y` lies in the subtree of one of `ids`.
    pub open spec fn in_forest(self, y: NodeId, ids: Seq<NodeId>) -> bool {
        exists|k: int| 0 <= k < ids.len() && self.in_subtree(y, #[trigger] ids[k])
    }

    /// Removing `x` with its whole subtree; the vacated slots are listed in
    /// post-order after the previously vacated ones.
    pub open spec fn remove_subtree(self, x: NodeId) -> TreeView<T> {
        let a = match self.parent(x) {
            Some(p) => self.unlink(p, x),
            None => self,
        };
        TreeView {
            root: if self.root == Some(x) {
                None
            } else {
                self.root
            },
            slots: Seq::new(
                self.slots.len(),
                |i: int|
                    if self.in_subtree(NodeId::from_idx(i as nat), x) {
                        None
                    } else {
                        a.slots[i]
                    },
            ),
            free: self.free + self.postorder(x),
            depths: self.depths,
        }
    }
}

/// Following `a` then `b` parent links is following `a + b` links.
pub proof fn lemma_ancestor_compose<T>(v: TreeView<T>, n: NodeId, a: nat, b: nat)
    requires
        v.ancestor_at(n, a) is Some,
    ensures
        v.ancestor_at(n, a + b) == v.ancestor_at(v.ancestor_at(n, a)->0, b),
    decreases a,
{
    if a > 0 {
        let p = v.parent(n)->0;
        lemma_ancestor_compose(v, p, (a - 1) as nat, b);
        assert((a - 1) as nat + b == (a + b - 1) as nat);
    }
}

/// Subtrees nest: what lies below `m`, which lies below `x`, lies below `x`.
pub proof fn lemma_in_subtree_trans<T>(v: TreeView<T>, n: NodeId, m: NodeId, x: NodeId)
    requires
        v.in_subtree(n, m),
        v.in_subtree(m, x),
    ensures
        v.in_subtree(n, x),
{
    let a = (v.depth(n) - v.depth(m)) as nat;
    let b = (v.depth(m) - v.depth(x)) as nat;
    lemma_ancestor_compose(v, n, a, b);
    assert(a + b == (v.depth(n) - v.depth(x)) as nat);
}

/// The subtree of `x` is `x` and the subtrees of its children.
pub proof fn lemma_subtree_split<T>(v: TreeView<T>, y: NodeId, x: NodeId)
    requires
        v.wf(),
        v.has(x),
    ensures
        v.in_subtree(y, x) <==> (y == x || v.in_forest(y, v.children(x))),
{
    if v.in_subtree(y, x) && y != x {
        lemma_child_toward(v, y, x);
        let s = v.child_toward(y, x);
        let k = choose|k: int| 0 <= k < v.children(x).len() && v.children(x)[k] == s;
        assert(v.in_subtree(y, v.children(x)[k]));
    }
    if v.in_forest(y, v.children(x)) {
        let k = choose|k: int| 0 <= k < v.children(x).len() && v.in_subtree(y, #[trigger] v.children(x)[k]);
        let c = v.children(x)[k];
        assert(v.children(x).contains(c));
        lemma_child_facts(v, x, c);
        lemma_in_subtree_trans(v, y, c, x);
    }
    if y == x {
        lemma_in_subtree_self(v, x);
    }
}

/// Subtrees of two different children do not meet.
pub proof fn lemma_sibling_subtrees_disjoint<T>(v: TreeView<T>, y: NodeId, x: NodeId, i: int, j: int)
    requires
        v.wf(),
        v.has(x),
        0 <= i < v.children(x).len(),
        0 <= j < v.children(x).len(),
        i != j,
        v.in_subtree(y, v.children(x)[i]),
    ensures
        !v.in_subtree(y, v.children(x)[j]),
{
    let ci = v.children(x)[i];
    let cj = v.children(x)[j];
    assert(v.children(x).contains(ci));
    assert(v.children(x).contains(cj));
    lemma_child_facts(v, x, ci);
    lemma_child_facts(v, x, cj);
    assert(v.node_wf(x));
    if v.in_subtree(y, cj) {
        let k = (v.depth(y) - v.depth(ci)) as nat;
        assert(v.ancestor_at(y, k) == Some(ci));
        assert(v.ancestor_at(y, k) == Some(cj));
    }
}

/// Two trees that agree on the parents and depths of the nodes of the
/// first, all of which the second has, agree on the subtrees those nodes
/// lie in.
pub proof fn lemma_subtree_frame<T>(u: TreeView<T>, v: TreeView<T>, y: NodeId, x: NodeId)
    requires
        u.wf(),
        v.wf(),
        forall|z: NodeId| #[trigger] u.has(z) ==> v.has(z) && u.parent(z) == v.parent(z) && u.depth(z) == v.depth(z),
        u.has(y),
    ensures
        u.in_subtree(y, x) <==> v.in_subtree(y, x),
{
    assert forall|k: nat| #[trigger] u.ancestor_at(y, k) == v.ancestor_at(y, k) by {
        lemma_ancestor_frame(u, v, y, k);
    }
    if v.in_subtree(y, x) {
        let k = (v.depth(y) - v.depth(x)) as nat;
        assert(u.ancestor_at(y, k) == v.ancestor_at(y, k));
        lemma_ancestor_chain(u, y, k);
    }
}

/// The frame of `lemma_subtree_frame`, one ancestor at a time.
pub proof fn lemma_ancestor_frame<T>(u: TreeView<T>, v: TreeView<T>, y: NodeId, k: nat)
    requires
        u.wf(),
        forall|z: NodeId| #[trigger] u.has(z) ==> v.has(z) && u.parent(z) == v.parent(z) && u.depth(z) == v.depth(z),
        u.has(y),
    ensures
        u.ancestor_at(y, k) == v.ancestor_at(y, k),
    decreases k,
{
    if k > 0 {
        assert(u.node_wf(y));
        if u.parent(y) is Some {
            lemma_ancestor_frame(u, v, u.parent(y)->0, (k - 1) as nat);
        }
    }
}

/// Post-orders of a forest with one more tree.
pub proof fn lemma_post_forest_push<T>(v: TreeView<T>, ids: Seq<NodeId>, z: NodeId, f: nat)
    ensures
        v.post_forest(ids.push(z), f) == v.post_forest(ids, f) + v.post_tree(z, f),
    decreases ids.len(),
{
    if ids.len() == 0 {
        assert(ids.push(z).drop_first() =~= Seq::<NodeId>::empty());
        assert(ids.push(z)[0] == z);
        assert(v.post_forest(ids.push(z).drop_first(), f) == Seq::<NodeId>::empty());
        assert(v.post_forest(ids, f) == Seq::<NodeId>::empty());
        assert(v.post_forest(ids.push(z), f) =~= v.post_tree(z, f) + Seq::<NodeId>::empty());
    } else {
        assert(ids.push(z).drop_first() =~= ids.drop_first().push(z));
        lemma_post_forest_push(v, ids.drop_first(), z, f);
        assert(ids.push(z)[0] == ids[0]);
    }
}

/// Post-orders only read the children lists of the nodes they list.
pub proof fn lemma_post_tree_frame<T>(u: TreeView<T>, v: TreeView<T>, z: NodeId, f: nat)
    requires
        v.wf(),
        v.has(z),
        forall|w: NodeId| #[trigger] v.in_subtree(w, z) ==> u.children(w) == v.children(w),
    ensures
        u.post_tree(z, f) == v.post_tree(z, f),
    decreases f, 0nat,
{
    lemma_in_subtree_self(v, z);
    if f > 0 {
        let ch = v.children(z);
        assert forall|k: int, w: NodeId|
            0 <= k < ch.len() && #[trigger] v.in_subtree(w, ch[k]) implies u.children(w) == v.children(w) by {
            assert(ch.contains(ch[k]));
            lemma_child_facts(v, z, ch[k]);
            lemma_in_subtree_trans(v, w, ch[k], z);
        }
        assert forall|k: int| 0 <= k < ch.len() implies v.has(#[trigger] ch[k]) by {
            assert(v.node_wf(z));
        }
        lemma_post_forest_frame(u, v, ch, (f - 1) as nat);
    }
}

/// `lemma_post_tree_frame` for forests.
pub proof fn lemma_post_forest_frame<T>(u: TreeView<T>, v: TreeView<T>, ids: Seq<NodeId>, f: nat)
    requires
        v.wf(),
        forall|k: int| 0 <= k < ids.len() ==> v.has(#[trigger] ids[k]),
        forall|k: int, w: NodeId|
            0 <= k < ids.len() && #[trigger] v.in_subtree(w, ids[k]) ==> u.children(w) == v.children(w),
    ensures
        u.post_forest(ids, f) == v.post_forest(ids, f),
    decreases f, ids.len() + 1,
{
    if ids.len() > 0 {
        assert(v.has(ids[0]));
        lemma_post_tree_frame(u, v, ids[0], f);
        let rest = ids.drop_first();
        assert forall|k: int| 0 <= k < rest.len() implies v.has(#[trigger] rest[k]) by {
            assert(rest[k] == ids[k + 1]);
        }
        assert forall|k: int, w: NodeId|
            0 <= k < rest.len() && #[trigger] v.in_subtree(w, rest[k]) implies u.children(w) == v.children(w) by {
            assert(rest[k] == ids[k + 1]);
        }
        lemma_post_forest_frame(u, v, rest, f);
    }
}

} // verus!

verus! {

/// Halfway through removing the subtree of `x` from `v`: the subtrees of
/// the first `i` children of `x` are gone, in post-order, and `x` lists
/// only the remaining children.
pub closed spec fn drop_progress<T>(v: TreeView<T>, cur: TreeView<T>, x: NodeId, i: int) -> bool {
    let ch = v.children(x);
    &&& 0 <= i <= ch.len()
    &&& cur.wf()
    &&& cur.slots.len() == v.slots.len()
    &&& cur.depths == v.depths
    &&& cur.root == v.root
    &&& forall|y: NodeId| #[trigger] cur.has(y) <==> (v.has(y) && !v.in_forest(y, ch.take(i)))
    &&& forall|y: NodeId| cur.has(y) && y != x ==> #[trigger] cur.node(y) == v.node(y)
    &&& cur.node(x) == NodeView { children: ch.skip(i), ..v.node(x) }
    &&& cur.free == v.free + v.post_forest(ch.take(i), (v.slots.len() - v.depth(x) - 1) as nat)
}

/// Removing the subtree of `x` starts with nothing removed.
pub proof fn lemma_drop_start<T>(v: TreeView<T>, x: NodeId)
    requires
        v.wf(),
        v.has(x),
    ensures
        drop_progress(v, v, x, 0),
{
    let ch = v.children(x);
    assert(ch.take(0) =~= Seq::<NodeId>::empty());
    assert(ch.skip(0) =~= ch);
    assert(v.post_forest(ch.take(0), (v.slots.len() - v.depth(x) - 1) as nat) == Seq::<NodeId>::empty());
    assert(v.free + Seq::<NodeId>::empty() =~= v.free);
    assert(v.node(x) == NodeView { children: ch.skip(0), ..v.node(x) });
}

/// The child `i` of `x` is still untouched halfway through removing the
/// subtree of `x`.
pub proof fn lemma_drop_child_intact<T>(v: TreeView<T>, cur: TreeView<T>, x: NodeId, i: int)
    requires
        v.wf(),
        v.has(x),
        0 <= i < v.children(x).len(),
        drop_progress(v, cur, x, i),
    ensures
        cur.has(v.children(x)[i]),
        cur.parent(v.children(x)[i]) == Some(x),
        cur.depth(v.children(x)[i]) == v.depth(x) + 1,
        v.strictly_below(v.children(x)[i], x),
        forall|z: NodeId| #[trigger] cur.has(z) ==> v.has(z) && cur.parent(z) == v.parent(z) && cur.depth(z) == v.depth(z),
        forall|w: NodeId| #[trigger] v.in_subtree(w, v.children(x)[i]) ==> cur.has(w) && w != x && cur.children(w) == v.children(w),
{
    let ch = v.children(x);
    let c = ch[i];
    assert(v.node_wf(x));
    assert(ch.contains(c));
    lemma_child_facts(v, x, c);
    lemma_in_subtree_self(v, c);
    assert(!v.in_forest(c, ch.take(i))) by {
        if v.in_forest(c, ch.take(i)) {
            let k = choose|k: int| 0 <= k < ch.take(i).len() && v.in_subtree(c, #[trigger] ch.take(i)[k]);
            assert(ch.take(i)[k] == ch[k]);
            lemma_sibling_subtrees_disjoint(v, c, x, i, k);
        }
    }
    assert(cur.has(c));
    assert(cur.node(c) == v.node(c));
    assert forall|z: NodeId| #[trigger] cur.has(z) implies v.has(z) && cur.parent(z) == v.parent(z) && cur.depth(z) == v.depth(z) by {
        if z != x {
            assert(cur.node(z) == v.node(z));
        }
    }
    assert forall|w: NodeId| #[trigger] v.in_subtree(w, c) implies cur.has(w) && w != x && cur.children(w) == v.children(w) by {
        if w == x {
            assert(v.depth(x) >= v.depth(c));
        }
        if v.in_forest(w, ch.take(i)) {
            let k = choose|k: int| 0 <= k < ch.take(i).len() && v.in_subtree(w, #[trigger] ch.take(i)[k]);
            assert(ch.take(i)[k] == ch[k]);
            lemma_sibling_subtrees_disjoint(v, w, x, i, k);
        }
        assert(cur.node(w) == v.node(w));
    }
}

/// Which nodes are left after removing the subtree of one more child.
pub proof fn lemma_drop_step_live<T>(v: TreeView<T>, cur: TreeView<T>, nxt: TreeView<T>, x: NodeId, i: int)
    requires
        v.wf(),
        v.has(x),
        0 <= i < v.children(x).len(),
        drop_progress(v, cur, x, i),
        nxt == cur.remove_subtree(v.children(x)[i]),
    ensures
        forall|y: NodeId| #[trigger] nxt.has(y) <==> (v.has(y) && !v.in_forest(y, v.children(x).take(i + 1))),
{
    let ch = v.children(x);
    let c = ch[i];
    lemma_drop_child_intact(v, cur, x, i);
    assert(ch.take(i + 1) =~= ch.take(i).push(c));
    assert forall|y: NodeId| #[trigger] nxt.has(y) <==> (v.has(y) && !v.in_forest(y, ch.take(i + 1))) by {
        assert(NodeId::from_idx(y.idx()) == y);
        let forest_i = v.in_forest(y, ch.take(i));
        assert(v.in_forest(y, ch.take(i + 1)) <==> (forest_i || v.in_subtree(y, c))) by {
            if v.in_forest(y, ch.take(i + 1)) {
                let k = choose|k: int| 0 <= k < ch.take(i + 1).len() && v.in_subtree(y, #[trigger] ch.take(i + 1)[k]);
                if k < i {
                    assert(ch.take(i)[k] == ch.take(i + 1)[k]);
                }
            }
            if forest_i {
                let k = choose|k: int| 0 <= k < ch.take(i).len() && v.in_subtree(y, #[trigger] ch.take(i)[k]);
                assert(ch.take(i + 1)[k] == ch.take(i)[k]);
            }
            if v.in_subtree(y, c) {
                assert(ch.take(i + 1)[i] == c);
            }
        }
        if cur.has(y) {
            lemma_subtree_frame(cur, v, y, c);
        }
    }
}

/// The vacated slots after removing the subtree of one more child.
pub proof fn lemma_drop_step_free<T>(v: TreeView<T>, cur: TreeView<T>, nxt: TreeView<T>, x: NodeId, i: int)
    requires
        v.wf(),
        v.has(x),
        0 <= i < v.children(x).len(),
        drop_progress(v, cur, x, i),
        nxt == cur.remove_subtree(v.children(x)[i]),
    ensures
        nxt.free == v.free + v.post_forest(v.children(x).take(i + 1), (v.slots.len() - v.depth(x) - 1) as nat),
{
    let ch = v.children(x);
    let c = ch[i];
    let f = (v.slots.len() - v.depth(x) - 1) as nat;
    lemma_drop_child_intact(v, cur, x, i);
    lemma_post_tree_frame(cur, v, c, f);
    assert(cur.postorder(c) == v.post_tree(c, f));
    assert(ch.take(i + 1) =~= ch.take(i).push(c));
    lemma_post_forest_push(v, ch.take(i), c, f);
    assert(nxt.free =~= v.free + v.post_forest(ch.take(i + 1), f));
}

/// The shape of a tree after removing the subtree of a node with a parent.
pub proof fn lemma_remove_subtree_shape<T>(u: TreeView<T>, c: NodeId, p: NodeId)
    requires
        u.has(c),
        u.has(p),
        u.parent(c) == Some(p),
        p != c,
        !u.in_subtree(p, c),
    ensures
        forall|y: NodeId| #[trigger] u.remove_subtree(c).has(y) <==> u.has(y) && !u.in_subtree(y, c),
        forall|y: NodeId| u.remove_subtree(c).has(y) && y != p ==> #[trigger] u.remove_subtree(c).node(y) == u.node(y),
        u.remove_subtree(c).node(p) == (NodeView { children: without(u.children(p), c), ..u.node(p) }),
        u.remove_subtree(c).depths == u.depths,
        u.remove_subtree(c).slots.len() == u.slots.len(),
        u.remove_subtree(c).root == (if u.root == Some(c) { None } else { u.root }),
{
    let r = u.remove_subtree(c);
    assert forall|y: NodeId| #[trigger] r.has(y) <==> u.has(y) && !u.in_subtree(y, c) by {
        assert(NodeId::from_idx(y.idx()) == y);
    }
    assert forall|y: NodeId| r.has(y) && y != p implies #[trigger] r.node(y) == u.node(y) by {
        assert(NodeId::from_idx(y.idx()) == y);
    }
    assert(NodeId::from_idx(p.idx()) == p);
}

/// Dropping the first of the remaining children.
pub proof fn lemma_without_skip<T>(ch: Seq<NodeId>, i: int)
    requires
        ch.no_duplicates(),
        0 <= i < ch.len(),
    ensures
        without(ch.skip(i), ch[i]) == ch.skip(i + 1),
{
    let c = ch[i];
    assert(!ch.skip(i + 1).contains(c)) by {
        if ch.skip(i + 1).contains(c) {
            let k = choose|k: int| 0 <= k < ch.skip(i + 1).len() && #[trigger] ch.skip(i + 1)[k] == c;
            assert(ch[i + 1 + k] == c);
        }
    }
    assert(ch.skip(i) =~= seq![c] + ch.skip(i + 1));
    vstd::seq::Seq::filter_distributes_over_add(seq![c], ch.skip(i + 1), differs_from(c));
    lemma_without::<T>(ch.skip(i + 1), c);
    assert(without(seq![c], c) =~= Seq::<NodeId>::empty()) by {
        assert(seq![c] =~= Seq::<NodeId>::empty().push(c));
        Seq::<NodeId>::empty().lemma_filter_push(c, differs_from(c));
        assert(without(Seq::<NodeId>::empty(), c) =~= Seq::<NodeId>::empty()) by {
            reveal(Seq::filter);
        }
    }
}

/// `x` itself stays while the subtrees of its children are removed.
pub proof fn lemma_drop_keeps_x<T>(v: TreeView<T>, cur: TreeView<T>, x: NodeId, i: int)
    requires
        v.wf(),
        v.has(x),
        0 <= i < v.children(x).len(),
        drop_progress(v, cur, x, i),
    ensures
        cur.has(x),
        !cur.in_subtree(x, v.children(x)[i]),
{
    let ch = v.children(x);
    let c = ch[i];
    assert(v.node_wf(x));
    lemma_in_subtree_self(v, x);
    assert(!v.in_forest(x, ch.take(i))) by {
        if v.in_forest(x, ch.take(i)) {
            let k = choose|k: int| 0 <= k < ch.take(i).len() && v.in_subtree(x, #[trigger] ch.take(i)[k]);
            assert(ch.take(i)[k] == ch[k]);
            assert(ch.contains(ch[k]));
            lemma_child_facts(v, x, ch[k]);
        }
    }
    assert(cur.has(x));
    lemma_drop_child_intact(v, cur, x, i);
    lemma_subtree_frame(cur, v, x, c);
    assert(ch.contains(c));
    lemma_child_facts(v, x, c);
    if v.in_subtree(x, c) {
        assert(v.depth(x) >= v.depth(c));
    }
}

/// The nodes after removing the subtree of one more child.
pub proof fn lemma_drop_step_nodes<T>(v: TreeView<T>, cur: TreeView<T>, nxt: TreeView<T>, x: NodeId, i: int)
    requires
        v.wf(),
        v.has(x),
        0 <= i < v.children(x).len(),
        drop_progress(v, cur, x, i),
        nxt == cur.remove_subtree(v.children(x)[i]),
    ensures
        forall|y: NodeId| nxt.has(y) && y != x ==> #[trigger] nxt.node(y) == v.node(y),
        nxt.node(x) == (NodeView { children: v.children(x).skip(i + 1), ..v.node(x) }),
        nxt.root == v.root,
        nxt.depths == v.depths,
        nxt.slots.len() == v.slots.len(),
{
    let ch = v.children(x);
    let c = ch[i];
    assert(v.node_wf(x));
    lemma_without_skip::<T>(ch, i);
    lemma_drop_keeps_x(v, cur, x, i);
    lemma_drop_child_intact(v, cur, x, i);
    lemma_remove_subtree_shape(cur, c, x);
    assert(cur.root != Some(c)) by {
        if cur.root == Some(c) {
            assert(cur.parent(c) is None);
        }
    }
}

/// Before removing the subtree of the child `i` of `x`.
pub proof fn lemma_drop_pre<T>(v: TreeView<T>, cur: TreeView<T>, x: NodeId, i: int)
    requires
        v.wf(),
        v.has(x),
        0 <= i < v.children(x).len(),
        drop_progress(v, cur, x, i),
    ensures
        cur.wf(),
        cur.slots.len() == v.slots.len(),
        cur.has(v.children(x)[i]),
        cur.depth(v.children(x)[i]) == v.depth(x) + 1,
{
    lemma_drop_child_intact(v, cur, x, i);
}

/// One child's subtree further.
pub proof fn lemma_drop_step<T>(v: TreeView<T>, cur: TreeView<T>, nxt: TreeView<T>, x: NodeId, i: int)
    requires
        v.wf(),
        v.has(x),
        0 <= i < v.children(x).len(),
        drop_progress(v, cur, x, i),
        cur.has(v.children(x)[i]) ==> nxt == cur.remove_subtree(v.children(x)[i]) && nxt.wf(),
    ensures
        cur.wf(),
        cur.slots.len() == v.slots.len(),
        cur.has(v.children(x)[i]),
        cur.depth(v.children(x)[i]) == v.depth(x) + 1,
        drop_progress(v, nxt, x, i + 1),
{
    lemma_drop_child_intact(v, cur, x, i);
    lemma_drop_step_live(v, cur, nxt, x, i);
    lemma_drop_step_nodes(v, cur, nxt, x, i);
    lemma_drop_step_free(v, cur, nxt, x, i);
}

/// With all the children's subtrees gone, removing `x` itself completes
/// the removal of its subtree.
pub proof fn lemma_drop_finish<T>(v: TreeView<T>, cur: TreeView<T>, x: NodeId)
    requires
        v.wf(),
        v.has(x),
        drop_progress(v, cur, x, v.children(x).len() as int),
    ensures
        cur.has(x),
        cur.node(x).data == v.node(x).data,
        cur.parent(x) matches Some(p) ==> cur.has(p) && p != x,
        cur.remove_slot(x) == v.remove_subtree(x),
        cur.remove_slot(x).wf(),
{
    let ch = v.children(x);
    let f = (v.slots.len() - v.depth(x) - 1) as nat;
    assert(ch.take(ch.len() as int) =~= ch);
    assert(ch.skip(ch.len() as int) =~= Seq::<NodeId>::empty());
    lemma_in_subtree_self(v, x);
    assert(v.node_wf(x));
    assert(!v.in_forest(x, ch)) by {
        if v.in_forest(x, ch) {
            let k = choose|k: int| 0 <= k < ch.len() && v.in_subtree(x, #[trigger] ch[k]);
            assert(ch.contains(ch[k]));
            lemma_child_facts(v, x, ch[k]);
        }
    }
    assert(cur.has(x));
    assert(cur.node_wf(x));
    // x is a leaf now, so removing it orphans nothing.
    lemma_remove_orphaning_wf(cur, x);
    assert(cur.children(x) == Seq::<NodeId>::empty());
    assert forall|y: NodeId| !#[trigger] cur.strictly_below(y, x) by {
        if cur.strictly_below(y, x) {
            lemma_child_toward(cur, y, x);
        }
    }
    assert(cur.with_parent_all(cur.children(x), None).slots =~= cur.slots);
    assert(cur.lower_below(x, cur.depth(x) + 1) =~= cur.depths);
    assert(cur.remove_orphaning(x) == cur.remove_slot(x));
    // The result is the removal of the whole subtree.
    let w = cur.remove_slot(x);
    let r = v.remove_subtree(x);
    lemma_depth_bound(v, x);
    assert(v.postorder(x) == v.post_forest(ch, f).push(x));
    assert(w.free =~= r.free);
    if v.parent(x) is Some {
        let p = v.parent(x)->0;
        assert(v.node_wf(p));
        assert(!v.in_subtree(p, x)) by {
            if v.in_subtree(p, x) {
                assert(v.depth(p) >= v.depth(x));
            }
        }
        lemma_subtree_split(v, p, x);
        assert(cur.has(p));
        assert(cur.node(p) == v.node(p));
    }
    assert forall|j: int| 0 <= j < v.slots.len() implies #[trigger] w.slots[j] == r.slots[j] by {
        let y = NodeId::from_idx(j as nat);
        assert(y.idx() == j);
        lemma_subtree_split(v, y, x);
        if !v.in_subtree(y, x) {
            if v.has(y) {
                assert(cur.has(y));
                assert(cur.node(y) == v.node(y));
            } else {
                assert(!cur.has(y));
            }
        } else if y != x {
            assert(!cur.has(y));
        }
    }
    assert(w.slots =~= r.slots);
    if v.root is Some {
        let rt = v.root->0;
        assert(v.node_wf(rt));
    }
}

} // verus!

verus! {

impl<T> TreeView<T> {
    /// The number of levels of the subtree of `x`, exploring at most `fuel`
    /// levels below `x`.
    pub open spec fn height_tree(self, x: NodeId, fuel: nat) -> nat
        decreases fuel, 0nat,
    {
        if fuel == 0 {
            1
        } else {
            1 + self.height_forest(self.children(x), (fuel - 1) as nat)
        }
    }

    /// The largest number of levels among the subtrees of `ids` (0 for
    /// none).
    pub open spec fn height_forest(self, ids: Seq<NodeId>, fuel: nat) -> nat
        decreases fuel, ids.len() + 1,
    {
        if ids.len() == 0 {
            0
        } else {
            let a = self.height_tree(ids[0], fuel);
            let b = self.height_forest(ids.drop_first(), fuel);
            if a >= b {
                a
            } else {
                b
            }
        }
    }

    /// The number of levels of the subtree of `x`: 1 for a leaf.
    pub open spec fn height_of(self, x: NodeId) -> nat {
        self.height_tree(x, (self.slots.len() - self.depth(x)) as nat)
    }

    /// The number of levels of the tree below its root; 0 without a root.
    pub open spec fn height(self) -> nat {
        match self.root {
            Some(r) => self.height_of(r),
            None => 0,
        }
    }
}

/// Heights of a forest with one more tree.
pub proof fn lemma_height_forest_push<T>(v: TreeView<T>, ids: Seq<NodeId>, z: NodeId, f: nat)
    ensures
        v.height_forest(ids.push(z), f) == (if v.height_forest(ids, f) >= v.height_tree(z, f) {
            v.height_forest(ids, f)
        } else {
            v.height_tree(z, f)
        }),
    decreases ids.len(),
{
    if ids.len() == 0 {
        assert(ids.push(z).drop_first() =~= Seq::<NodeId>::empty());
        assert(ids.push(z)[0] == z);
        assert(v.height_forest(ids.push(z).drop_first(), f) == 0);
    } else {
        assert(ids.push(z).drop_first() =~= ids.drop_first().push(z));
        lemma_height_forest_push(v, ids.drop_first(), z, f);
        assert(ids.push(z)[0] == ids[0]);
    }
}

/// A subtree has no more levels than there are depths below its top.
pub proof fn lemma_height_bound<T>(v: TreeView<T>, x: NodeId, f: nat)
    requires
        v.wf(),
        v.has(x),
    ensures
        1 <= v.height_tree(x, f) <= v.slots.len() - v.depth(x),
    decreases f, 0nat,
{
    lemma_depth_bound(v, x);
    if f > 0 {
        assert(v.node_wf(x));
        lemma_height_forest_bound(v, v.children(x), (f - 1) as nat, v.depth(x) + 1);
    }
}

/// `lemma_height_bound` for the children of a node at depth `d - 1`.
pub proof fn lemma_height_forest_bound<T>(v: TreeView<T>, ids: Seq<NodeId>, f: nat, d: nat)
    requires
        v.wf(),
        forall|k: int| 0 <= k < ids.len() ==> v.has(#[trigger] ids[k]) && v.depth(ids[k]) == d,
        1 <= d <= v.slots.len(),
    ensures
        v.height_forest(ids, f) <= v.slots.len() - d + 1,
        ids.len() > 0 ==> v.height_forest(ids, f) <= v.slots.len() - d,
    decreases f, ids.len() + 1,
{
    if ids.len() > 0 {
        assert(v.has(ids[0]));
        lemma_height_bound(v, ids[0], f);
        let rest = ids.drop_first();
        assert forall|k: int| 0 <= k < rest.len() implies v.has(#[trigger] rest[k]) && v.depth(rest[k]) == d by {
            assert(rest[k] == ids[k + 1]);
        }
        lemma_height_forest_bound(v, rest, f, d);
    }
}

/// With `f` levels to explore, the height of the subtree of `x` is one more
/// than the deepest level reached: every node of the subtree within `f`
/// levels of `x` lies above the height, and some node lies just above it.
pub proof fn lemma_height_tree_exact<T>(v: TreeView<T>, x: NodeId, f: nat)
    requires
        v.wf(),
        v.has(x),
    ensures
        forall|y: NodeId|
            v.in_subtree(y, x) && v.depth(y) <= v.depth(x) + f ==> v.depth(y) < v.depth(x)
                + v.height_tree(x, f),
        exists|y: NodeId| v.in_subtree(y, x) && v.depth(y) + 1 == v.depth(x) + v.height_tree(x, f),
    decreases f, 0nat,
{
    lemma_in_subtree_self(v, x);
    if f == 0 {
        assert forall|y: NodeId|
            v.in_subtree(y, x) && v.depth(y) <= v.depth(x) + f implies v.depth(y) < v.depth(x)
                + v.height_tree(x, f) by {
        }
        assert(v.depth(x) + 1 == v.depth(x) + v.height_tree(x, f));
    } else {
        assert(v.node_wf(x));
        let ch = v.children(x);
        let d = v.depth(x) + 1;
        assert forall|k: int| 0 <= k < ch.len() implies v.has(#[trigger] ch[k]) && v.depth(ch[k]) == d by {
            assert(v.node_wf(ch[k]));
        }
        lemma_height_forest_exact(v, ch, (f - 1) as nat, d);
        let hf = v.height_forest(ch, (f - 1) as nat);
        assert(v.height_tree(x, f) == 1 + hf);
        assert forall|y: NodeId|
            v.in_subtree(y, x) && v.depth(y) <= v.depth(x) + f implies v.depth(y) < v.depth(x)
                + v.height_tree(x, f) by {
            lemma_subtree_split(v, y, x);
            if y != x {
                let k = choose|k: int| 0 <= k < ch.len() && #[trigger] v.in_subtree(y, ch[k]);
                assert(v.depth(y) < d + hf);
            }
        }
        if ch.len() == 0 {
            assert(hf == 0);
            assert(v.depth(x) + 1 == v.depth(x) + v.height_tree(x, f));
        } else {
            let (y, k) = choose|y: NodeId, k: int|
                0 <= k < ch.len() && #[trigger] v.in_subtree(y, ch[k]) && v.depth(y) + 1 == d + hf;
            lemma_subtree_split(v, y, x);
            assert(v.in_forest(y, ch));
            assert(v.in_subtree(y, x) && v.depth(y) + 1 == v.depth(x) + v.height_tree(x, f));
        }
    }
}

/// `lemma_height_tree_exact` for a forest of nodes at depth `d`.
pub proof fn lemma_height_forest_exact<T>(v: TreeView<T>, ids: Seq<NodeId>, f: nat, d: nat)
    requires
        v.wf(),
        forall|k: int| 0 <= k < ids.len() ==> v.has(#[trigger] ids[k]) && v.depth(ids[k]) == d,
    ensures
        forall|y: NodeId, k: int|
            0 <= k < ids.len() && #[trigger] v.in_subtree(y, ids[k]) && v.depth(y) <= d + f
                ==> v.depth(y) < d + v.height_forest(ids, f),
        ids.len() > 0 ==> exists|y: NodeId, k: int|
            0 <= k < ids.len() && #[trigger] v.in_subtree(y, ids[k]) && v.depth(y) + 1 == d
                + v.height_forest(ids, f),
    decreases f, ids.len() + 1,
{
    if ids.len() > 0 {
        let rest = ids.drop_first();
        assert(v.has(ids[0]) && v.depth(ids[0]) == d);
        lemma_height_tree_exact(v, ids[0], f);
        assert forall|k: int| 0 <= k < rest.len() implies v.has(#[trigger] rest[k]) && v.depth(rest[k]) == d by {
            assert(rest[k] == ids[k + 1]);
        }
        lemma_height_forest_exact(v, rest, f, d);
        let a = v.height_tree(ids[0], f);
        let b = v.height_forest(rest, f);
        assert forall|y: NodeId, k: int|
            0 <= k < ids.len() && #[trigger] v.in_subtree(y, ids[k]) && v.depth(y) <= d + f
                implies v.depth(y) < d + v.height_forest(ids, f) by {
            if k > 0 {
                assert(rest[k - 1] == ids[k]);
                assert(v.depth(y) < d + b);
            } else {
                assert(v.depth(y) < d + a);
            }
        }
        if a >= b {
            let y = choose|y: NodeId| v.in_subtree(y, ids[0]) && v.depth(y) + 1 == v.depth(ids[0]) + a;
            assert(v.in_subtree(y, ids[0]) && v.depth(y) + 1 == d + v.height_forest(ids, f));
        } else {
            assert(rest.len() > 0);
            let (y, k) = choose|y: NodeId, k: int|
                0 <= k < rest.len() && #[trigger] v.in_subtree(y, rest[k]) && v.depth(y) + 1 == d + b;
            assert(rest[k] == ids[k + 1]);
            assert(v.in_subtree(y, ids[k + 1]) && v.depth(y) + 1 == d + v.height_forest(ids, f));
        }
    }
}

} // verus!
