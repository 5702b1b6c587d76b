use vstd::prelude::*;

use crate::model::{lemma_depth_bound, TreeView};
use crate::node_id::{group_node_id, NodeId};

verus! {

broadcast use group_node_id;

impl<T> TreeView<T> {
    /// The nodes above `x`, nearest first: its parent, its parent's parent,
    /// and so on up to the top of its chain.
    pub open spec fn ancestors_of(self, x: NodeId) -> Seq<NodeId> {
        Seq::new(self.depth(x), |k: int| self.ancestor_at(x, (k + 1) as nat)->0)
    }

    /// The subtree of `x` in pre-order (a node, then the subtrees of its
    /// children from first to last), exploring at most `fuel` levels below
    /// `x`.
    pub open spec fn pre_tree(self, x: NodeId, fuel: nat) -> Seq<NodeId>
        decreases fuel, 0nat,
    {
        if fuel == 0 {
            seq![x]
        } else {
            seq![x] + self.pre_forest(self.children(x), (fuel - 1) as nat)
        }
    }

    /// The pre-orders of the subtrees of `ids`, one after the other.
    pub open spec fn pre_forest(self, ids: Seq<NodeId>, fuel: nat) -> Seq<NodeId>
        decreases fuel, ids.len() + 1,
    {
        if ids.len() == 0 {
            Seq::empty()
        } else {
            self.pre_tree(ids[0], fuel) + self.pre_forest(ids.drop_first(), fuel)
        }
    }

    /// The subtree of `x` in pre-order.
    pub open spec fn preorder(self, x: NodeId) -> Seq<NodeId> {
        self.pre_tree(x, (self.slots.len() - self.depth(x)) as nat)
    }

    /// The pre-orders of the subtrees of `ids`, one after the other, each
    /// taken in full.
    pub open spec fn preorder_all(self, ids: Seq<NodeId>) -> Seq<NodeId>
        decreases ids.len(),
    {
        if ids.len() == 0 {
            Seq::empty()
        } else {
            self.preorder(ids[0]) + self.preorder_all(ids.drop_first())
        }
    }
}

/// The first ancestor of a node is its parent, and the ancestors of the
/// parent follow.
pub proof fn lemma_ancestors_step<T>(v: TreeView<T>, x: NodeId)
    requires
        v.wf(),
        v.has(x),
    ensures
        v.parent(x) is None ==> v.ancestors_of(x).len() == 0,
        v.parent(x) matches Some(p) ==> {
            &&& v.has(p)
            &&& v.ancestors_of(x).len() > 0
            &&& v.ancestors_of(x)[0] == p
            &&& v.ancestors_of(p) == v.ancestors_of(x).drop_first()
        },
{
    assert(v.node_wf(x));
    if let Some(p) = v.parent(x) {
        assert(v.ancestor_at(x, 1) == v.ancestor_at(p, 0));
        assert forall|k: int| 0 <= k < v.ancestors_of(p).len() implies v.ancestors_of(p)[k]
            == v.ancestors_of(x).drop_first()[k] by {
            assert(v.ancestor_at(x, (k + 2) as nat) == v.ancestor_at(p, (k + 1) as nat));
        }
        assert(v.ancestors_of(p) =~= v.ancestors_of(x).drop_first());
    }
}

/// Pre-order of a node: itself, then its children's subtrees in full.
pub proof fn lemma_preorder_unfold<T>(v: TreeView<T>, x: NodeId)
    requires
        v.wf(),
        v.has(x),
    ensures
        v.preorder(x) == seq![x] + v.preorder_all(v.children(x)),
{
    lemma_depth_bound(v, x);
    assert(v.node_wf(x));
    let f = (v.slots.len() - v.depth(x)) as nat;
    assert(f > 0);
    let ch = v.children(x);
    assert forall|k: int| 0 <= k < ch.len() implies v.has(#[trigger] ch[k]) && v.depth(ch[k])
        == v.depth(x) + 1 by {
        assert(v.node_wf(ch[k]));
    }
    lemma_pre_forest_full(v, ch, v.depth(x) + 1);
}

/// With every id at depth `d`, exploring `len - d` levels below each takes
/// each subtree in full.
pub proof fn lemma_pre_forest_full<T>(v: TreeView<T>, ids: Seq<NodeId>, d: nat)
    requires
        v.wf(),
        forall|k: int| 0 <= k < ids.len() ==> v.has(#[trigger] ids[k]) && v.depth(ids[k]) == d,
        d <= v.slots.len(),
    ensures
        v.pre_forest(ids, (v.slots.len() - d) as nat) == v.preorder_all(ids),
    decreases ids.len(),
{
    if ids.len() > 0 {
        assert(v.has(ids[0]));
        let rest = ids.drop_first();
        assert forall|k: int| 0 <= k < rest.len() implies v.has(#[trigger] rest[k]) && v.depth(
            rest[k],
        ) == d by {
            assert(rest[k] == ids[k + 1]);
        }
        lemma_pre_forest_full(v, rest, d);
    }
}

/// Pre-order of a concatenation of forests.
pub proof fn lemma_preorder_all_append<T>(v: TreeView<T>, a: Seq<NodeId>, b: Seq<NodeId>)
    ensures
        v.preorder_all(a + b) == v.preorder_all(a) + v.preorder_all(b),
    decreases a.len(),
{
    if a.len() == 0 {
        assert(a + b =~= b);
        assert(v.preorder_all(a) + v.preorder_all(b) =~= v.preorder_all(b));
    } else {
        assert((a + b).drop_first() =~= a.drop_first() + b);
        assert((a + b)[0] == a[0]);
        lemma_preorder_all_append(v, a.drop_first(), b);
        assert(v.preorder_all(a + b) =~= v.preorder_all(a) + v.preorder_all(b));
    }
}

/// Pre-order of a single subtree, as a forest of one.
pub proof fn lemma_preorder_all_single<T>(v: TreeView<T>, x: NodeId)
    ensures
        v.preorder_all(seq![x]) == v.preorder(x),
{
    assert(seq![x].drop_first() =~= Seq::<NodeId>::empty());
    assert(v.preorder_all(Seq::<NodeId>::empty()) == Seq::<NodeId>::empty());
    assert(v.preorder_all(seq![x]) == v.preorder(x) + v.preorder_all(seq![x].drop_first()));
    assert(v.preorder(x) + Seq::<NodeId>::empty() =~= v.preorder(x));
}

/// Two sequences without duplicates and without a common element join into
/// one without duplicates.
pub proof fn lemma_concat_no_dup(a: Seq<NodeId>, b: Seq<NodeId>)
    requires
        a.no_duplicates(),
        b.no_duplicates(),
        forall|y: NodeId| a.contains(y) ==> !b.contains(y),
    ensures
        (a + b).no_duplicates(),
{
    let s = a + b;
    assert forall|i: int, j: int| 0 <= i < s.len() && 0 <= j < s.len() && i != j implies s[i] != s[j] by {
        if i < a.len() && j >= a.len() {
            assert(a.contains(s[i]));
            assert(b[j - a.len()] == s[j]);
        } else if j < a.len() && i >= a.len() {
            assert(a.contains(s[j]));
            assert(b[i - a.len()] == s[i]);
        } else if i >= a.len() && j >= a.len() {
            assert(b[i - a.len()] == s[i] && b[j - a.len()] == s[j]);
        }
    }
}

/// Nodes at the same depth have disjoint subtrees unless they are the same.
pub proof fn lemma_same_depth_disjoint<T>(v: TreeView<T>, y: NodeId, a: NodeId, b: NodeId)
    requires
        v.in_subtree(y, a),
        v.in_subtree(y, b),
        v.depth(a) == v.depth(b),
    ensures
        a == b,
{
}

/// The subtree of `x`, drawn from `len - depth(x)` levels, lists exactly
/// the nodes of the subtree, `x` first, each once.
pub proof fn lemma_pre_tree_exact<T>(v: TreeView<T>, x: NodeId)
    requires
        v.wf(),
        v.has(x),
    ensures
        v.preorder(x).len() > 0,
        v.preorder(x)[0] == x,
        v.preorder(x).no_duplicates(),
        forall|y: NodeId| v.preorder(x).contains(y) <==> v.in_subtree(y, x),
    decreases v.slots.len() - v.depth(x), 0nat,
{
    lemma_depth_bound(v, x);
    lemma_preorder_unfold(v, x);
    assert(v.node_wf(x));
    let ch = v.children(x);
    let d = v.depth(x) + 1;
    assert forall|k: int| 0 <= k < ch.len() implies v.has(#[trigger] ch[k]) && v.depth(ch[k]) == d by {
        assert(v.node_wf(ch[k]));
    }
    if ch.len() > 0 {
        lemma_depth_bound(v, ch[0]);
    }
    lemma_preorder_all_exact(v, ch, d);
    let rest = v.preorder_all(ch);
    assert forall|y: NodeId| v.preorder(x).contains(y) <==> v.in_subtree(y, x) by {
        crate::model::lemma_subtree_split(v, y, x);
        if v.preorder(x).contains(y) && y != x {
            let i = choose|i: int| 0 <= i < v.preorder(x).len() && v.preorder(x)[i] == y;
            assert(rest[i - 1] == y);
        }
        if v.in_subtree(y, x) && y != x {
            let i = choose|i: int| 0 <= i < rest.len() && rest[i] == y;
            assert(v.preorder(x)[i + 1] == y);
        }
        if y == x {
            assert(v.preorder(x)[0] == x);
        }
    }
    assert(!rest.contains(x)) by {
        if rest.contains(x) {
            assert(v.in_forest(x, ch));
            let k = choose|k: int| 0 <= k < ch.len() && v.in_subtree(x, #[trigger] ch[k]);
            assert(v.depth(ch[k]) == d);
        }
    }
    lemma_concat_no_dup(seq![x], rest);
}

/// The subtrees of distinct nodes at one depth `d`, in full and one after
/// the other, list exactly the nodes of those subtrees, each once.
pub proof fn lemma_preorder_all_exact<T>(v: TreeView<T>, ids: Seq<NodeId>, d: nat)
    requires
        v.wf(),
        ids.no_duplicates(),
        forall|k: int| 0 <= k < ids.len() ==> v.has(#[trigger] ids[k]) && v.depth(ids[k]) == d,
        ids.len() > 0 ==> d < v.slots.len(),
    ensures
        v.preorder_all(ids).no_duplicates(),
        forall|y: NodeId| v.preorder_all(ids).contains(y) <==> v.in_forest(y, ids),
    decreases v.slots.len() - d, ids.len(),
{
    if ids.len() == 0 {
        assert(v.preorder_all(ids) =~= Seq::<NodeId>::empty());
    } else {
        let a = ids[0];
        let rest = ids.drop_first();
        assert(v.has(a) && v.depth(a) == d);
        lemma_pre_tree_exact(v, a);
        assert forall|k: int| 0 <= k < rest.len() implies v.has(#[trigger] rest[k]) && v.depth(
            rest[k],
        ) == d by {
            assert(rest[k] == ids[k + 1]);
        }
        assert(rest.no_duplicates()) by {
            assert forall|i: int, j: int|
                0 <= i < rest.len() && 0 <= j < rest.len() && i != j implies rest[i] != rest[j] by {
                assert(rest[i] == ids[i + 1] && rest[j] == ids[j + 1]);
            }
        }
        lemma_preorder_all_exact(v, rest, d);
        let pa = v.preorder(a);
        let pr = v.preorder_all(rest);
        assert forall|y: NodeId| pa.contains(y) implies !pr.contains(y) by {
            if pr.contains(y) {
                assert(v.in_forest(y, rest));
                let k = choose|k: int| 0 <= k < rest.len() && v.in_subtree(y, #[trigger] rest[k]);
                assert(v.depth(rest[k]) == d);
                lemma_same_depth_disjoint(v, y, a, rest[k]);
                assert(ids[0] == ids[k + 1]);
            }
        }
        lemma_concat_no_dup(pa, pr);
        assert forall|y: NodeId| v.preorder_all(ids).contains(y) <==> v.in_forest(y, ids) by {
            let all = v.preorder_all(ids);
            assert(all == pa + pr);
            if all.contains(y) {
                let i = choose|i: int| 0 <= i < all.len() && all[i] == y;
                if i < pa.len() {
                    assert(pa.contains(y));
                    assert(v.in_subtree(y, ids[0]));
                } else {
                    assert(pr[i - pa.len()] == y);
                    assert(v.in_forest(y, rest));
                    let k = choose|k: int| 0 <= k < rest.len() && v.in_subtree(y, #[trigger] rest[k]);
                    assert(v.in_subtree(y, ids[k + 1]));
                }
            }
            if v.in_forest(y, ids) {
                let k = choose|k: int| 0 <= k < ids.len() && v.in_subtree(y, #[trigger] ids[k]);
                if k == 0 {
                    let i = choose|i: int| 0 <= i < pa.len() && pa[i] == y;
                    assert(all[i] == y);
                } else {
                    assert(v.in_subtree(y, rest[k - 1]));
                    assert(v.in_forest(y, rest));
                    let i = choose|i: int| 0 <= i < pr.len() && pr[i] == y;
                    assert(all[pa.len() + i] == y);
                }
            }
        }
    }
}

} // verus!
