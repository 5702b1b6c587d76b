use vstd::prelude::*;

use crate::model::{
    differs_from, lemma_ancestor_chain, lemma_child_facts, lemma_child_toward, lemma_depth_bound,
    lemma_detach_wf, lemma_height_bound, lemma_height_tree_exact, lemma_in_subtree_self, lemma_insert_as_root_wf,
    lemma_insert_under_wf, lemma_next_id_vacant, lemma_no_parent_step, lemma_without, without,
    TreeView,
};
use crate::node_id::{group_node_id, NodeId};
use crate::order::{lemma_ancestors_step, lemma_pre_tree_exact};

verus! {

broadcast use group_node_id;

/// Inserting under a node gives back what was inserted: the new node holds
/// the data, hangs last under the parent, has no children, and every node
/// that was there before is still there with its data.
pub proof fn law_insert_under_reads_back<T>(v: TreeView<T>, data: T, p: NodeId)
    requires
        v.wf(),
        v.has(p),
        v.can_allocate(),
    ensures
        ({
            let u = v.insert_under(data, p);
            let id = v.next_id();
            &&& !v.has(id)
            &&& u.has(id)
            &&& u.node(id).data == data
            &&& u.parent(id) == Some(p)
            &&& u.children(id).len() == 0
            &&& u.children(p) == v.children(p).push(id)
            &&& forall|y: NodeId| v.has(y) ==> u.has(y) && #[trigger] u.node(y).data == v.node(y).data
        }),
{
    lemma_next_id_vacant(v);
    lemma_insert_under_wf(v, data, p);
}

/// Inserting a root gives back what was inserted: the new node is the root
/// and holds the data, the previous root (if any) is its only child, and
/// every node that was there before is still there with its data.
pub proof fn law_insert_as_root_reads_back<T>(v: TreeView<T>, data: T)
    requires
        v.wf(),
        v.can_allocate(),
    ensures
        ({
            let u = v.insert_as_root(data);
            let id = v.next_id();
            &&& !v.has(id)
            &&& u.has(id)
            &&& u.root == Some(id)
            &&& u.node(id).data == data
            &&& u.parent(id) is None
            &&& match v.root {
                Some(r) => u.children(id) == seq![r] && u.parent(r) == Some(id),
                None => u.children(id).len() == 0,
            }
            &&& forall|y: NodeId| v.has(y) ==> u.has(y) && #[trigger] u.node(y).data == v.node(y).data
        }),
{
    lemma_next_id_vacant(v);
    lemma_insert_as_root_wf(v, data);
    let id = v.next_id();
    if let Some(r) = v.root {
        assert(r != id);
    }
}

/// A removed node is gone, whichever way its children are treated; when
/// the children are orphaned they stay with no parent, and when lifted they
/// follow the removed node's other siblings under its parent.
pub proof fn law_remove_invalidates<T>(v: TreeView<T>, x: NodeId)
    requires
        v.wf(),
        v.has(x),
    ensures
        !v.remove_orphaning(x).has(x),
        !v.remove_lifting(x).has(x),
        !v.remove_subtree(x).has(x),
        forall|c: NodeId|
            #[trigger] v.children(x).contains(c) ==> v.remove_orphaning(x).has(c) && v.remove_orphaning(
                x,
            ).parent(c) is None,
        forall|c: NodeId|
            #[trigger] v.children(x).contains(c) ==> v.remove_lifting(x).has(c) && v.remove_lifting(
                x,
            ).parent(c) == v.parent(x),
        v.parent(x) matches Some(p) ==> v.remove_lifting(x).children(p) == without(
            v.children(p),
            x,
        ) + v.children(x),
{
    lemma_in_subtree_self(v, x);
    assert forall|c: NodeId| #[trigger] v.children(x).contains(c) implies v.remove_orphaning(x).has(
        c,
    ) && v.remove_orphaning(x).parent(c) is None by {
        lemma_child_facts(v, x, c);
    }
    assert forall|c: NodeId| #[trigger] v.children(x).contains(c) implies v.remove_lifting(x).has(
        c,
    ) && v.remove_lifting(x).parent(c) == v.parent(x) by {
        lemma_child_facts(v, x, c);
    }
    if let Some(p) = v.parent(x) {
        assert(v.node_wf(x));
        assert(p != x);
        assert(!v.children(x).contains(x)) by {
            if v.children(x).contains(x) {
                lemma_child_facts(v, x, x);
            }
        }
        lemma_without::<T>(v.children(x), x);
        Seq::filter_distributes_over_add(v.children(p), v.children(x), differs_from(x));
        let u = v.remove_lifting(x);
        assert(u.children(p) == without(v.children(p) + v.children(x), x));
    }
}

/// Removing a node with its children removes its whole subtree and nothing
/// else: the other nodes stay, with their data.
pub proof fn law_remove_subtree_exact<T>(v: TreeView<T>, x: NodeId)
    requires
        v.wf(),
        v.has(x),
    ensures
        forall|y: NodeId|
            #[trigger] v.remove_subtree(x).has(y) <==> v.has(y) && !v.in_subtree(y, x),
        forall|y: NodeId|
            #[trigger] v.remove_subtree(x).has(y) ==> v.remove_subtree(x).node(y).data == v.node(
                y,
            ).data,
{
    let u = v.remove_subtree(x);
    assert forall|y: NodeId| #[trigger] u.has(y) <==> v.has(y) && !v.in_subtree(y, x) by {
        if y.idx() < v.slots.len() {
            assert(NodeId::from_idx(y.idx()) == y);
        }
    }
    assert forall|y: NodeId| #[trigger] u.has(y) implies u.node(y).data == v.node(y).data by {
        assert(NodeId::from_idx(y.idx()) == y);
    }
}

/// The slot vacated last is the one handed out next: after removing a node
/// (alone or with its subtree) the next insertion receives the removed
/// node's id.
pub proof fn law_removed_id_reused<T>(v: TreeView<T>, x: NodeId)
    requires
        v.wf(),
        v.has(x),
    ensures
        v.remove_orphaning(x).next_id() == x,
        v.remove_lifting(x).next_id() == x,
        v.remove_subtree(x).next_id() == x,
{
    lemma_depth_bound(v, x);
    let f = (v.slots.len() - v.depth(x)) as nat;
    assert(v.postorder(x).last() == x);
}

/// The ancestors of a node are the nodes it lies strictly below, as many as
/// its depth, and the last of them has no parent.
pub proof fn law_ancestors_exact<T>(v: TreeView<T>, x: NodeId)
    requires
        v.wf(),
        v.has(x),
    ensures
        v.ancestors_of(x).len() == v.depth(x),
        forall|n: NodeId| v.ancestors_of(x).contains(n) <==> v.strictly_below(x, n),
        v.ancestors_of(x).len() > 0 ==> v.parent(v.ancestors_of(x).last()) is None,
        v.ancestors_of(x).len() == 0 <==> v.parent(x) is None,
{
    assert(v.node_wf(x));
    assert forall|n: NodeId| v.ancestors_of(x).contains(n) implies v.strictly_below(x, n) by {
        let k = choose|k: int| 0 <= k < v.ancestors_of(x).len() && v.ancestors_of(x)[k] == n;
        lemma_ancestor_chain(v, x, (k + 1) as nat);
        assert(v.ancestor_at(x, (k + 1) as nat) == Some(n));
        assert((v.depth(x) - v.depth(n)) as nat == (k + 1) as nat);
    }
    assert forall|n: NodeId| v.strictly_below(x, n) implies v.ancestors_of(x).contains(n) by {
        let k = (v.depth(x) - v.depth(n)) as nat;
        if k == 0 {
            assert(v.ancestor_at(x, 0) == Some(x));
        }
        assert(k >= 1);
        assert(v.ancestors_of(x)[k - 1] == n);
    }
    if v.ancestors_of(x).len() > 0 {
        let d = v.depth(x);
        lemma_ancestor_chain(v, x, d);
        let top = v.ancestor_at(x, d)->0;
        assert(v.ancestors_of(x).last() == top);
        assert(v.node_wf(top));
    }
    lemma_ancestors_step(v, x);
}

/// A tree with a root is at least one level high and has no more levels
/// than slots; a tree without a root has height 0.
pub proof fn law_height_bounds<T>(v: TreeView<T>)
    requires
        v.wf(),
    ensures
        v.root is None ==> v.height() == 0,
        v.root is Some ==> 1 <= v.height() <= v.slots.len(),
{
    if let Some(r) = v.root {
        assert(v.node_wf(r));
        lemma_height_bound(v, r, (v.slots.len() - v.depth(r)) as nat);
    }
}

/// The height of a subtree is one more than the deepest level below its
/// top: every node of the subtree of `x` lies fewer levels below `x` than
/// the height, and some node lies exactly one level fewer below it. For the
/// root, the height of the tree is one more than the largest depth.
pub proof fn law_height_is_deepest_level<T>(v: TreeView<T>, x: NodeId)
    requires
        v.wf(),
        v.has(x),
    ensures
        forall|y: NodeId| v.in_subtree(y, x) ==> v.depth(y) - v.depth(x) < v.height_of(x),
        exists|y: NodeId| v.in_subtree(y, x) && v.depth(y) - v.depth(x) + 1 == v.height_of(x),
        v.root == Some(x) ==> v.height() == v.height_of(x) && v.depth(x) == 0,
{
    let f = (v.slots.len() - v.depth(x)) as nat;
    lemma_depth_bound(v, x);
    lemma_height_tree_exact(v, x, f);
    assert forall|y: NodeId| v.in_subtree(y, x) implies v.depth(y) - v.depth(x) < v.height_of(x) by {
        lemma_depth_bound(v, y);
    }
    assert(v.node_wf(x));
}

/// Moving a node under another keeps every node with its data, and puts
/// the moved node last among the new parent's children.
pub proof fn law_move_to_parent_keeps_nodes<T>(v: TreeView<T>, x: NodeId, p: NodeId)
    requires
        v.wf(),
        v.has(x),
        v.has(p),
        x != p,
        v.root == Some(x) ==> v.strictly_below(p, x),
    ensures
        ({
            let u = v.move_to_parent(x, p);
            &&& forall|y: NodeId| #[trigger] u.has(y) <==> v.has(y)
            &&& forall|y: NodeId| v.has(y) ==> #[trigger] u.node(y).data == v.node(y).data
            &&& u.parent(x) == Some(p)
            &&& u.children(p).len() > 0
            &&& u.children(p).last() == x
        }),
{
    let u = v.move_to_parent(x, p);
    assert(v.node_wf(x));
    if v.strictly_below(p, x) {
        lemma_child_toward(v, p, x);
        let s = v.child_toward(p, x);
        assert(s != x);
        assert(p != s || p == s);
        assert forall|y: NodeId| #[trigger] u.has(y) <==> v.has(y) by {
        }
        assert forall|y: NodeId| v.has(y) implies #[trigger] u.node(y).data == v.node(y).data by {
        }
    } else {
        assert forall|y: NodeId| #[trigger] u.has(y) <==> v.has(y) by {
        }
        assert forall|y: NodeId| v.has(y) implies #[trigger] u.node(y).data == v.node(y).data by {
        }
    }
}

/// Moving a node to the root keeps every node with its data; the moved
/// node is the root, and the previous root is now its last child.
pub proof fn law_move_to_root_keeps_nodes<T>(v: TreeView<T>, x: NodeId)
    requires
        v.wf(),
        v.has(x),
        v.root != Some(x),
    ensures
        ({
            let u = v.move_to_root(x);
            &&& forall|y: NodeId| #[trigger] u.has(y) <==> v.has(y)
            &&& forall|y: NodeId| v.has(y) ==> #[trigger] u.node(y).data == v.node(y).data
            &&& u.root == Some(x)
            &&& u.parent(x) is None
            &&& v.root matches Some(r) ==> {
                &&& u.parent(r) == Some(x)
                &&& u.children(x).len() > 0
                &&& u.children(x).last() == r
            }
        }),
{
    assert(v.node_wf(x));
    lemma_detach_wf(v, x);
    let a = v.detach_to_root(x);
    assert forall|y: NodeId| v.has(y) implies #[trigger] a.node(y).data == v.node(y).data by {
    }
    if let Some(r) = v.root {
        assert(v.node_wf(r));
        lemma_no_parent_step(a, x, r);
        assert(a.has(r));
        assert(!a.strictly_below(x, r));
        law_move_to_parent_keeps_nodes(a, r, x);
        let u = a.move_to_parent(r, x);
        assert(!a.strictly_below(x, r));
        assert(u == a.move_across(r, x));
        assert(u.parent(x) == a.parent(x));
    }
}

/// A pre-order walk from a node visits exactly the nodes of its subtree,
/// the node itself first, each once.
pub proof fn law_preorder_visits_subtree<T>(v: TreeView<T>, x: NodeId)
    requires
        v.wf(),
        v.has(x),
    ensures
        v.preorder(x)[0] == x,
        v.preorder(x).no_duplicates(),
        forall|y: NodeId| v.preorder(x).contains(y) <==> v.in_subtree(y, x),
{
    lemma_pre_tree_exact(v, x);
}

/// Moving a node under one of its own descendants: the child on the path
/// down to the new parent takes the moved node's place (last among the
/// moved node's former siblings, or as the root), and the moved node keeps
/// its other children.
pub proof fn law_move_down_shape<T>(v: TreeView<T>, x: NodeId, p: NodeId)
    requires
        v.wf(),
        v.strictly_below(p, x),
    ensures
        ({
            let u = v.move_to_parent(x, p);
            let s = v.child_toward(p, x);
            &&& v.children(x).contains(s)
            &&& u.parent(s) == v.parent(x)
            &&& (v.parent(x) matches Some(o) ==> u.children(o) == without(v.children(o), x).push(s))
            &&& (v.root == Some(x) ==> u.root == Some(s))
            &&& u.children(x) == without(v.children(x), s)
            &&& u.parent(x) == Some(p)
        }),
{
    lemma_child_toward(v, p, x);
    let s = v.child_toward(p, x);
    assert(v.node_wf(x));
    assert(v.node_wf(s));
    assert(s != p || s == p);
    if let Some(o) = v.parent(x) {
        assert(o != x);
        assert(o != s) by {
            assert(v.depth(o) + 1 == v.depth(x));
        }
        assert(o != p) by {
            assert(v.depth(p) > v.depth(x));
        }
    }
    assert(x != p);
    if p == s {
    }
}

} // verus!
