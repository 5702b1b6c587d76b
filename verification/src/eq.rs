use vstd::prelude::*;
use vstd::std_specs::cmp::PartialEqSpec;
use vstd::std_specs::cmp::PartialEqSpecImpl;

use crate::model::TreeView;
use crate::node::Node;
use crate::node_id::group_node_id;
use crate::tree::Tree;

verus! {

broadcast use group_node_id;

/// Slot `i` of `v` holds a node.
pub open spec fn live<T>(v: TreeView<T>, i: int) -> bool {
    0 <= i < v.slots.len() && v.slots[i] is Some
}

/// The data of the parent of the node in slot `i`, when that parent is a
/// node of `v`.
pub open spec fn parent_data<T>(v: TreeView<T>, i: int) -> Option<T> {
    match v.slots[i]->0.parent {
        Some(p) => if v.has(p) {
            Some(v.node(p).data)
        } else {
            None
        },
        None => None,
    }
}

/// Two optional data agree: both absent, or both present and equal.
pub open spec fn same_opt_data<T: PartialEq>(a: Option<T>, b: Option<T>) -> bool {
    match (a, b) {
        (None, None) => true,
        (Some(x), Some(y)) => x.eq_spec(&y),
        _ => false,
    }
}

/// Slot `i` agrees in `a` and `b`: vacant in both, or holding nodes with
/// equal data whose parents have equal data.
pub open spec fn same_slot<T: PartialEq>(a: TreeView<T>, b: TreeView<T>, i: int) -> bool {
    &&& live(a, i) == live(b, i)
    &&& live(a, i) ==> {
        &&& a.slots[i]->0.data.eq_spec(&b.slots[i]->0.data)
        &&& same_opt_data(parent_data(a, i), parent_data(b, i))
    }
}

/// Two trees are equal when the same slots hold nodes and, slot by slot,
/// the nodes have equal data and their parents equal data. Vacant slots at
/// the end do not count.
pub open spec fn same_tree<T: PartialEq>(a: TreeView<T>, b: TreeView<T>) -> bool {
    forall|i: int| 0 <= i ==> #[trigger] same_slot(a, b, i)
}

impl<T> Tree<T> {
    /// The `Node` of slot `i`, or `None` when `i` is past the slots or the
    /// slot is vacant.
    fn slot_node(&self, i: usize) -> (r: Option<&Node<T>>)
        ensures
            match r {
                Some(n) => live(self@, i as int) && n@ == self@.slots[i as int]->0,
                None => !live(self@, i as int),
            },
    {
        if i < self.nodes_len() {
            self.slot(i)
        } else {
            None
        }
    }

    /// The parent of `n` as a `Node` of this tree, if it is one.
    fn parent_node(&self, n: &Node<T>) -> (r: Option<&Node<T>>)
        ensures
            match r {
                Some(p) => n@.parent is Some && self@.has(n@.parent->0) && p@ == self@.node(
                    n@.parent->0,
                ),
                None => n@.parent is None || !self@.has(n@.parent->0),
            },
    {
        match n.parent() {
            Some(p) => self.slot_node(p.index()),
            None => None,
        }
    }
}

/// The data of two optional parent nodes agree.
fn same_parent_data<T: PartialEq>(a: Option<&Node<T>>, b: Option<&Node<T>>) -> (r: bool)
    ensures
        T::obeys_eq_spec() ==> r == same_opt_data(
            match a {
                Some(n) => Some(n@.data),
                None => None,
            },
            match b {
                Some(n) => Some(n@.data),
                None => None,
            },
        ),
{
    match (a, b) {
        (None, None) => true,
        (Some(x), Some(y)) => x.data() == y.data(),
        _ => false,
    }
}

impl<T: PartialEq> PartialEq for Tree<T> {
    fn eq(&self, other: &Self) -> (r: bool) {
        let n1 = self.nodes_len();
        let n2 = other.nodes_len();
        let n = if n1 < n2 {
            n2
        } else {
            n1
        };
        let mut i: usize = 0;
        while i < n
            invariant
                n1 == self@.slots.len(),
                n2 == other@.slots.len(),
                n >= n1 && n >= n2,
                i <= n,
                T::obeys_eq_spec() ==> forall|k: int| 0 <= k < i ==> #[trigger] same_slot(self@, other@, k),
            decreases n - i,
        {
            let a = self.slot_node(i);
            let b = other.slot_node(i);
            match (a, b) {
                (None, None) => {},
                (Some(x), Some(y)) => {
                    if !(x.data() == y.data()) {
                        assert(T::obeys_eq_spec() ==> !same_slot(self@, other@, i as int));
                        return false;
                    }
                    let px = self.parent_node(x);
                    let py = other.parent_node(y);
                    if !same_parent_data(px, py) {
                        assert(T::obeys_eq_spec() ==> !same_slot(self@, other@, i as int));
                        return false;
                    }
                },
                _ => {
                    assert(!same_slot(self@, other@, i as int));
                    return false;
                },
            }
            i = i + 1;
        }
        proof {
            if T::obeys_eq_spec() {
                assert forall|k: int| 0 <= k implies #[trigger] same_slot(self@, other@, k) by {
                    if k >= n {
                        assert(!live(self@, k) && !live(other@, k));
                    }
                }
            }
        }
        true
    }
}

impl<T: PartialEq> PartialEqSpecImpl for Tree<T> {
    open spec fn obeys_eq_spec() -> bool {
        T::obeys_eq_spec()
    }

    open spec fn eq_spec(&self, other: &Self) -> bool {
        same_tree(self@, other@)
    }
}

/// A tree equals itself when the data's equality does.
pub proof fn law_tree_eq_reflexive<T: PartialEq>(a: TreeView<T>)
    requires
        forall|x: T| #[trigger] x.eq_spec(&x),
    ensures
        same_tree(a, a),
{
    assert forall|i: int| 0 <= i implies #[trigger] same_slot(a, a, i) by {
        if live(a, i) {
            let pd = parent_data(a, i);
            if let Some(d) = pd {
                assert(d.eq_spec(&d));
            }
        }
    }
}

/// Tree equality is symmetric when the data's equality is.
pub proof fn law_tree_eq_symmetric<T: PartialEq>(a: TreeView<T>, b: TreeView<T>)
    requires
        forall|x: T, y: T| #[trigger] x.eq_spec(&y) ==> y.eq_spec(&x),
        same_tree(a, b),
    ensures
        same_tree(b, a),
{
    assert forall|i: int| 0 <= i implies #[trigger] same_slot(b, a, i) by {
        assert(same_slot(a, b, i));
    }
}

/// Equal trees agree slot by slot: the same slots hold nodes, and a node
/// has a parent in one tree exactly when the node of the same slot has one
/// in the other, with equal data.
pub proof fn law_equal_trees_agree_on_parents<T: PartialEq>(a: TreeView<T>, b: TreeView<T>, i: int)
    requires
        a.wf(),
        b.wf(),
        same_tree(a, b),
        0 <= i,
    ensures
        live(a, i) == live(b, i),
        live(a, i) ==> (a.slots[i]->0.parent is Some <==> b.slots[i]->0.parent is Some),
        live(a, i) ==> (parent_data(a, i) is Some <==> parent_data(b, i) is Some),
        live(a, i) && a.slots[i]->0.parent is Some ==> (parent_data(a, i)->0).eq_spec(
            &parent_data(b, i)->0,
        ),
{
    assert(same_slot(a, b, i));
    if live(a, i) {
        let x = crate::node_id::NodeId::from_idx(i as nat);
        assert(a.has(x) && b.has(x));
        assert(a.node_wf(x) && b.node_wf(x));
    }
}

} // verus!
