use std::collections::VecDeque;

use vstd::prelude::*;

use crate::model::TreeView;
use crate::node::Node;
use crate::node_id::{group_node_id, NodeId};
use crate::order::{
    lemma_ancestors_step, lemma_preorder_all_append, lemma_preorder_all_single,
    lemma_preorder_unfold,
};
use crate::tree::Tree;

verus! {

broadcast use group_node_id;

/// Walks the child `Node`s of a `Node`, first to last.
pub struct Children<'a, T> {
    tree: &'a Tree<T>,
    child_ids: &'a Vec<NodeId>,
    pos: usize,
}

impl<'a, T> Children<'a, T> {
    /// The tree walked.
    pub closed spec fn tree_view(&self) -> TreeView<T> {
        self.tree@
    }

    /// The ids of the children not yet returned, in order.
    pub closed spec fn remaining(&self) -> Seq<NodeId> {
        self.child_ids@.skip(self.pos as int)
    }

    /// The walk is over a valid tree and every id left designates one of its
    /// nodes.
    pub closed spec fn wf(&self) -> bool {
        &&& self.tree@.wf()
        &&& self.pos <= self.child_ids@.len()
        &&& forall|k: int|
            0 <= k < self.child_ids@.len() ==> self.tree@.has(#[trigger] self.child_ids@[k])
    }

    /// A walk over the children of `node_id`.
    pub(crate) fn new(tree: &'a Tree<T>, node_id: &NodeId) -> (it: Children<'a, T>)
        requires
            tree@.wf(),
            tree@.has(*node_id),
        ensures
            it.wf(),
            it.tree_view() == tree@,
            it.remaining() == tree@.children(*node_id),
    {
        let child_ids = tree.get_node(node_id).children();
        proof {
            assert(tree@.node_wf(*node_id));
            assert(child_ids@.skip(0) =~= child_ids@);
        }
        Children { tree, child_ids, pos: 0 }
    }

    /// The next child `Node`, or `None` once all have been returned.
    pub fn next(&mut self) -> (r: Option<&'a Node<T>>)
        requires
            old(self).wf(),
        ensures
            final(self).wf(),
            final(self).tree_view() == old(self).tree_view(),
            old(self).remaining().len() == 0 ==> r is None && final(self).remaining() == old(
                self,
            ).remaining(),
            old(self).remaining().len() > 0 ==> {
                &&& r matches Some(n)
                &&& n@ == old(self).tree_view().node(old(self).remaining()[0])
                &&& final(self).remaining() == old(self).remaining().drop_first()
            },
    {
        if self.pos >= self.child_ids.len() {
            return None;
        }
        let tree: &'a Tree<T> = self.tree;
        let ids: &'a Vec<NodeId> = self.child_ids;
        let id = &ids[self.pos];
        proof {
            assert(self.child_ids@.skip(self.pos as int)[0] == self.child_ids@[self.pos as int]);
            assert(self.child_ids@.skip(self.pos + 1) =~= self.child_ids@.skip(
                self.pos as int,
            ).drop_first());
        }
        self.pos = self.pos + 1;
        Some(tree.get_node(id))
    }
}

impl<'a, T> Clone for Children<'a, T> {
    fn clone(&self) -> (c: Self)
        ensures
            c == *self,
    {
        Children { tree: self.tree, child_ids: self.child_ids, pos: self.pos }
    }
}

/// Walks the ids of the children of a `Node`, first to last.
pub struct ChildrenIds<'a> {
    child_ids: &'a Vec<NodeId>,
    pos: usize,
}

impl<'a> ChildrenIds<'a> {
    /// The ids not yet returned, in order.
    pub closed spec fn remaining(&self) -> Seq<NodeId> {
        self.child_ids@.skip(self.pos as int)
    }

    /// The position is within the children.
    pub closed spec fn wf(&self) -> bool {
        self.pos <= self.child_ids@.len()
    }

    /// A walk over the ids of the children of `node_id`.
    pub(crate) fn new<T>(tree: &'a Tree<T>, node_id: &NodeId) -> (it: ChildrenIds<'a>)
        requires
            tree@.has(*node_id),
        ensures
            it.wf(),
            it.remaining() == tree@.children(*node_id),
    {
        let child_ids = tree.get_node(node_id).children();
        assert(child_ids@.skip(0) =~= child_ids@);
        ChildrenIds { child_ids, pos: 0 }
    }

    /// The next child id, or `None` once all have been returned.
    pub fn next(&mut self) -> (r: Option<&'a NodeId>)
        requires
            old(self).wf(),
        ensures
            final(self).wf(),
            old(self).remaining().len() == 0 ==> r is None && final(self).remaining() == old(
                self,
            ).remaining(),
            old(self).remaining().len() > 0 ==> {
                &&& r matches Some(id)
                &&& *id == old(self).remaining()[0]
                &&& final(self).remaining() == old(self).remaining().drop_first()
            },
    {
        if self.pos >= self.child_ids.len() {
            return None;
        }
        let ids: &'a Vec<NodeId> = self.child_ids;
        let id = &ids[self.pos];
        proof {
            assert(self.child_ids@.skip(self.pos + 1) =~= self.child_ids@.skip(
                self.pos as int,
            ).drop_first());
        }
        self.pos = self.pos + 1;
        Some(id)
    }
}

/// Walks the `Node`s above a `Node`, nearest first.
pub struct Ancestors<'a, T> {
    tree: &'a Tree<T>,
    node_id: Option<NodeId>,
}

impl<'a, T> Ancestors<'a, T> {
    /// The tree walked.
    pub closed spec fn tree_view(&self) -> TreeView<T> {
        self.tree@
    }

    /// The ids of the ancestors not yet returned, nearest first.
    pub closed spec fn remaining(&self) -> Seq<NodeId> {
        match self.node_id {
            Some(c) => self.tree@.ancestors_of(c),
            None => Seq::empty(),
        }
    }

    /// The walk is over a valid tree, from one of its nodes.
    pub closed spec fn wf(&self) -> bool {
        &&& self.tree@.wf()
        &&& (self.node_id matches Some(c) ==> self.tree@.has(c))
    }

    /// A walk over the ancestors of `node_id`.
    pub(crate) fn new(tree: &'a Tree<T>, node_id: NodeId) -> (it: Ancestors<'a, T>)
        requires
            tree@.wf(),
            tree@.has(node_id),
        ensures
            it.wf(),
            it.tree_view() == tree@,
            it.remaining() == tree@.ancestors_of(node_id),
    {
        Ancestors { tree, node_id: Some(node_id) }
    }

    /// The next `Node` up the tree, or `None` once the top is passed.
    pub fn next(&mut self) -> (r: Option<&'a Node<T>>)
        requires
            old(self).wf(),
        ensures
            final(self).wf(),
            final(self).tree_view() == old(self).tree_view(),
            old(self).remaining().len() == 0 ==> r is None && final(self).remaining() == old(
                self,
            ).remaining(),
            old(self).remaining().len() > 0 ==> {
                &&& r matches Some(n)
                &&& n@ == old(self).tree_view().node(old(self).remaining()[0])
                &&& final(self).remaining() == old(self).remaining().drop_first()
            },
    {
        let tree: &'a Tree<T> = self.tree;
        let current = self.node_id;
        self.node_id = None;
        match current {
            None => None,
            Some(c) => {
                proof {
                    lemma_ancestors_step(tree@, c);
                }
                let node = tree.get_node(&c);
                match node.parent() {
                    Some(p) => {
                        self.node_id = Some(*p);
                        Some(tree.get_node(p))
                    },
                    None => None,
                }
            },
        }
    }
}

impl<'a, T> Clone for Ancestors<'a, T> {
    fn clone(&self) -> (c: Self)
        ensures
            c == *self,
    {
        Ancestors { tree: self.tree, node_id: self.node_id }
    }
}

/// Walks the ids of the `Node`s above a `Node`, nearest first.
pub struct AncestorsIds<'a, T> {
    tree: &'a Tree<T>,
    node_id: Option<NodeId>,
}

impl<'a, T> AncestorsIds<'a, T> {
    /// The tree walked.
    pub closed spec fn tree_view(&self) -> TreeView<T> {
        self.tree@
    }

    /// The ids of the ancestors not yet returned, nearest first.
    pub closed spec fn remaining(&self) -> Seq<NodeId> {
        match self.node_id {
            Some(c) => self.tree@.ancestors_of(c),
            None => Seq::empty(),
        }
    }

    /// The walk is over a valid tree, from one of its nodes.
    pub closed spec fn wf(&self) -> bool {
        &&& self.tree@.wf()
        &&& (self.node_id matches Some(c) ==> self.tree@.has(c))
    }

    /// A walk over the ids of the ancestors of `node_id`.
    pub(crate) fn new(tree: &'a Tree<T>, node_id: NodeId) -> (it: AncestorsIds<'a, T>)
        requires
            tree@.wf(),
            tree@.has(node_id),
        ensures
            it.wf(),
            it.tree_view() == tree@,
            it.remaining() == tree@.ancestors_of(node_id),
    {
        AncestorsIds { tree, node_id: Some(node_id) }
    }

    /// The id of the next `Node` up the tree, or `None` once the top is
    /// passed.
    pub fn next(&mut self) -> (r: Option<&'a NodeId>)
        requires
            old(self).wf(),
        ensures
            final(self).wf(),
            final(self).tree_view() == old(self).tree_view(),
            old(self).remaining().len() == 0 ==> r is None && final(self).remaining() == old(
                self,
            ).remaining(),
            old(self).remaining().len() > 0 ==> {
                &&& r matches Some(id)
                &&& *id == old(self).remaining()[0]
                &&& final(self).remaining() == old(self).remaining().drop_first()
            },
    {
        let tree: &'a Tree<T> = self.tree;
        let current = self.node_id;
        self.node_id = None;
        match current {
            None => None,
            Some(c) => {
                proof {
                    lemma_ancestors_step(tree@, c);
                }
                let node = tree.get_node(&c);
                match node.parent() {
                    Some(p) => {
                        self.node_id = Some(*p);
                        Some(p)
                    },
                    None => None,
                }
            },
        }
    }
}

impl<'a, T> Clone for AncestorsIds<'a, T> {
    fn clone(&self) -> (c: Self)
        ensures
            c == *self,
    {
        AncestorsIds { tree: self.tree, node_id: self.node_id }
    }
}

/// Walks the subtree of a `Node` in pre-order: a `Node` comes before the
/// subtrees of its children, which come first child first.
pub struct PreOrderTraversal<'a, T> {
    tree: &'a Tree<T>,
    data: VecDeque<NodeId>,
}

impl<'a, T> PreOrderTraversal<'a, T> {
    /// The tree walked.
    pub closed spec fn tree_view(&self) -> TreeView<T> {
        self.tree@
    }

    /// The ids of the nodes not yet returned, in the order they come.
    pub closed spec fn remaining(&self) -> Seq<NodeId> {
        self.tree@.preorder_all(self.data@)
    }

    /// The walk is over a valid tree and each pending id designates one of
    /// its nodes.
    pub closed spec fn wf(&self) -> bool {
        &&& self.tree@.wf()
        &&& forall|k: int| 0 <= k < self.data@.len() ==> self.tree@.has(#[trigger] self.data@[k])
    }

    /// A walk over the subtree of `node_id`.
    pub(crate) fn new(tree: &'a Tree<T>, node_id: NodeId) -> (it: PreOrderTraversal<'a, T>)
        requires
            tree@.wf(),
            tree@.has(node_id),
        ensures
            it.wf(),
            it.tree_view() == tree@,
            it.remaining() == tree@.preorder(node_id),
    {
        let mut data = VecDeque::with_capacity(tree.capacity());
        data.push_front(node_id);
        proof {
            lemma_preorder_all_single(tree@, node_id);
            assert(data@ =~= seq![node_id]);
        }
        PreOrderTraversal { tree, data }
    }

    /// The next `Node` in pre-order, or `None` once the subtree is done.
    pub fn next(&mut self) -> (r: Option<&'a Node<T>>)
        requires
            old(self).wf(),
        ensures
            final(self).wf(),
            final(self).tree_view() == old(self).tree_view(),
            old(self).remaining().len() == 0 ==> r is None && final(self).remaining() == old(
                self,
            ).remaining(),
            old(self).remaining().len() > 0 ==> {
                &&& r matches Some(n)
                &&& n@ == old(self).tree_view().node(old(self).remaining()[0])
                &&& final(self).remaining() == old(self).remaining().drop_first()
            },
    {
        let tree: &'a Tree<T> = self.tree;
        match self.data.pop_front() {
            None => {
                proof {
                    assert(self.data@ =~= Seq::<NodeId>::empty());
                }
                None
            },
            Some(id) => {
                proof {
                    assert(old(self).data@[0] == id);
                }
                let node = tree.get_node(&id);
                proof {
                    assert(tree@.node_wf(id));
                }
                push_children_front(tree, &mut self.data, node.children());
                proof {
                    lemma_preorder_pop(tree@, old(self).data@);
                    assert(self.data@ == tree@.children(id) + old(self).data@.drop_first());
                }
                Some(node)
            },
        }
    }
}

impl<'a, T> Clone for PreOrderTraversal<'a, T> {
    fn clone(&self) -> (c: Self)
        ensures
            c.tree_view() == self.tree_view(),
            c.remaining() == self.remaining(),
            self.wf() ==> c.wf(),
    {
        let data = self.data.clone();
        proof {
            assert(data@ =~= self.data@);
        }
        PreOrderTraversal { tree: self.tree, data }
    }
}

/// Puts `children` in front of `data`, keeping their order.
fn push_children_front<T>(tree: &Tree<T>, data: &mut VecDeque<NodeId>, children: &Vec<NodeId>)
    requires
        tree@.wf(),
        forall|k: int| 0 <= k < old(data)@.len() ==> tree@.has(#[trigger] old(data)@[k]),
        forall|k: int| 0 <= k < children@.len() ==> tree@.has(#[trigger] children@[k]),
    ensures
        final(data)@ == children@ + old(data)@,
        forall|k: int| 0 <= k < final(data)@.len() ==> tree@.has(#[trigger] final(data)@[k]),
{
    let ghost start = data@;
    let mut i = children.len();
    while i > 0
        invariant
            i <= children.len(),
            data@ == children@.subrange(i as int, children@.len() as int) + start,
        decreases i,
    {
        i = i - 1;
        data.push_front(children[i]);
        proof {
            assert(children@.subrange(i as int, children@.len() as int) =~= seq![children@[i as int]]
                + children@.subrange(i + 1, children@.len() as int));
        }
    }
    assert(children@.subrange(0, children@.len() as int) =~= children@);
    assert forall|k: int| 0 <= k < data@.len() implies tree@.has(#[trigger] data@[k]) by {
        if k < children@.len() {
            assert(data@[k] == children@[k]);
        } else {
            assert(data@[k] == start[k - children@.len()]);
        }
    }
}

/// Walks the ids of the subtree of a `Node` in pre-order.
pub struct PreOrderTraversalIds<'a, T> {
    tree: &'a Tree<T>,
    data: VecDeque<NodeId>,
}

impl<'a, T> PreOrderTraversalIds<'a, T> {
    /// The tree walked.
    pub closed spec fn tree_view(&self) -> TreeView<T> {
        self.tree@
    }

    /// The ids not yet returned, in the order they come.
    pub closed spec fn remaining(&self) -> Seq<NodeId> {
        self.tree@.preorder_all(self.data@)
    }

    /// The walk is over a valid tree and each pending id designates one of
    /// its nodes.
    pub closed spec fn wf(&self) -> bool {
        &&& self.tree@.wf()
        &&& forall|k: int| 0 <= k < self.data@.len() ==> self.tree@.has(#[trigger] self.data@[k])
    }

    /// A walk over the ids of the subtree of `node_id`.
    pub(crate) fn new(tree: &'a Tree<T>, node_id: NodeId) -> (it: PreOrderTraversalIds<'a, T>)
        requires
            tree@.wf(),
            tree@.has(node_id),
        ensures
            it.wf(),
            it.tree_view() == tree@,
            it.remaining() == tree@.preorder(node_id),
    {
        let mut data = VecDeque::with_capacity(tree.capacity());
        data.push_front(node_id);
        proof {
            lemma_preorder_all_single(tree@, node_id);
            assert(data@ =~= seq![node_id]);
        }
        PreOrderTraversalIds { tree, data }
    }

    /// The next id in pre-order, or `None` once the subtree is done.
    pub fn next(&mut self) -> (r: Option<NodeId>)
        requires
            old(self).wf(),
        ensures
            final(self).wf(),
            final(self).tree_view() == old(self).tree_view(),
            old(self).remaining().len() == 0 ==> r is None && final(self).remaining() == old(
                self,
            ).remaining(),
            old(self).remaining().len() > 0 ==> {
                &&& r == Some(old(self).remaining()[0])
                &&& final(self).remaining() == old(self).remaining().drop_first()
            },
            r matches Some(id) ==> old(self).tree_view().has(id),
    {
        let tree: &'a Tree<T> = self.tree;
        match self.data.pop_front() {
            None => {
                proof {
                    assert(self.data@ =~= Seq::<NodeId>::empty());
                }
                None
            },
            Some(id) => {
                proof {
                    assert(old(self).data@[0] == id);
                }
                let node = tree.get_node(&id);
                proof {
                    assert(tree@.node_wf(id));
                }
                push_children_front(tree, &mut self.data, node.children());
                proof {
                    lemma_preorder_pop(tree@, old(self).data@);
                    assert(self.data@ == tree@.children(id) + old(self).data@.drop_first());
                }
                Some(id)
            },
        }
    }
}

impl<'a, T> Clone for PreOrderTraversalIds<'a, T> {
    fn clone(&self) -> (c: Self)
        ensures
            c.tree_view() == self.tree_view(),
            c.remaining() == self.remaining(),
            self.wf() ==> c.wf(),
    {
        let data = self.data.clone();
        proof {
            assert(data@ =~= self.data@);
        }
        PreOrderTraversalIds { tree: self.tree, data }
    }
}

/// Taking the first pending id of a pre-order walk: the walk starts with
/// it, and what follows is the walk of its children, then of the other
/// pending ids.
proof fn lemma_preorder_pop<T>(v: TreeView<T>, data: Seq<NodeId>)
    requires
        v.wf(),
        data.len() > 0,
        v.has(data[0]),
    ensures
        v.preorder_all(data).len() > 0,
        v.preorder_all(data)[0] == data[0],
        v.preorder_all(v.children(data[0]) + data.drop_first()) == v.preorder_all(data).drop_first(),
{
    let id = data[0];
    let rest = data.drop_first();
    assert(data =~= seq![id] + rest);
    lemma_preorder_all_append(v, seq![id], rest);
    lemma_preorder_all_single(v, id);
    lemma_preorder_unfold(v, id);
    lemma_preorder_all_append(v, v.children(id), rest);
    assert(v.preorder_all(data)[0] == id);
    assert(v.preorder_all(v.children(id) + rest) =~= v.preorder_all(data).drop_first());
}

} // verus!
