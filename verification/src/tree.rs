use vstd::prelude::*;

use crate::behaviors::{InsertBehavior, MoveBehavior, RemoveBehavior};
use crate::error::NodeIdError;
use crate::iterators::{
    Ancestors, AncestorsIds, Children, ChildrenIds, PreOrderTraversal, PreOrderTraversalIds,
};
use crate::model::{
    differs_from, drop_progress, lemma_child_facts, lemma_child_toward, lemma_depth_bound,
    lemma_detach_wf, lemma_drop_finish, lemma_drop_pre, lemma_drop_start, lemma_drop_step,
    lemma_height_bound, lemma_height_forest_push, lemma_in_subtree_self, lemma_insert_as_root_wf,
    lemma_insert_under_wf, lemma_move_across_wf, lemma_move_down_wf, lemma_next_id_vacant,
    lemma_no_parent_step, lemma_parent_step, lemma_remove_lifting_wf, lemma_remove_orphaning_wf,
    lemma_strictly_below_has_parent, lemma_with_parent_all_push, without, TreeView,
};
use crate::node::{
    detached, lemma_slots_view_push, lemma_slots_view_update, opt_view, slots_view, Node, NodeView,
};
use crate::node_id::{group_node_id, NodeId};

verus! {

broadcast use group_node_id, lemma_slots_view_update, lemma_slots_view_push;

/// The capacity of a vector: how many elements it holds without
/// reallocating. Calls `Vec::capacity`; what is stated is only that the
/// capacity is at least the length, as std documents. The exact value is
/// up to the allocator and is not stated.
#[verifier::external_body]
fn vec_capacity<X>(v: &Vec<X>) -> (c: usize)
    ensures
        c >= v@.len(),
{
    v.capacity()
}

/// The ids of `ids` other than `x`, in order.
fn without_id(ids: &Vec<NodeId>, x: &NodeId) -> (r: Vec<NodeId>)
    ensures
        r@ == without(ids@, *x),
{
    let mut r: Vec<NodeId> = Vec::new();
    let mut i: usize = 0;
    assert(ids@.take(0) =~= Seq::<NodeId>::empty());
    assert(without(Seq::<NodeId>::empty(), *x) =~= Seq::<NodeId>::empty()) by {
        reveal(Seq::filter);
    }
    while i < ids.len()
        invariant
            i <= ids.len(),
            r@ == without(ids@.take(i as int), *x),
        decreases ids.len() - i,
    {
        let c = ids[i];
        assert(ids@.take(i + 1) =~= ids@.take(i as int).push(c));
        proof {
            ids@.take(i as int).lemma_filter_push(c, differs_from(*x));
        }
        if c != *x {
            r.push(c);
        }
        i += 1;
    }
    assert(ids@.take(ids.len() as int) =~= ids@);
    r
}

/// A builder for `Tree`s: an optional root plus the capacities to reserve.
pub struct TreeBuilder<T> {
    root: Option<Node<T>>,
    node_capacity: usize,
    swap_capacity: usize,
}

impl<T> View for TreeBuilder<T> {
    type V = (Option<NodeView<T>>, usize, usize);

    closed spec fn view(&self) -> (Option<NodeView<T>>, usize, usize) {
        (opt_view(self.root), self.node_capacity, self.swap_capacity)
    }
}

impl<T> TreeBuilder<T> {
    /// A builder with no root and no reserved capacity.
    pub fn new() -> (b: TreeBuilder<T>)
        ensures
            b@ == (None::<NodeView<T>>, 0usize, 0usize),
    {
        TreeBuilder { root: None, node_capacity: 0, swap_capacity: 0 }
    }

    /// Sets the root `Node` of the tree to build. The node must not link to
    /// anything, as every `Node` made by `Node::new` or handed back by
    /// `Tree::remove_node`: its links would name slots of no tree, and the
    /// tree's invariant (links that agree both ways) rules them out.
    pub fn with_root(self, root: Node<T>) -> (b: TreeBuilder<T>)
        requires
            detached(root@),
        ensures
            b@ == (Some(root@), self@.1, self@.2),
    {
        let mut s = self;
        s.root = Some(root);
        s
    }

    /// Sets how many `Node`s the tree reserves room for.
    pub fn with_node_capacity(self, node_capacity: usize) -> (b: TreeBuilder<T>)
        ensures
            b@ == (self@.0, node_capacity, self@.2),
    {
        let mut s = self;
        s.node_capacity = node_capacity;
        s
    }

    /// Sets how many vacated slots the tree reserves room to remember.
    pub fn with_swap_capacity(self, swap_capacity: usize) -> (b: TreeBuilder<T>)
        ensures
            b@ == (self@.0, self@.1, swap_capacity),
    {
        let mut s = self;
        s.swap_capacity = swap_capacity;
        s
    }

    /// The root `Node` set so far, if any.
    pub fn root(&self) -> (r: Option<&Node<T>>)
        ensures
            match r {
                Some(n) => self@.0 == Some(n@),
                None => self@.0 is None,
            },
    {
        self.root.as_ref()
    }

    /// The node capacity set so far.
    pub fn node_capacity(&self) -> (c: usize)
        ensures
            c == self@.1,
    {
        self.node_capacity
    }

    /// The swap capacity set so far.
    pub fn swap_capacity(&self) -> (c: usize)
        ensures
            c == self@.2,
    {
        self.swap_capacity
    }

    /// Builds the tree: empty, or holding only the root in the first slot.
    /// The root must not link to anything (see `with_root`).
    pub fn build(self) -> (tree: Tree<T>)
        requires
            self@.0 matches Some(r) ==> detached(r),
        ensures
            tree@.wf(),
            tree@.free == Seq::<NodeId>::empty(),
            match self@.0 {
                Some(r) => {
                    &&& tree@.root == Some(NodeId::from_idx(0))
                    &&& tree@.slots == seq![Some(r)]
                    &&& tree@.depths == seq![0nat]
                },
                None => {
                    &&& tree@.root is None
                    &&& tree@.slots == Seq::<Option<NodeView<T>>>::empty()
                    &&& tree@.depths == Seq::<nat>::empty()
                },
            },
    {
        let mut s = self;
        let mut tree = Tree {
            root: None,
            nodes: Vec::with_capacity(s.node_capacity),
            free_ids: Vec::with_capacity(s.swap_capacity),
            depths: Ghost(Seq::empty()),
        };
        if s.root.is_some() {
            let node_id = NodeId::new(0);
            let root = s.root.take();
            tree.nodes.push(root);
            tree.depths = Ghost(Seq::<nat>::empty().push(0nat));
            tree.root = Some(node_id);
            assert(tree@.slots =~= seq![opt_view(root)]);
            assert(tree@.depths =~= seq![0nat]);
            assert(NodeId::from_idx(0).idx() == 0);
            assert(tree@.has(node_id));
        } else {
            assert(tree@.slots =~= Seq::<Option<NodeView<T>>>::empty());
        }
        tree
    }
}

impl<T> Default for TreeBuilder<T> {
    /// The same builder as `TreeBuilder::new`.
    fn default() -> (b: Self)
        ensures
            b@ == (None::<NodeView<T>>, 0usize, 0usize),
    {
        TreeBuilder::new()
    }
}

/// A tree made of `Node`s, stored in slots addressed by `NodeId`s.
///
/// Removing a `Node` vacates its slot; later insertions reuse vacated slots,
/// the most recently vacated first.
pub struct Tree<T> {
    root: Option<NodeId>,
    nodes: Vec<Option<Node<T>>>,
    free_ids: Vec<NodeId>,
    depths: Ghost<Seq<nat>>,
}

impl<T> View for Tree<T> {
    type V = TreeView<T>;

    closed spec fn view(&self) -> TreeView<T> {
        TreeView {
            root: self.root,
            slots: slots_view(self.nodes@),
            free: self.free_ids@,
            depths: self.depths@,
        }
    }
}

impl<T> Tree<T> {
    /// An empty tree.
    pub fn new() -> (tree: Tree<T>)
        ensures
            tree@.wf(),
            tree@.root is None,
            tree@.slots == Seq::<Option<NodeView<T>>>::empty(),
            tree@.free == Seq::<NodeId>::empty(),
            tree@.depths == Seq::<nat>::empty(),
    {
        TreeBuilder::new().build()
    }

    /// How many slots the tree holds without reallocating.
    pub fn capacity(&self) -> (c: usize)
        ensures
            c >= self@.slots.len(),
    {
        vec_capacity(&self.nodes)
    }

    /// The number of slots, occupied or vacated.
    pub fn nodes_len(&self) -> (n: usize)
        ensures
            n == self@.slots.len(),
    {
        self.nodes.len()
    }

    /// The number of vacated slots awaiting reuse.
    pub fn free_ids_len(&self) -> (n: usize)
        ensures
            n == self@.free.len(),
    {
        self.free_ids.len()
    }

    /// How many vacated slots the tree can remember without reallocating.
    pub fn free_ids_capacity(&self) -> (c: usize)
        ensures
            c >= self@.free.len(),
    {
        vec_capacity(&self.free_ids)
    }

    /// The id of the root `Node`, if there is one.
    pub fn root_node_id(&self) -> (r: Option<&NodeId>)
        ensures
            match r {
                Some(id) => self@.root == Some(*id),
                None => self@.root is None,
            },
    {
        self.root.as_ref()
    }

    /// Checks that `node_id` designates a `Node` of this tree.
    pub fn is_valid_node_id(&self, node_id: &NodeId) -> (r: Result<(), NodeIdError>)
        requires
            node_id.idx() <= self@.slots.len(),
        ensures
            r is Ok <==> self@.has(*node_id),
            r matches Err(e) ==> e == NodeIdError::NodeIdNoLongerValid,
    {
        let idx = node_id.index();
        if idx >= self.nodes.len() {
            return Err(NodeIdError::NodeIdNoLongerValid);
        }
        if self.nodes[idx].is_none() {
            return Err(NodeIdError::NodeIdNoLongerValid);
        }
        Ok(())
    }

    /// The `Node` that `node_id` designates.
    ///
    /// Fails when the `Node` is no longer in the tree.
    pub fn get(&self, node_id: &NodeId) -> (r: Result<&Node<T>, NodeIdError>)
        requires
            node_id.idx() <= self@.slots.len(),
        ensures
            match r {
                Ok(n) => self@.has(*node_id) && n@ == self@.node(*node_id),
                Err(e) => !self@.has(*node_id) && e == NodeIdError::NodeIdNoLongerValid,
            },
    {
        self.is_valid_node_id(node_id)?;
        match self.nodes[node_id.index()].as_ref() {
            Some(n) => Ok(n),
            None => Err(NodeIdError::NodeIdNoLongerValid),
        }
    }

    /// A mutable reference to the `Node` that `node_id` designates.
    ///
    /// Fails when the `Node` is no longer in the tree.
    pub fn get_mut(&mut self, node_id: &NodeId) -> (r: Result<&mut Node<T>, NodeIdError>)
        requires
            node_id.idx() <= old(self)@.slots.len(),
        ensures
            r is Ok <==> old(self)@.has(*node_id),
            r matches Ok(n) ==> n@ == old(self)@.node(*node_id),
            r is Ok ==> final(self)@ == old(self)@.with_node(*node_id, final(r->Ok_0)@),
            r is Err ==> final(self)@ == old(self)@,
    {
        if self.is_valid_node_id(node_id).is_err() {
            return Err(NodeIdError::NodeIdNoLongerValid);
        }
        Ok(self.node_mut(node_id))
    }

    /// Stores `new_node` under `next_id()`, at depth 0.
    fn insert_new_node(&mut self, new_node: Node<T>) -> (id: NodeId)
        requires
            old(self)@.free_ok(),
            old(self)@.depths.len() == old(self)@.slots.len(),
            old(self)@.can_allocate(),
        ensures
            id == old(self)@.next_id(),
            final(self)@ == old(self)@.allocate(new_node@, 0),
    {
        proof {
            lemma_next_id_vacant(self@);
        }
        if self.free_ids.len() == 0 {
            let new_node_idx = self.nodes.len();
            self.nodes.push(Some(new_node));
            self.depths = Ghost(self.depths@.push(0nat));
            NodeId::new(new_node_idx)
        } else {
            let new_node_id = self.free_ids.pop().unwrap();
            let ghost before = self.nodes@;
            self.nodes.push(Some(new_node));
            let _vacant = self.nodes.swap_remove(new_node_id.index());
            assert(self.nodes@ =~= before.update(new_node_id.idx() as int, Some(new_node)));
            self.depths = Ghost(self.depths@.update(new_node_id.idx() as int, 0nat));
            assert(self.free_ids@ =~= old(self)@.free.drop_last());
            new_node_id
        }
    }

    /// Makes `child_id` the last child of `parent_id`, and `parent_id` the
    /// parent of `child_id`.
    fn set_as_parent_and_child(&mut self, parent_id: &NodeId, child_id: &NodeId)
        requires
            old(self)@.has(*parent_id),
            old(self)@.has(*child_id),
        ensures
            final(self)@ == old(self)@.link(*parent_id, *child_id),
    {
        self.node_mut(parent_id).add_child(*child_id);
        self.node_mut(child_id).set_parent(Some(*parent_id));
    }

    /// Inserts `child` as the last child of `parent_id`.
    fn insert_with_parent(&mut self, child: Node<T>, parent_id: &NodeId) -> (id: NodeId)
        requires
            old(self)@.wf(),
            old(self)@.has(*parent_id),
            old(self)@.can_allocate(),
            detached(child@),
        ensures
            id == old(self)@.next_id(),
            final(self)@ == old(self)@.insert_under(child@.data, *parent_id),
    {
        let ghost v = self@;
        proof {
            lemma_next_id_vacant(v);
        }
        let new_child_id = self.insert_new_node(child);
        self.set_as_parent_and_child(parent_id, &new_child_id);
        self.depths = Ghost(self.depths@.update(new_child_id.idx() as int, v.depth(*parent_id) + 1));
        assert(child@.children =~= Seq::<NodeId>::empty());
        assert(child@ == NodeView { data: child@.data, parent: None, children: Seq::<NodeId>::empty() });
        assert(self@.slots =~= v.insert_under(child@.data, *parent_id).slots);
        assert(self@.depths =~= v.insert_under(child@.data, *parent_id).depths);
        new_child_id
    }

    /// Inserts `new_root` as the root; the previous root becomes its child.
    fn set_root(&mut self, new_root: Node<T>) -> (id: NodeId)
        requires
            old(self)@.wf(),
            old(self)@.can_allocate(),
            detached(new_root@),
        ensures
            id == old(self)@.next_id(),
            final(self)@ == old(self)@.insert_as_root(new_root@.data),
    {
        let ghost v = self@;
        proof {
            lemma_next_id_vacant(v);
        }
        assert(new_root@.children =~= Seq::<NodeId>::empty());
        assert(new_root@ == NodeView { data: new_root@.data, parent: None, children: Seq::<NodeId>::empty() });
        match self.root {
            Some(current_root_node_id) => {
                self.depths = Ghost(v.shift_subtree(current_root_node_id, 1));
                assert(self@ == v.with_depths(v.shift_subtree(current_root_node_id, 1)));
                let new_root_id = self.insert_new_node(new_root);
                self.set_as_parent_and_child(&new_root_id, &current_root_node_id);
                self.root = Some(new_root_id);
                assert(seq![current_root_node_id] =~= Seq::<NodeId>::empty().push(current_root_node_id));
                assert(self@.slots =~= v.insert_as_root(new_root@.data).slots);
                new_root_id
            },
            None => {
                let new_root_id = self.insert_new_node(new_root);
                self.root = Some(new_root_id);
                new_root_id
            },
        }
    }

    /// Inserts `node` into the tree as `behavior` says, and returns its id.
    /// The node must not link to anything, as every `Node` made by
    /// `Node::new` or handed back by `Tree::remove_node`: stale links would
    /// break the tree's invariant that links agree both ways.
    ///
    /// Fails, leaving the tree unchanged, when the parent named by
    /// `UnderNode` is not in the tree.
    pub fn insert(&mut self, node: Node<T>, behavior: InsertBehavior) -> (r: Result<NodeId, NodeIdError>)
        requires
            old(self)@.wf(),
            old(self)@.can_allocate(),
            detached(node@),
            behavior matches InsertBehavior::UnderNode(p) ==> old(self)@.in_range(*p),
        ensures
            final(self)@.wf(),
            match behavior {
                InsertBehavior::AsRoot => {
                    &&& r == Ok::<NodeId, NodeIdError>(old(self)@.next_id())
                    &&& final(self)@ == old(self)@.insert_as_root(node@.data)
                },
                InsertBehavior::UnderNode(p) => if old(self)@.has(*p) {
                    &&& r == Ok::<NodeId, NodeIdError>(old(self)@.next_id())
                    &&& final(self)@ == old(self)@.insert_under(node@.data, *p)
                } else {
                    &&& r == Err::<NodeId, NodeIdError>(NodeIdError::NodeIdNoLongerValid)
                    &&& final(self)@ == old(self)@
                },
            },
    {
        let ghost v = self@;
        match behavior {
            InsertBehavior::AsRoot => {
                proof {
                    lemma_insert_as_root_wf(v, node@.data);
                }
                Ok(self.set_root(node))
            },
            InsertBehavior::UnderNode(parent_id) => {
                self.is_valid_node_id(parent_id)?;
                proof {
                    lemma_insert_under_wf(v, node@.data, *parent_id);
                }
                Ok(self.insert_with_parent(node, parent_id))
            },
        }
    }

    /// The content of slot `i`: its `Node`, or `None` when vacant.
    pub(crate) fn slot(&self, i: usize) -> (r: Option<&Node<T>>)
        requires
            i < self@.slots.len(),
        ensures
            match r {
                Some(n) => self@.slots[i as int] == Some(n@),
                None => self@.slots[i as int] is None,
            },
    {
        self.nodes[i].as_ref()
    }

    /// The `Node` of an id known to be in the tree.
    pub(crate) fn get_node(&self, node_id: &NodeId) -> (n: &Node<T>)
        requires
            self@.has(*node_id),
        ensures
            n@ == self@.node(*node_id),
    {
        self.nodes[node_id.index()].as_ref().unwrap()
    }

    /// Removes `node_id` from the children of `parent_id`.
    fn detach_from_parent(&mut self, parent_id: &NodeId, node_id: &NodeId)
        requires
            old(self)@.has(*parent_id),
        ensures
            final(self)@ == old(self)@.unlink(*parent_id, *node_id),
    {
        let kept = without_id(self.get_node(parent_id).children(), node_id);
        self.node_mut(parent_id).set_children(kept);
    }

    /// Sets the parent link of `node_id`.
    fn set_parent(&mut self, node_id: &NodeId, parent_id: Option<NodeId>)
        requires
            old(self)@.has(*node_id),
        ensures
            final(self)@ == old(self)@.with_parent(*node_id, parent_id),
    {
        self.node_mut(node_id).set_parent(parent_id);
    }

    /// Clears the parent link of `node_id`.
    fn clear_parent(&mut self, node_id: &NodeId)
        requires
            old(self)@.has(*node_id),
        ensures
            final(self)@ == old(self)@.with_parent(*node_id, None),
    {
        self.set_parent(node_id, None);
    }

    /// The child of `upper_id` on the path up from `lower_id` to
    /// `upper_id`; `None` when `upper_id` is not strictly above `lower_id`.
    pub fn find_subtree_root_between_ids<'a>(&'a self, lower_id: &'a NodeId, upper_id: &'a NodeId) -> (r: Option<&'a NodeId>)
        requires
            self@.wf(),
            self@.has(*lower_id),
        ensures
            match r {
                Some(s) => self@.strictly_below(*lower_id, *upper_id) && *s == self@.child_toward(*lower_id, *upper_id),
                None => !self@.strictly_below(*lower_id, *upper_id),
            },
        decreases self@.depth(*lower_id),
    {
        let ghost v = self@;
        proof {
            assert(v.node_wf(*lower_id));
        }
        match self.get_node(lower_id).parent() {
            Some(lower_parent) => {
                proof {
                    lemma_parent_step(v, *lower_id, *upper_id);
                    lemma_in_subtree_self(v, *lower_parent);
                }
                if *lower_parent == *upper_id {
                    return Some(lower_id);
                }
                let r = self.find_subtree_root_between_ids(lower_parent, upper_id);
                proof {
                    if v.strictly_below(*lower_parent, *upper_id) {
                        lemma_strictly_below_has_parent(v, *lower_parent, *upper_id);
                        let k = (v.depth(*lower_id) - v.depth(*upper_id) - 1) as nat;
                        assert(v.ancestor_at(*lower_id, k) == v.ancestor_at(*lower_parent, (k - 1) as nat));
                    }
                }
                r
            },
            None => {
                proof {
                    lemma_no_parent_step(v, *lower_id, *upper_id);
                }
                None
            },
        }
    }

    /// Moves `node_id`, with its subtree, to the end of the children of
    /// `parent_id` (see `MoveBehavior::ToParent`).
    fn move_node_to_parent(&mut self, node_id: &NodeId, parent_id: &NodeId)
        requires
            old(self)@.wf(),
            old(self)@.has(*node_id),
            old(self)@.has(*parent_id),
            *node_id != *parent_id,
            old(self)@.root == Some(*node_id) ==> old(self)@.strictly_below(*parent_id, *node_id),
        ensures
            final(self)@ == old(self)@.move_to_parent(*node_id, *parent_id),
            final(self)@.wf(),
    {
        let ghost v = self@;
        let x = *node_id;
        let p = *parent_id;
        proof {
            assert(v.node_wf(x));
        }
        let found = self.find_subtree_root_between_ids(parent_id, node_id).cloned();
        match found {
            Some(subtree_root_id) => {
                proof {
                    lemma_child_toward(v, p, x);
                    lemma_move_down_wf(v, x, p);
                }
                let s = subtree_root_id;
                if self.root == Some(x) {
                    self.detach_from_parent(&x, &s);
                    self.clear_parent(&s);
                    self.root = Some(s);
                } else {
                    match self.get_node(&x).parent().cloned() {
                        Some(old_parent) => {
                            proof {
                                assert(v.node_wf(old_parent));
                            }
                            self.detach_from_parent(&old_parent, &x);
                            self.set_as_parent_and_child(&old_parent, &s);
                        },
                        None => {
                            self.clear_parent(&s);
                        },
                    }
                    self.detach_from_parent(&x, &s);
                }
                self.set_as_parent_and_child(&p, &x);
                self.depths = Ghost(v.move_down(x, p).depths);
                assert(self@.slots =~= v.move_down(x, p).slots);
            },
            None => {
                proof {
                    lemma_move_across_wf(v, x, p);
                }
                match self.get_node(&x).parent().cloned() {
                    Some(old_parent) => {
                        proof {
                            assert(v.node_wf(old_parent));
                        }
                        self.detach_from_parent(&old_parent, &x);
                    },
                    None => {},
                }
                self.set_as_parent_and_child(&p, &x);
                self.depths = Ghost(v.move_across(x, p).depths);
                assert(self@.slots =~= v.move_across(x, p).slots);
            },
        }
    }

    /// Moves `node_id`, with its subtree, to the root; the previous root
    /// becomes its last child (see `MoveBehavior::ToRoot`).
    pub fn move_node_to_root(&mut self, node_id: &NodeId)
        requires
            old(self)@.wf(),
            old(self)@.has(*node_id),
            old(self)@.root != Some(*node_id),
        ensures
            final(self)@ == old(self)@.move_to_root(*node_id),
            final(self)@.wf(),
    {
        let ghost v = self@;
        let x = *node_id;
        let old_root = self.root;
        proof {
            assert(v.node_wf(x));
            lemma_detach_wf(v, x);
        }
        match self.get_node(&x).parent().cloned() {
            Some(parent_id) => {
                self.detach_from_parent(&parent_id, &x);
            },
            None => {},
        }
        self.clear_parent(&x);
        self.root = Some(x);
        self.depths = Ghost(v.detach(x).depths);
        assert(self@.slots =~= v.detach_to_root(x).slots);
        assert(self@ == v.detach_to_root(x));
        match old_root {
            Some(r) => {
                let ghost a = self@;
                proof {
                    lemma_no_parent_step(a, x, r);
                }
                self.move_node_to_parent(&r, &x);
            },
            None => {},
        }
    }

    /// Moves `node_id` in the tree as `behavior` says.
    ///
    /// Fails, leaving the tree unchanged, when `node_id` or the new parent is
    /// not in the tree. A move that would make a node its own parent, move the
    /// root to the root, or hang the root below a node outside its own
    /// subtree (which would leave the root with a parent) keeps the tree as
    /// it is: no node ever becomes its own ancestor.
    pub fn move_node(&mut self, node_id: &NodeId, behavior: MoveBehavior) -> (r: Result<(), NodeIdError>)
        requires
            old(self)@.wf(),
            old(self)@.in_range(*node_id),
            match behavior {
                MoveBehavior::ToRoot => true,
                MoveBehavior::ToParent(p) => old(self)@.in_range(*p),
            },
        ensures
            final(self)@.wf(),
            match behavior {
                MoveBehavior::ToRoot => if old(self)@.has(*node_id) {
                    &&& r is Ok
                    &&& final(self)@ == if old(self)@.root == Some(*node_id) {
                        old(self)@
                    } else {
                        old(self)@.move_to_root(*node_id)
                    }
                } else {
                    r == Err::<(), NodeIdError>(NodeIdError::NodeIdNoLongerValid) && final(self)@ == old(self)@
                },
                MoveBehavior::ToParent(p) => if old(self)@.has(*node_id) && old(self)@.has(*p) {
                    &&& r is Ok
                    &&& final(self)@ == if *p == *node_id || (old(self)@.root == Some(*node_id)
                        && !old(self)@.strictly_below(*p, *node_id)) {
                        old(self)@
                    } else {
                        old(self)@.move_to_parent(*node_id, *p)
                    }
                } else {
                    r == Err::<(), NodeIdError>(NodeIdError::NodeIdNoLongerValid) && final(self)@ == old(self)@
                },
            },
    {
        self.is_valid_node_id(node_id)?;
        match behavior {
            MoveBehavior::ToRoot => {
                if self.root == Some(*node_id) {
                    return Ok(());
                }
                self.move_node_to_root(node_id);
                Ok(())
            },
            MoveBehavior::ToParent(parent_id) => {
                self.is_valid_node_id(parent_id)?;
                if *parent_id == *node_id {
                    return Ok(());
                }
                if self.root == Some(*node_id) {
                    if self.find_subtree_root_between_ids(parent_id, node_id).is_none() {
                        return Ok(());
                    }
                }
                self.move_node_to_parent(node_id, parent_id);
                Ok(())
            },
        }
    }

    /// Takes the `Node` out of its slot, vacating the slot. Nothing else is
    /// changed: links to the `Node` from its parent and children stay.
    pub fn take_node(&mut self, node_id: NodeId) -> (node: Node<T>)
        requires
            old(self)@.has(node_id),
        ensures
            node@ == old(self)@.node(node_id),
            final(self)@ == old(self)@.take_slot(node_id),
    {
        let ghost before = self.nodes@;
        self.nodes.push(None);
        let node = self.nodes.swap_remove(node_id.index());
        assert(self.nodes@ =~= before.update(node_id.idx() as int, None));
        self.free_ids.push(node_id);
        node.unwrap()
    }

    /// Removes `node_id` once its children are no longer linked to it:
    /// cuts it from its parent, vacates its slot and clears the root if it
    /// was the root. The `Node` is returned without links.
    fn remove_node_internal(&mut self, node_id: NodeId) -> (node: Node<T>)
        requires
            old(self)@.has(node_id),
            old(self)@.parent(node_id) matches Some(p) ==> old(self)@.has(p) && p != node_id,
        ensures
            final(self)@ == old(self)@.remove_slot(node_id),
            node@ == (NodeView {
                data: old(self)@.node(node_id).data,
                parent: None,
                children: Seq::<NodeId>::empty(),
            }),
    {
        let ghost v = self@;
        if self.root == Some(node_id) {
            self.root = None;
        }
        let mut node = self.take_node(node_id);
        match node.parent().cloned() {
            Some(parent_id) => {
                self.detach_from_parent(&parent_id, &node_id);
            },
            None => {},
        }
        assert(self@.slots =~= v.remove_slot(node_id).slots);
        node.set_children(Vec::new());
        node.set_parent(None);
        assert(node@.children =~= Seq::<NodeId>::empty());
        node
    }

    /// Gives every child of `node_id` the parent `new_parent`.
    fn set_parent_of_children(&mut self, node_id: &NodeId, new_parent: Option<&NodeId>)
        requires
            old(self)@.wf(),
            old(self)@.has(*node_id),
        ensures
            final(self)@ == old(self)@.with_parent_all(
                old(self)@.children(*node_id),
                match new_parent {
                    Some(p) => Some(*p),
                    None => None,
                },
            ),
    {
        let ghost v = self@;
        let p = new_parent.cloned();
        let children = self.get_node(node_id).children().clone();
        assert(children@ =~= v.children(*node_id));
        proof {
            assert(v.node_wf(*node_id));
        }
        let mut i: usize = 0;
        assert(v.with_parent_all(children@.take(0), p).slots =~= v.slots);
        while i < children.len()
            invariant
                v.wf(),
                children@ == v.children(*node_id),
                v.node_wf(*node_id),
                i <= children.len(),
                self@ == v.with_parent_all(children@.take(i as int), p),
            decreases children.len() - i,
        {
            let c = children[i];
            assert(v.has(children@[i as int]));
            assert(self@.has(c));
            self.set_parent(&c, p);
            assert(children@.take(i + 1) =~= children@.take(i as int).push(c));
            proof {
                lemma_with_parent_all_push(v, children@.take(i as int), c, p);
            }
            i += 1;
        }
        assert(children@.take(children.len() as int) =~= children@);
    }

    /// Leaves every child of `node_id` without a parent.
    fn clear_parent_of_children(&mut self, node_id: &NodeId)
        requires
            old(self)@.wf(),
            old(self)@.has(*node_id),
        ensures
            final(self)@ == old(self)@.with_parent_all(old(self)@.children(*node_id), None),
    {
        self.set_parent_of_children(node_id, None);
    }

    /// Removes `node_id`, leaving its children in the tree without a parent.
    pub fn remove_node_orphan_children(&mut self, node_id: NodeId) -> (node: Node<T>)
        requires
            old(self)@.wf(),
            old(self)@.has(node_id),
        ensures
            final(self)@ == old(self)@.remove_orphaning(node_id),
            final(self)@.wf(),
            node@ == (NodeView {
                data: old(self)@.node(node_id).data,
                parent: None,
                children: Seq::<NodeId>::empty(),
            }),
    {
        let ghost v = self@;
        proof {
            lemma_remove_orphaning_wf(v, node_id);
            assert(v.node_wf(node_id));
            if v.parent(node_id) is Some {
                assert(v.node_wf(v.parent(node_id)->0));
                assert(!v.children(node_id).contains(v.parent(node_id)->0)) by {
                    if v.children(node_id).contains(v.parent(node_id)->0) {
                        lemma_child_facts(v, node_id, v.parent(node_id)->0);
                    }
                }
            }
            assert(!v.children(node_id).contains(node_id)) by {
                if v.children(node_id).contains(node_id) {
                    lemma_child_facts(v, node_id, node_id);
                }
            }
        }
        self.clear_parent_of_children(&node_id);
        self.depths = Ghost(v.lower_below(node_id, v.depth(node_id) + 1));
        self.remove_node_internal(node_id)
    }

    /// Removes `node_id`, handing its children to its parent (appended after
    /// the parent's own children). Without a parent, the children are left
    /// without a parent.
    fn remove_node_lift_children(&mut self, node_id: NodeId) -> (node: Node<T>)
        requires
            old(self)@.wf(),
            old(self)@.has(node_id),
        ensures
            final(self)@ == old(self)@.remove_lifting(node_id),
            final(self)@.wf(),
            node@ == (NodeView {
                data: old(self)@.node(node_id).data,
                parent: None,
                children: Seq::<NodeId>::empty(),
            }),
    {
        let ghost v = self@;
        proof {
            lemma_remove_lifting_wf(v, node_id);
            assert(v.node_wf(node_id));
            assert(!v.children(node_id).contains(node_id)) by {
                if v.children(node_id).contains(node_id) {
                    lemma_child_facts(v, node_id, node_id);
                }
            }
        }
        match self.get_node(&node_id).parent().cloned() {
            Some(parent_id) => {
                proof {
                    assert(v.node_wf(parent_id));
                    assert(!v.children(node_id).contains(parent_id)) by {
                        if v.children(node_id).contains(parent_id) {
                            lemma_child_facts(v, node_id, parent_id);
                        }
                    }
                }
                let children = self.get_node(&node_id).children().clone();
                assert(children@ =~= v.children(node_id));
                let mut i: usize = 0;
                assert(v.children(parent_id) + children@.take(0) =~= v.children(parent_id));
                assert(v.with_parent_all(children@.take(0), Some(parent_id)).with_children(
                    parent_id,
                    v.children(parent_id) + children@.take(0),
                ).slots =~= v.slots);
                while i < children.len()
                    invariant
                        v.wf(),
                        v.has(parent_id),
                        v.node_wf(node_id),
                        children@ == v.children(node_id),
                        !children@.contains(parent_id),
                        i <= children.len(),
                        self@ == v.with_parent_all(children@.take(i as int), Some(parent_id)).with_children(
                            parent_id,
                            v.children(parent_id) + children@.take(i as int),
                        ),
                    decreases children.len() - i,
                {
                    let c = children[i];
                    assert(v.has(children@[i as int]));
                    assert(c != parent_id);
                    self.set_as_parent_and_child(&parent_id, &c);
                    assert(children@.take(i + 1) =~= children@.take(i as int).push(c));
                    assert(v.children(parent_id) + children@.take(i + 1) =~= (v.children(parent_id)
                        + children@.take(i as int)).push(c));
                    proof {
                        lemma_with_parent_all_push(v, children@.take(i as int), c, Some(parent_id));
                    }
                    assert(self@.slots =~= v.with_parent_all(children@.take(i + 1), Some(parent_id)).with_children(
                        parent_id,
                        v.children(parent_id) + children@.take(i + 1),
                    ).slots);
                    i += 1;
                }
                assert(children@.take(children.len() as int) =~= children@);
            },
            None => {
                self.clear_parent_of_children(&node_id);
            },
        }
        self.depths = Ghost(
            if v.parent(node_id) is Some {
                v.lower_below(node_id, 1)
            } else {
                v.lower_below(node_id, v.depth(node_id) + 1)
            },
        );
        self.remove_node_internal(node_id)
    }

    /// Removes `node_id` together with its whole subtree. The vacated slots
    /// are remembered in post-order (each child's subtree, then the node).
    fn remove_node_drop_children(&mut self, node_id: NodeId) -> (node: Node<T>)
        requires
            old(self)@.wf(),
            old(self)@.has(node_id),
        ensures
            final(self)@ == old(self)@.remove_subtree(node_id),
            final(self)@.wf(),
            node@ == (NodeView {
                data: old(self)@.node(node_id).data,
                parent: None,
                children: Seq::<NodeId>::empty(),
            }),
        decreases old(self)@.slots.len() - old(self)@.depth(node_id),
    {
        let ghost v = self@;
        proof {
            lemma_drop_start(v, node_id);
            lemma_depth_bound(v, node_id);
        }
        let children = self.get_node(&node_id).children().clone();
        assert(children@ =~= v.children(node_id));
        let mut i: usize = 0;
        while i < children.len()
            invariant
                v == old(self)@,
                v.wf(),
                v.has(node_id),
                v.depth(node_id) < v.slots.len(),
                children@ == v.children(node_id),
                i <= children.len(),
                drop_progress(v, self@, node_id, i as int),
            decreases children.len() - i,
        {
            let c = children[i];
            let ghost cur = self@;
            proof {
                lemma_drop_pre(v, cur, node_id, i as int);
                lemma_depth_bound(cur, c);
            }
            let _removed = self.remove_node_drop_children(c);
            proof {
                lemma_drop_step(v, cur, self@, node_id, i as int);
            }
            i += 1;
        }
        proof {
            lemma_drop_finish(v, self@, node_id);
        }
        self.remove_node_internal(node_id)
    }

    /// Removes `node_id` from the tree as `behavior` says, and returns its
    /// `Node`, which no longer links to anything.
    ///
    /// Fails, leaving the tree unchanged, when `node_id` is not in the tree.
    pub fn remove_node(&mut self, node_id: NodeId, behavior: RemoveBehavior) -> (r: Result<Node<T>, NodeIdError>)
        requires
            old(self)@.wf(),
            old(self)@.in_range(node_id),
        ensures
            final(self)@.wf(),
            old(self)@.has(node_id) ==> {
                &&& r is Ok
                &&& r->Ok_0@ == (NodeView {
                    data: old(self)@.node(node_id).data,
                    parent: None,
                    children: Seq::<NodeId>::empty(),
                })
                &&& final(self)@ == match behavior {
                    RemoveBehavior::DropChildren => old(self)@.remove_subtree(node_id),
                    RemoveBehavior::LiftChildren => old(self)@.remove_lifting(node_id),
                    RemoveBehavior::OrphanChildren => old(self)@.remove_orphaning(node_id),
                }
            },
            !old(self)@.has(node_id) ==> {
                &&& r == Err::<Node<T>, NodeIdError>(NodeIdError::NodeIdNoLongerValid)
                &&& final(self)@ == old(self)@
            },
    {
        self.is_valid_node_id(&node_id)?;
        match behavior {
            RemoveBehavior::DropChildren => Ok(self.remove_node_drop_children(node_id)),
            RemoveBehavior::LiftChildren => Ok(self.remove_node_lift_children(node_id)),
            RemoveBehavior::OrphanChildren => Ok(self.remove_node_orphan_children(node_id)),
        }
    }

    /// The number of levels of the tree: 0 when it has no root, 1 for a
    /// lone root, and one more for each level below.
    pub fn height(&self) -> (h: usize)
        requires
            self@.wf(),
        ensures
            h == self@.height(),
    {
        match self.root {
            Some(id) => self.height_of_node(&id),
            None => 0,
        }
    }

    /// The number of levels of the subtree of `node`.
    fn height_of_node(&self, node: &NodeId) -> (h: usize)
        requires
            self@.wf(),
            self@.has(*node),
        ensures
            h == self@.height_of(*node),
        decreases self@.slots.len() - self@.depth(*node),
    {
        let ghost v = self@;
        let ghost f = (v.slots.len() - v.depth(*node)) as nat;
        proof {
            lemma_depth_bound(v, *node);
            assert(v.node_wf(*node));
            lemma_height_bound(v, *node, f);
        }
        let children = self.get_node(node).children();
        let mut h: usize = 0;
        let mut i: usize = 0;
        assert(children@.take(0) =~= Seq::<NodeId>::empty());
        while i < children.len()
            invariant
                v == self@,
                v.wf(),
                v.has(*node),
                v.node_wf(*node),
                v.depth(*node) < v.slots.len(),
                f == v.slots.len() - v.depth(*node),
                children@ == v.children(*node),
                i <= children.len(),
                h == v.height_forest(children@.take(i as int), (f - 1) as nat),
                h <= usize::MAX,
            decreases children.len() - i,
        {
            let c = &children[i];
            proof {
                assert(v.children(*node).contains(*c));
                lemma_child_facts(v, *node, *c);
                lemma_depth_bound(v, *c);
            }
            let hc = self.height_of_node(c);
            proof {
                assert(children@.take(i + 1) =~= children@.take(i as int).push(*c));
                lemma_height_forest_push(v, children@.take(i as int), *c, (f - 1) as nat);
            }
            if hc > h {
                h = hc;
            }
            i += 1;
        }
        assert(children@.take(children.len() as int) =~= children@);
        let slot_count = self.nodes.len();
        assert(h + 1 <= slot_count);
        h + 1
    }

    /// A mutable reference to a `Node` known to be in the tree.
    pub(crate) fn node_mut(&mut self, node_id: &NodeId) -> (n: &mut Node<T>)
        requires
            old(self)@.has(*node_id),
        ensures
            n@ == old(self)@.node(*node_id),
            final(self)@ == old(self)@.with_node(*node_id, final(n)@),
    {
        let idx = node_id.index();
        let slot = &mut self.nodes[idx];
        slot.as_mut().unwrap()
    }
}


impl<T> Tree<T> {
    /// Walks the `Node`s above `node_id`, nearest first.
    ///
    /// Fails when `node_id` no longer designates a `Node` of the tree.
    pub fn ancestors(&self, node_id: &NodeId) -> (r: Result<Ancestors<'_, T>, NodeIdError>)
        requires
            self@.wf(),
            node_id.idx() <= self@.slots.len(),
        ensures
            r is Ok <==> self@.has(*node_id),
            r matches Ok(it) ==> {
                &&& it.wf()
                &&& it.tree_view() == self@
                &&& it.remaining() == self@.ancestors_of(*node_id)
            },
            r matches Err(e) ==> e == NodeIdError::NodeIdNoLongerValid,
    {
        self.is_valid_node_id(node_id)?;
        Ok(Ancestors::new(self, *node_id))
    }

    /// Walks the ids of the `Node`s above `node_id`, nearest first.
    ///
    /// Fails when `node_id` no longer designates a `Node` of the tree.
    pub fn ancestor_ids(&self, node_id: &NodeId) -> (r: Result<AncestorsIds<'_, T>, NodeIdError>)
        requires
            self@.wf(),
            node_id.idx() <= self@.slots.len(),
        ensures
            r is Ok <==> self@.has(*node_id),
            r matches Ok(it) ==> {
                &&& it.wf()
                &&& it.tree_view() == self@
                &&& it.remaining() == self@.ancestors_of(*node_id)
            },
            r matches Err(e) ==> e == NodeIdError::NodeIdNoLongerValid,
    {
        self.is_valid_node_id(node_id)?;
        Ok(AncestorsIds::new(self, *node_id))
    }

    /// Walks the child `Node`s of `node_id`, first to last.
    ///
    /// Fails when `node_id` no longer designates a `Node` of the tree.
    pub fn children(&self, node_id: &NodeId) -> (r: Result<Children<'_, T>, NodeIdError>)
        requires
            self@.wf(),
            node_id.idx() <= self@.slots.len(),
        ensures
            r is Ok <==> self@.has(*node_id),
            r matches Ok(it) ==> {
                &&& it.wf()
                &&& it.tree_view() == self@
                &&& it.remaining() == self@.children(*node_id)
            },
            r matches Err(e) ==> e == NodeIdError::NodeIdNoLongerValid,
    {
        self.is_valid_node_id(node_id)?;
        Ok(Children::new(self, node_id))
    }

    /// Walks the ids of the children of `node_id`, first to last.
    ///
    /// Fails when `node_id` no longer designates a `Node` of the tree.
    pub fn children_ids(&self, node_id: &NodeId) -> (r: Result<ChildrenIds<'_>, NodeIdError>)
        requires
            node_id.idx() <= self@.slots.len(),
        ensures
            r is Ok <==> self@.has(*node_id),
            r matches Ok(it) ==> it.wf() && it.remaining() == self@.children(*node_id),
            r matches Err(e) ==> e == NodeIdError::NodeIdNoLongerValid,
    {
        self.is_valid_node_id(node_id)?;
        Ok(ChildrenIds::new(self, node_id))
    }

    /// Walks the subtree of `node_id` in pre-order: each `Node` before the
    /// subtrees of its children, taken first child first.
    ///
    /// Fails when `node_id` no longer designates a `Node` of the tree.
    pub fn traverse_pre_order(&self, node_id: &NodeId) -> (r: Result<
        PreOrderTraversal<'_, T>,
        NodeIdError,
    >)
        requires
            self@.wf(),
            node_id.idx() <= self@.slots.len(),
        ensures
            r is Ok <==> self@.has(*node_id),
            r matches Ok(it) ==> {
                &&& it.wf()
                &&& it.tree_view() == self@
                &&& it.remaining() == self@.preorder(*node_id)
            },
            r matches Err(e) ==> e == NodeIdError::NodeIdNoLongerValid,
    {
        self.is_valid_node_id(node_id)?;
        Ok(PreOrderTraversal::new(self, *node_id))
    }

    /// Walks the ids of the subtree of `node_id` in pre-order.
    ///
    /// Fails when `node_id` no longer designates a `Node` of the tree.
    pub fn traverse_pre_order_ids(&self, node_id: &NodeId) -> (r: Result<
        PreOrderTraversalIds<'_, T>,
        NodeIdError,
    >)
        requires
            self@.wf(),
            node_id.idx() <= self@.slots.len(),
        ensures
            r is Ok <==> self@.has(*node_id),
            r matches Ok(it) ==> {
                &&& it.wf()
                &&& it.tree_view() == self@
                &&& it.remaining() == self@.preorder(*node_id)
            },
            r matches Err(e) ==> e == NodeIdError::NodeIdNoLongerValid,
    {
        self.is_valid_node_id(node_id)?;
        Ok(PreOrderTraversalIds::new(self, *node_id))
    }
}

impl<T> Default for Tree<T> {
    /// An empty tree, as `Tree::new`.
    fn default() -> (tree: Self)
        ensures
            tree@.wf(),
            tree@.root is None,
            tree@.slots == Seq::<Option<NodeView<T>>>::empty(),
            tree@.free == Seq::<NodeId>::empty(),
            tree@.depths == Seq::<nat>::empty(),
    {
        Tree::new()
    }
}

/// The number of vacant slots among the first `n` of `slots`.
pub open spec fn vacant_prefix<T>(slots: Seq<Option<NodeView<T>>>, n: int) -> nat
    decreases n,
{
    if n <= 0 {
        0
    } else {
        vacant_prefix(slots, n - 1) + if slots[n - 1] is None {
            1nat
        } else {
            0nat
        }
    }
}

impl<T> Tree<T> {
    /// The number of vacant slots.
    pub fn vacant_slots(&self) -> (n: usize)
        ensures
            n == vacant_prefix(self@.slots, self@.slots.len() as int),
    {
        let len = self.nodes.len();
        let mut count: usize = 0;
        let mut i: usize = 0;
        while i < len
            invariant
                len == self@.slots.len(),
                i <= len,
                count == vacant_prefix(self@.slots, i as int),
                count <= i,
            decreases len - i,
        {
            if self.nodes[i].is_none() {
                count = count + 1;
            }
            i = i + 1;
        }
        count
    }
}

} // verus!
