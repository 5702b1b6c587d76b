use vstd::prelude::*;

use crate::node_id::NodeId;
use vstd::std_specs::cmp::PartialEqSpec;

verus! {

/// The abstract content of a `Node`: its data, its parent and its ordered
/// children.
pub struct NodeView<T> {
    pub data: T,
    pub parent: Option<NodeId>,
    pub children: Seq<NodeId>,
}

/// A `Node` of a `Tree`: some data plus the links to its parent and children.
#[derive(Debug, Eq, PartialOrd, Ord)]
pub struct Node<T> {
    data: T,
    parent: Option<NodeId>,
    children: Vec<NodeId>,
}

impl<T> View for Node<T> {
    type V = NodeView<T>;

    closed spec fn view(&self) -> NodeView<T> {
        NodeView { data: self.data, parent: self.parent, children: self.children@ }
    }
}

/// A node that links to nothing: no parent and no children.
pub open spec fn detached<T>(n: NodeView<T>) -> bool {
    n.parent is None && n.children.len() == 0
}

impl<T> Node<T> {
    /// Creates a new `Node` with the provided data, no parent and no children.
    pub fn new(data: T) -> (n: Node<T>)
        ensures
            n@ == (NodeView { data, parent: None, children: Seq::<NodeId>::empty() }),
    {
        let n = Node { parent: None, data, children: Vec::new() };
        assert(n@.children =~= Seq::<NodeId>::empty());
        n
    }

    /// The data held by this `Node`.
    pub fn data(&self) -> (d: &T)
        ensures
            *d == self@.data,
    {
        &self.data
    }

    /// A mutable reference to the data held by this `Node`; the links of the
    /// `Node` are left as they are.
    pub fn data_mut(&mut self) -> (d: &mut T)
        ensures
            *d == old(self)@.data,
            final(self)@ == (NodeView { data: *final(d), ..old(self)@ }),
    {
        &mut self.data
    }

    /// Replaces the data of this `Node`, returning the data it held before.
    pub fn replace_data(&mut self, data: T) -> (previous: T)
        ensures
            previous == old(self)@.data,
            final(self)@ == (NodeView { data, ..old(self)@ }),
    {
        let mut data = data;
        std::mem::swap(&mut data, &mut self.data);
        data
    }

    /// The parent of this `Node`, if it has one.
    pub fn parent(&self) -> (p: Option<&NodeId>)
        ensures
            match p {
                Some(id) => self@.parent == Some(*id),
                None => self@.parent is None,
            },
    {
        self.parent.as_ref()
    }

    /// The children of this `Node`, in order.
    pub fn children(&self) -> (c: &Vec<NodeId>)
        ensures
            c@ == self@.children,
    {
        &self.children
    }

    /// A mutable reference to the children of this `Node`.
    pub fn children_mut(&mut self) -> (c: &mut Vec<NodeId>)
        ensures
            c@ == old(self)@.children,
            final(self)@ == (NodeView { children: final(c)@, ..old(self)@ }),
    {
        &mut self.children
    }

    /// Sets the parent link of this `Node`.
    pub fn set_parent(&mut self, parent: Option<NodeId>)
        ensures
            final(self)@ == (NodeView { parent, ..old(self)@ }),
    {
        self.parent = parent;
    }

    /// Appends a child to this `Node`'s children.
    pub fn add_child(&mut self, child: NodeId)
        ensures
            final(self)@ == (NodeView { children: old(self)@.children.push(child), ..old(self)@ }),
    {
        self.children.push(child);
    }

    /// Replaces the children of this `Node`.
    pub fn set_children(&mut self, children: Vec<NodeId>)
        ensures
            final(self)@ == (NodeView { children: children@, ..old(self)@ }),
    {
        self.children = children;
    }

    /// Takes the children out of this `Node`, leaving it without children.
    pub fn take_children(&mut self) -> (children: Vec<NodeId>)
        ensures
            children@ == old(self)@.children,
            final(self)@ == (NodeView { children: Seq::<NodeId>::empty(), ..old(self)@ }),
    {
        let mut empty: Vec<NodeId> = Vec::with_capacity(0);
        std::mem::swap(&mut self.children, &mut empty);
        assert(self.children@ =~= Seq::<NodeId>::empty());
        empty
    }
}

impl<T: PartialEq> PartialEq for Node<T> {
    /// Two `Node`s are equal when their data are; the links are not compared.
    fn eq(&self, other: &Self) -> (r: bool) {
        self.data == other.data
    }
}

impl<T: PartialEq> vstd::std_specs::cmp::PartialEqSpecImpl for Node<T> {
    open spec fn obeys_eq_spec() -> bool {
        T::obeys_eq_spec()
    }

    open spec fn eq_spec(&self, other: &Self) -> bool {
        self@.data.eq_spec(&other@.data)
    }
}

/// The abstract content of an optional node.
pub open spec fn opt_view<T>(o: Option<Node<T>>) -> Option<NodeView<T>> {
    match o {
        Some(n) => Some(n@),
        None => None,
    }
}

/// The abstract content of a sequence of optional nodes.
pub open spec fn slots_view<T>(s: Seq<Option<Node<T>>>) -> Seq<Option<NodeView<T>>> {
    s.map_values(|o: Option<Node<T>>| opt_view(o))
}

/// Replacing one slot commutes with taking the abstract content.
pub broadcast proof fn lemma_slots_view_update<T>(s: Seq<Option<Node<T>>>, i: int, o: Option<Node<T>>)
    requires
        0 <= i < s.len(),
    ensures
        #[trigger] slots_view(s.update(i, o)) == slots_view(s).update(i, opt_view(o)),
{
    assert(slots_view(s.update(i, o)) =~= slots_view(s).update(i, opt_view(o)));
}

/// Appending a slot commutes with taking the abstract content.
pub broadcast proof fn lemma_slots_view_push<T>(s: Seq<Option<Node<T>>>, o: Option<Node<T>>)
    ensures
        #[trigger] slots_view(s.push(o)) == slots_view(s).push(opt_view(o)),
{
    assert(slots_view(s.push(o)) =~= slots_view(s).push(opt_view(o)));
}

} // verus!
