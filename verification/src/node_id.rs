use vstd::prelude::*;

verus! {

/// Identifies a `Node` inside a `Tree`: the index of the slot that holds it.
#[derive(Debug, Clone, Copy, PartialEq, Eq, Structural, Hash, PartialOrd, Ord)]
pub struct NodeId {
    index: u32,
}

impl NodeId {
    /// The slot index that this id designates.
    pub closed spec fn idx(self) -> nat {
        self.index as nat
    }

    /// The id that designates slot `i`.
    pub closed spec fn from_idx(i: nat) -> NodeId {
        NodeId { index: i as u32 }
    }

    /// Slot indices always fit in 32 bits.
    pub broadcast proof fn lemma_idx_bound(id: NodeId)
        ensures
            #[trigger] id.idx() <= u32::MAX,
    {
    }

    /// `from_idx` gives back the index it was made from.
    pub broadcast proof fn lemma_from_idx(i: nat)
        requires
            i <= u32::MAX,
        ensures
            #[trigger] NodeId::from_idx(i).idx() == i,
    {
    }

    /// An id is the id of its own index.
    pub broadcast proof fn lemma_from_idx_of_idx(id: NodeId)
        ensures
            #[trigger] NodeId::from_idx(id.idx()) == id,
    {
    }

    /// Two ids are equal exactly when their indices are.
    pub broadcast proof fn lemma_idx_injective(a: NodeId, b: NodeId)
        ensures
            #![trigger a.idx(), b.idx()]
            a.idx() == b.idx() <==> a == b,
    {
    }

    /// Creates the id of slot `index`.
    pub fn new(index: usize) -> (id: NodeId)
        requires
            index <= u32::MAX,
        ensures
            id.idx() == index,
    {
        NodeId { index: index as u32 }
    }

    /// The slot index that this id designates.
    pub fn index(&self) -> (i: usize)
        ensures
            i == self.idx(),
    {
        self.index as usize
    }
}

pub broadcast group group_node_id {
    NodeId::lemma_idx_bound,
    NodeId::lemma_from_idx,
    NodeId::lemma_idx_injective,
    NodeId::lemma_from_idx_of_idx,
}

} // verus!
