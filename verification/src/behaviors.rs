use vstd::prelude::*;

use crate::node_id::NodeId;

verus! {

/// How `Tree::insert` places a new `Node`.
pub enum InsertBehavior<'a> {
    /// Insert the `Node` as the root of the tree. If the tree already has a
    /// root, that root becomes the first child of the new root.
    AsRoot,
    /// Insert the `Node` as the last child of the `Node` with the given id.
    UnderNode(&'a NodeId),
}

/// What `Tree::remove_node` does with the children of the removed `Node`.
pub enum RemoveBehavior {
    /// The whole subtree of the removed `Node` is removed with it.
    DropChildren,
    /// The children are handed to the parent of the removed `Node` (appended
    /// to its children). Without a parent this is `OrphanChildren`.
    LiftChildren,
    /// The children stay in the tree with no parent.
    OrphanChildren,
}

/// How `Tree::move_node` relocates a `Node`.
pub enum MoveBehavior<'a> {
    /// The `Node`, with its subtree, becomes the root; the previous root
    /// becomes its last child.
    ToRoot,
    /// The `Node` becomes the last child of the `Node` with the given id;
    /// its children travel with it. When the new parent lies below the moved
    /// `Node`, the child of the moved `Node` on the path to the new parent
    /// first takes the moved `Node`'s place.
    ToParent(&'a NodeId),
}

} // verus!
