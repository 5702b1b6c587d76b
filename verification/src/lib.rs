//! Filaments: a personal knowledge system with task tracking.
//!
//! The heart of the library is `Tree`, an arena-backed tree of `Node`s
//! addressed by `NodeId`s, together with the small value types and text
//! parsers that the rest of the application builds upon.
//!
//! - the tree: `node_id`, `error`, `behaviors`, `node`, `tree`, with its
//!   walks (`iterators`), reordering (`sort`), drawing (`render`) and
//!   equality (`eq`); `model` and `order` hold its abstract state and the
//!   orders it is walked in, `laws` what holds across its operations;
//! - values: `color`, `priority`, `nano_id`, `signal`, `regions`;
//! - text: `text`, `keymap` (key specs), `bindings` (the key bindings of a
//!   configuration), `config` (the configuration file), `wikilink`, `search`, `completion`;
//! - decisions of the interface: `inspector`, `todo`, `zk`.

pub mod node_id;
pub mod error;
pub mod behaviors;
pub mod node;
pub mod model;
pub mod order;
pub mod tree;
pub mod iterators;
pub mod sort;
pub mod render;
pub mod eq;
pub mod laws;

pub mod color;
pub mod priority;
pub mod nano_id;
pub mod signal;
pub mod regions;

pub mod text;
pub mod keymap;
pub mod bindings;
pub mod config;
pub mod wikilink;
pub mod search;
pub mod completion;
pub mod inspector;
pub mod todo;
pub mod zk;

pub use behaviors::{InsertBehavior, MoveBehavior, RemoveBehavior};
pub use error::NodeIdError;
pub use iterators::{
    Ancestors, AncestorsIds, Children, ChildrenIds, PreOrderTraversal, PreOrderTraversalIds,
};
pub use model::TreeView;
pub use node::{Node, NodeView};
pub use node_id::NodeId;
pub use tree::{Tree, TreeBuilder};
pub use color::Color;
pub use nano_id::NanoId;
pub use priority::Priority;
pub use regions::{Region, TodoRegion};
pub use signal::Signal;
