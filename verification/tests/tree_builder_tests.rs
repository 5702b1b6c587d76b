use filaments::{Node, Tree, TreeBuilder};

/// A new builder and a new tree are both empty (the builder's `new` and the
/// tree's `new` share this test name).
#[test]
fn tree_test_new() {
    let tb: TreeBuilder<i32> = TreeBuilder::new();
    assert!(tb.root().is_none());
    assert_eq!(tb.node_capacity(), 0);
    assert_eq!(tb.swap_capacity(), 0);

    let tree: Tree<i32> = Tree::new();

    assert_eq!(tree.root_node_id(), None);
    assert_eq!(tree.nodes_len(), 0);
    assert_eq!(tree.free_ids_len(), 0);
}

#[test]
fn new_tree_has_no_root_and_no_slots() {
    let tree: Tree<i32> = Tree::new();

    assert_eq!(tree.root_node_id(), None);
    assert_eq!(tree.nodes_len(), 0);
    assert_eq!(tree.free_ids_len(), 0);
}

#[test]
fn test_with_root() {
    let tb: TreeBuilder<i32> = TreeBuilder::new().with_root(Node::new(5));

    assert_eq!(tb.root().unwrap().data(), &5);
    assert_eq!(tb.node_capacity(), 0);
    assert_eq!(tb.swap_capacity(), 0);
}

#[test]
fn test_with_node_capacity() {
    let tb: TreeBuilder<i32> = TreeBuilder::new().with_node_capacity(10);

    assert!(tb.root().is_none());
    assert_eq!(tb.node_capacity(), 10);
    assert_eq!(tb.swap_capacity(), 0);
}

#[test]
fn test_with_swap_capacity() {
    let tb: TreeBuilder<i32> = TreeBuilder::new().with_swap_capacity(10);

    assert!(tb.root().is_none());
    assert_eq!(tb.node_capacity(), 0);
    assert_eq!(tb.swap_capacity(), 10);
}

#[test]
fn test_with_all_settings() {
    let tb: TreeBuilder<i32> = TreeBuilder::new()
        .with_root(Node::new(5))
        .with_node_capacity(10)
        .with_swap_capacity(3);

    assert_eq!(tb.root().unwrap().data(), &5);
    assert_eq!(tb.node_capacity(), 10);
    assert_eq!(tb.swap_capacity(), 3);
}

#[test]
fn test_build() {
    let tree = TreeBuilder::new()
        .with_root(Node::new(5))
        .with_node_capacity(10)
        .with_swap_capacity(3)
        .build();

    let root = tree.get(tree.root_node_id().unwrap()).unwrap();

    assert_eq!(root.data(), &5);
    assert_eq!(tree.capacity(), 10);
    assert_eq!(tree.free_ids_capacity(), 3);
}

#[test]
fn builder_default_is_new() {
    let tb: TreeBuilder<i32> = TreeBuilder::default();
    assert!(tb.root().is_none());
    assert_eq!(tb.node_capacity(), 0);
    assert_eq!(tb.swap_capacity(), 0);
    let tree: Tree<i32> = Tree::default();
    assert_eq!(tree.root_node_id(), None);
    assert_eq!(tree.nodes_len(), 0);
}

#[test]
fn build_without_root_is_empty() {
    let tree: Tree<i32> = TreeBuilder::new().with_node_capacity(4).build();
    assert_eq!(tree.root_node_id(), None);
    assert_eq!(tree.height(), 0);
    assert!(tree.capacity() >= 4);
}
