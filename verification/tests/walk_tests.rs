use filaments::InsertBehavior::{AsRoot, UnderNode};
use filaments::{InsertBehavior, MoveBehavior, Node, NodeId, NodeIdError, RemoveBehavior, Tree};

fn sample() -> (Tree<i32>, Vec<NodeId>) {
    let mut tree = Tree::new();
    let root = tree.insert(Node::new(0), AsRoot).unwrap();
    let a = tree.insert(Node::new(1), UnderNode(&root)).unwrap();
    let b = tree.insert(Node::new(2), UnderNode(&a)).unwrap();
    let c = tree.insert(Node::new(3), UnderNode(&root)).unwrap();
    (tree, vec![root, a, b, c])
}

#[test]
fn ancestors_nearest_first() {
    let (tree, ids) = sample();
    let mut it = tree.ancestors(&ids[2]).unwrap();
    assert_eq!(it.next().unwrap().data(), &1);
    assert_eq!(it.next().unwrap().data(), &0);
    assert!(it.next().is_none());
    assert!(it.next().is_none());
}

#[test]
fn ancestor_ids_nearest_first() {
    let (tree, ids) = sample();
    let mut it = tree.ancestor_ids(&ids[2]).unwrap();
    assert_eq!(it.next(), Some(&ids[1]));
    assert_eq!(it.next(), Some(&ids[0]));
    assert_eq!(it.next(), None);
    let mut top = tree.ancestor_ids(&ids[0]).unwrap();
    assert_eq!(top.next(), None);
}

#[test]
fn children_in_order() {
    let (tree, ids) = sample();
    let mut it = tree.children(&ids[0]).unwrap();
    assert_eq!(it.next().unwrap().data(), &1);
    assert_eq!(it.next().unwrap().data(), &3);
    assert!(it.next().is_none());
    let mut ids_it = tree.children_ids(&ids[0]).unwrap();
    assert_eq!(ids_it.next(), Some(&ids[1]));
    assert_eq!(ids_it.next(), Some(&ids[3]));
    assert_eq!(ids_it.next(), None);
}

#[test]
fn pre_order_walks_subtree() {
    let (tree, ids) = sample();
    let mut it = tree.traverse_pre_order(&ids[0]).unwrap();
    let mut seen = Vec::new();
    while let Some(n) = it.next() {
        seen.push(*n.data());
    }
    assert_eq!(seen, vec![0, 1, 2, 3]);

    let mut it = tree.traverse_pre_order_ids(&ids[1]).unwrap();
    assert_eq!(it.next(), Some(ids[1].clone()));
    assert_eq!(it.next(), Some(ids[2].clone()));
    assert_eq!(it.next(), None);
}

#[test]
fn walks_can_be_cloned() {
    let (tree, ids) = sample();
    let mut it = tree.traverse_pre_order_ids(&ids[0]).unwrap();
    it.next();
    let mut copy = it.clone();
    assert_eq!(it.next(), copy.next());
    let anc = tree.ancestors(&ids[2]).unwrap();
    let mut anc2 = anc.clone();
    assert_eq!(anc2.next().unwrap().data(), &1);
}

#[test]
fn walks_refuse_removed_ids() {
    let (mut tree, ids) = sample();
    tree.remove_node(ids[2].clone(), RemoveBehavior::DropChildren).unwrap();
    assert!(matches!(tree.ancestors(&ids[2]), Err(NodeIdError::NodeIdNoLongerValid)));
    assert!(tree.children(&ids[2]).is_err());
    assert!(tree.children_ids(&ids[2]).is_err());
    assert!(tree.traverse_pre_order(&ids[2]).is_err());
    assert!(tree.traverse_pre_order_ids(&ids[2]).is_err());
    assert!(tree.ancestor_ids(&ids[2]).is_err());
}

#[test]
fn drop_children_removes_whole_subtree() {
    let (mut tree, ids) = sample();
    let removed = tree.remove_node(ids[1].clone(), RemoveBehavior::DropChildren).unwrap();
    assert_eq!(removed.data(), &1);
    assert!(removed.children().is_empty());
    assert!(removed.parent().is_none());
    assert!(tree.get(&ids[1]).is_err());
    assert!(tree.get(&ids[2]).is_err());
    assert_eq!(tree.get(&ids[0]).unwrap().children(), &vec![ids[3].clone()]);
}

#[test]
fn removed_slot_is_reused_first() {
    let (mut tree, ids) = sample();
    tree.remove_node(ids[3].clone(), RemoveBehavior::OrphanChildren).unwrap();
    let again = tree.insert(Node::new(9), InsertBehavior::UnderNode(&ids[0])).unwrap();
    assert_eq!(again, ids[3]);
    assert_eq!(tree.get(&again).unwrap().data(), &9);
}

#[test]
fn insert_under_removed_parent_fails() {
    let (mut tree, ids) = sample();
    tree.remove_node(ids[3].clone(), RemoveBehavior::OrphanChildren).unwrap();
    let r = tree.insert(Node::new(5), InsertBehavior::UnderNode(&ids[3]));
    assert_eq!(r, Err(NodeIdError::NodeIdNoLongerValid));
}

#[test]
fn move_to_root_through_move_node() {
    let (mut tree, ids) = sample();
    tree.move_node(&ids[2], MoveBehavior::ToRoot).unwrap();
    assert_eq!(tree.root_node_id(), Some(&ids[2]));
    assert_eq!(tree.get(&ids[2]).unwrap().children(), &vec![ids[0].clone()]);
    assert!(tree.get(&ids[1]).unwrap().children().is_empty());
    assert_eq!(tree.height(), 3);
}

#[test]
fn moving_removed_node_fails() {
    let (mut tree, ids) = sample();
    tree.remove_node(ids[2].clone(), RemoveBehavior::OrphanChildren).unwrap();
    let r = tree.move_node(&ids[2], MoveBehavior::ToParent(&ids[0]));
    assert_eq!(r, Err(NodeIdError::NodeIdNoLongerValid));
}

#[test]
fn error_message() {
    let e = NodeIdError::NodeIdNoLongerValid;
    assert_eq!(
        e.to_string(),
        "The given NodeId is no longer valid. The Node in question has been removed."
    );
    assert_eq!(
        e.display(),
        "NodeIdError: The given NodeId is no longer valid. The Node in question has been removed."
    );
}

#[test]
fn tree_equality_reflexive_and_symmetric() {
    let (a, _) = sample();
    let (b, _) = sample();
    assert!(a == a);
    assert!(a == b && b == a);
    let (mut c, ids) = sample();
    c.get_mut(&ids[3]).unwrap().replace_data(30);
    assert!(a != c && c != a);
}

#[test]
fn drawing_has_one_line_per_node() {
    let (tree, _) = sample();
    let mut s = String::new();
    tree.write_formatted(&mut s).unwrap();
    assert_eq!(s.lines().count(), 4);
}
