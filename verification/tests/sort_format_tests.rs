use filaments::{Node, Tree};
use filaments::InsertBehavior::{AsRoot, UnderNode};
use filaments::MoveBehavior::{ToParent, ToRoot};

#[test]
fn sort_children_by_compare() {
    let mut tree: Tree<i32> = Tree::new();

    let root_id = tree.insert(Node::new(100), AsRoot).unwrap();
    tree.insert(Node::new(1), UnderNode(&root_id)).unwrap();
    tree.insert(Node::new(2), UnderNode(&root_id)).unwrap();
    tree.insert(Node::new(0), UnderNode(&root_id)).unwrap();

    tree.sort_children_by(&root_id, |a, b| a.data().cmp(b.data())).unwrap();

    for (i, id) in tree.get(&root_id).unwrap().children().iter().enumerate() {
        assert_eq!(*tree.get(id).unwrap().data(), i as i32);
    }
}

#[test]
fn sort_children_by_data_orders_data() {
    let mut tree: Tree<i32> = Tree::new();

    let root_id = tree.insert(Node::new(100), AsRoot).unwrap();
    tree.insert(Node::new(1), UnderNode(&root_id)).unwrap();
    tree.insert(Node::new(2), UnderNode(&root_id)).unwrap();
    tree.insert(Node::new(0), UnderNode(&root_id)).unwrap();

    tree.sort_children_by_data(&root_id).unwrap();

    for (i, id) in tree.get(&root_id).unwrap().children().iter().enumerate() {
        assert_eq!(*tree.get(id).unwrap().data(), i as i32);
    }
}

#[test]
fn sort_is_stable() {
    let mut tree: Tree<(i32, char)> = Tree::new();
    let root_id = tree.insert(Node::new((0, 'r')), AsRoot).unwrap();
    tree.insert(Node::new((2, 'a')), UnderNode(&root_id)).unwrap();
    tree.insert(Node::new((1, 'b')), UnderNode(&root_id)).unwrap();
    tree.insert(Node::new((2, 'c')), UnderNode(&root_id)).unwrap();
    tree.insert(Node::new((1, 'd')), UnderNode(&root_id)).unwrap();
    tree.sort_children_by(&root_id, |a, b| a.data().0.cmp(&b.data().0)).unwrap();
    let order: Vec<char> = tree
        .get(&root_id)
        .unwrap()
        .children()
        .iter()
        .map(|id| tree.get(id).unwrap().data().1)
        .collect();
    assert_eq!(order, vec!['b', 'd', 'a', 'c']);
}

#[test]
fn sort_of_removed_node_fails() {
    let mut tree: Tree<i32> = Tree::new();
    let root_id = tree.insert(Node::new(100), AsRoot).unwrap();
    let child = tree.insert(Node::new(1), UnderNode(&root_id)).unwrap();
    tree.remove_node(child.clone(), filaments::RemoveBehavior::DropChildren).unwrap();
    assert!(tree.sort_children_by_data(&child).is_err());
}

#[test]
fn write_formatted_draws_tree() {
    let mut tree = Tree::<i32>::new();
    let root_id = tree.insert(Node::new(0), AsRoot).unwrap();
    let first_child_id = tree.insert(Node::new(1), UnderNode(&root_id)).unwrap();
    let _ = tree.insert(Node::new(2), UnderNode(&first_child_id)).unwrap();
    let _ = tree.insert(Node::new(3), UnderNode(&root_id)).unwrap();
    let mut s = String::new();
    tree.write_formatted(&mut s).unwrap();
    assert_eq!(&s, "0\n├── 1\n│   └── 2\n└── 3\n");
}

#[test]
fn write_formatted_empty_tree() {
    let tree = Tree::<i32>::new();
    let mut s = String::new();
    tree.write_formatted(&mut s).unwrap();
    assert_eq!(&s, "");
}

#[test]
fn write_formatted_with_given_labels() {
    let mut tree = Tree::<i32>::new();
    let root_id = tree.insert(Node::new(0), AsRoot).unwrap();
    let a = tree.insert(Node::new(1), UnderNode(&root_id)).unwrap();
    let _ = tree.insert(Node::new(2), UnderNode(&a)).unwrap();
    let labels = vec!["r".to_string(), "a".to_string(), "b".to_string()];
    let mut s = String::from(">");
    tree.write_formatted_with_labels(&mut s, &labels);
    assert_eq!(&s, ">r\n└── a\n    └── b\n");
}

#[test]
fn sort_keeps_equal_children_in_order() {
    let mut tree: Tree<(i32, char)> = Tree::new();
    let root_id = tree.insert(Node::new((0, 'r')), AsRoot).unwrap();
    tree.insert(Node::new((2, 'a')), UnderNode(&root_id)).unwrap();
    tree.insert(Node::new((1, 'b')), UnderNode(&root_id)).unwrap();
    tree.insert(Node::new((2, 'c')), UnderNode(&root_id)).unwrap();
    tree.insert(Node::new((1, 'd')), UnderNode(&root_id)).unwrap();

    tree.sort_children_by(&root_id, |a, b| a.data().0.cmp(&b.data().0)).unwrap();

    let order: Vec<char> = tree
        .get(&root_id)
        .unwrap()
        .children()
        .iter()
        .map(|id| tree.get(id).unwrap().data().1)
        .collect();
    assert_eq!(order, vec!['b', 'd', 'a', 'c']);
}

#[test]
fn sort_by_data_keeps_equal_children_in_order() {
    let mut tree: Tree<i32> = Tree::new();
    let root_id = tree.insert(Node::new(0), AsRoot).unwrap();
    let a = tree.insert(Node::new(3), UnderNode(&root_id)).unwrap();
    let b = tree.insert(Node::new(1), UnderNode(&root_id)).unwrap();
    let c = tree.insert(Node::new(3), UnderNode(&root_id)).unwrap();

    tree.sort_children_by_data(&root_id).unwrap();

    assert_eq!(tree.get(&root_id).unwrap().children(), &vec![b, a, c]);
}

#[test]
fn moving_the_root_to_the_root_changes_nothing() {
    let mut tree: Tree<i32> = Tree::new();
    let root_id = tree.insert(Node::new(1), AsRoot).unwrap();
    let child = tree.insert(Node::new(2), UnderNode(&root_id)).unwrap();

    tree.move_node(&root_id, ToRoot).unwrap();

    assert_eq!(tree.root_node_id(), Some(&root_id));
    assert_eq!(tree.get(&root_id).unwrap().parent(), None);
    assert_eq!(tree.get(&root_id).unwrap().children(), &vec![child]);
    assert_eq!(tree.get(&child).unwrap().parent(), Some(&root_id));
}

#[test]
fn moving_a_node_under_itself_changes_nothing() {
    let mut tree: Tree<i32> = Tree::new();
    let root_id = tree.insert(Node::new(1), AsRoot).unwrap();
    let child = tree.insert(Node::new(2), UnderNode(&root_id)).unwrap();

    tree.move_node(&child, ToParent(&child)).unwrap();

    assert_eq!(tree.get(&child).unwrap().parent(), Some(&root_id));
    assert_eq!(tree.get(&child).unwrap().children().len(), 0);
    assert_eq!(tree.get(&root_id).unwrap().children(), &vec![child]);
}

#[test]
fn moving_the_root_under_a_stray_node_changes_nothing() {
    let mut tree: Tree<i32> = Tree::new();
    let root_id = tree.insert(Node::new(1), AsRoot).unwrap();
    let child = tree.insert(Node::new(2), UnderNode(&root_id)).unwrap();
    let stray = tree.insert(Node::new(3), UnderNode(&child)).unwrap();
    tree.remove_node(child, filaments::RemoveBehavior::OrphanChildren).unwrap();

    tree.move_node(&root_id, ToParent(&stray)).unwrap();

    assert_eq!(tree.root_node_id(), Some(&root_id));
    assert_eq!(tree.get(&root_id).unwrap().parent(), None);
    assert_eq!(tree.get(&stray).unwrap().parent(), None);
    assert_eq!(tree.get(&stray).unwrap().children().len(), 0);
}

#[test]
fn drawing_has_one_guided_line_per_node() {
    let mut tree: Tree<i32> = Tree::new();
    let root_id = tree.insert(Node::new(0), AsRoot).unwrap();
    let a = tree.insert(Node::new(1), UnderNode(&root_id)).unwrap();
    tree.insert(Node::new(2), UnderNode(&a)).unwrap();
    tree.insert(Node::new(3), UnderNode(&root_id)).unwrap();

    let mut s = String::new();
    tree.write_formatted(&mut s).unwrap();
    assert_eq!(s, "0\n├── 1\n│   └── 2\n└── 3\n");
}
