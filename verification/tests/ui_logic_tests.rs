use filaments::color::Color;
use filaments::completion::{
    completion_kind, link_completions, switcher_labels, tag_detail, CompletionKind,
};
use filaments::inspector::{
    inspector_step, EditField, Inspected, InspectorAction, InspectorInput,
};
use filaments::regions::{Region, TodoRegion};
use filaments::todo::{explorer_ids, inspect_target, reselect, todo_step, TodoAction, TodoInput};
use filaments::inspector::first_line_holds;
use filaments::{Node, Tree};
use filaments::InsertBehavior::{AsRoot, UnderNode};
use filaments::zk::{zk_key_edits_query, zk_step, ZkAction, ZkInput};
use filaments::keymap::KeyCode;
use filaments::NodeId;
use filaments::signal::Signal;

#[test]
fn link_completions_skip_own_note() {
    let notes = vec![
        ("abc".to_string(), "First".to_string()),
        ("own".to_string(), "Me".to_string()),
        ("xyz".to_string(), "Third".to_string()),
    ];
    assert_eq!(
        link_completions("own", &notes),
        vec!["abc|First".to_string(), "xyz|Third".to_string()]
    );
}

#[test]
fn tag_detail_shows_colour() {
    let c = Color::new(1, 2, 255);
    assert_eq!(tag_detail("work", &c), "work\ncolor: #0102FF");
}

#[test]
fn switcher_marks_selected() {
    let labels = switcher_labels(Region::Zk);
    assert_eq!(labels, vec![(" Home ".to_string(), false), (" Zk ".to_string(), true)]);
}

#[test]
fn inspector_edits_name_then_saves() {
    let start = inspector_step(None, Inspected::Group, InspectorInput::EditName {
        holds_default_name: true,
    });
    assert_eq!(start.editing, Some(EditField::Name));
    assert_eq!(
        start.action,
        InspectorAction::StartEditing { field: EditField::Name, clear_line: true }
    );
    assert_eq!(start.reply, Some(Signal::EnterRawText));

    let typed = inspector_step(start.editing, Inspected::Group, InspectorInput::Key { enter: false });
    assert_eq!(typed.action, InspectorAction::Type(EditField::Name));
    assert_eq!(typed.editing, Some(EditField::Name));

    let done = inspector_step(typed.editing, Inspected::Group, InspectorInput::Key { enter: true });
    assert_eq!(done.editing, None);
    assert_eq!(done.action, InspectorAction::SaveName { also_tag: true });
    assert_eq!(done.notify, Some(Signal::ExitRawText));
    assert_eq!(done.reply, Some(Signal::Refresh));
}

#[test]
fn inspector_priority_and_root() {
    let p = inspector_step(None, Inspected::Task, InspectorInput::EditPriority);
    assert_eq!(p.editing, Some(EditField::Priority));
    let done = inspector_step(p.editing, Inspected::Task, InspectorInput::Key { enter: true });
    assert_eq!(done.action, InspectorAction::StopEditingPriority);
    assert_eq!(done.reply, Some(Signal::ExitRawText));
    assert_eq!(done.notify, None);

    let root = inspector_step(None, Inspected::Root, InspectorInput::EditName {
        holds_default_name: false,
    });
    assert_eq!(root.editing, None);
    assert_eq!(root.action, InspectorAction::Nothing);
    assert_eq!(root.reply, None);
}

#[test]
fn todo_focus_and_moves() {
    let s = todo_step(TodoRegion::Explorer, TodoInput::SwitchTo(TodoRegion::TaskList));
    assert_eq!(s.active, TodoRegion::TaskList);
    assert_eq!(
        s.action,
        TodoAction::Focus { inspector: false, explorer: false, task_list: true }
    );
    let m = todo_step(TodoRegion::TaskList, TodoInput::MoveDown);
    assert_eq!(m.action, TodoAction::MoveSelection { down: true, in_explorer: false });
    let n = todo_step(TodoRegion::Inspector, TodoInput::MoveUp);
    assert_eq!(n.action, TodoAction::Nothing);
    let g = todo_step(TodoRegion::Explorer, TodoInput::NewGroup);
    assert_eq!(g.action, TodoAction::CreateGroup);
    assert_eq!(g.reply, Some(Signal::Refresh));
    let g2 = todo_step(TodoRegion::TaskList, TodoInput::NewGroup);
    assert_eq!(g2.action, TodoAction::Nothing);
}

#[test]
fn completion_triggers() {
    assert_eq!(completion_kind(Some("[[")), Some(CompletionKind::Link));
    assert_eq!(completion_kind(Some("@")), Some(CompletionKind::Tag));
    assert_eq!(completion_kind(Some("[")), None);
    assert_eq!(completion_kind(None), None);
}

#[test]
fn reselect_follows_the_selected_id() {
    let old = vec![NodeId::new(4), NodeId::new(7), NodeId::new(9)];
    let new = vec![NodeId::new(9), NodeId::new(7)];
    assert_eq!(reselect(&old, Some(1), &new), Some(1));
    assert_eq!(reselect(&old, Some(0), &new), None);
    assert_eq!(reselect(&old, Some(5), &new), None);
    assert_eq!(reselect(&old, None, &new), None);
}

#[test]
fn zk_page_moves_only_when_active() {
    assert_eq!(zk_step(false, ZkInput::MoveDown).action, ZkAction::Nothing);
    assert_eq!(zk_step(true, ZkInput::MoveDown).action, ZkAction::MoveSelection { down: true });
    assert_eq!(zk_step(true, ZkInput::OpenZettel).action, ZkAction::OpenSelected);
    assert_eq!(zk_step(false, ZkInput::OpenZettel).action, ZkAction::Nothing);
    assert!(zk_step(false, ZkInput::SwitchTo { zk: true }).active);
    assert!(!zk_step(true, ZkInput::SwitchTo { zk: false }).active);
    assert_eq!(zk_step(false, ZkInput::NewZettel).action, ZkAction::CreateFromQuery);
    assert!(zk_key_edits_query(KeyCode::Char('a')));
    assert!(!zk_key_edits_query(KeyCode::Tab));
}

#[test]
fn placeholder_on_the_first_line() {
    let lines = vec!["New task (rename me)".to_string(), "more".to_string()];
    assert!(first_line_holds(&lines, "rename me"));
    assert!(!first_line_holds(&lines, "more"));
    assert!(!first_line_holds(&vec![], "x"));
    assert!(first_line_holds(&vec!["abc".to_string()], ""));
}

#[test]
fn inspector_shows_the_selection_of_the_focused_list() {
    let explorer = vec![NodeId::new(1), NodeId::new(2)];
    let tasks = vec![NodeId::new(5)];
    assert_eq!(
        inspect_target(TodoRegion::Explorer, &explorer, Some(1), &tasks, Some(0)),
        Some(NodeId::new(2))
    );
    assert_eq!(
        inspect_target(TodoRegion::TaskList, &explorer, Some(1), &tasks, Some(0)),
        Some(NodeId::new(5))
    );
    assert_eq!(inspect_target(TodoRegion::TaskList, &explorer, Some(1), &tasks, Some(3)), None);
    assert_eq!(inspect_target(TodoRegion::Inspector, &explorer, Some(1), &tasks, Some(0)), None);
}

#[test]
fn explorer_lists_the_subtree_without_its_top() {
    let mut tree: Tree<i32> = Tree::new();
    let root = tree.insert(Node::new(0), AsRoot).unwrap();
    let a = tree.insert(Node::new(1), UnderNode(&root)).unwrap();
    let b = tree.insert(Node::new(2), UnderNode(&a)).unwrap();
    let c = tree.insert(Node::new(3), UnderNode(&root)).unwrap();
    assert_eq!(explorer_ids(&tree, &root).unwrap(), vec![a, b, c]);
    assert_eq!(explorer_ids(&tree, &b).unwrap(), Vec::<NodeId>::new());
}
