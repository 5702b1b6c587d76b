use vstd::prelude::*;

use crate::error::NodeIdError;
use crate::node_id::NodeId;
use crate::order::lemma_pre_tree_exact;
use crate::tree::Tree;
use crate::regions::TodoRegion;
use crate::signal::Signal;

verus! {

/// What reaches the to-do page.
#[derive(Debug, Clone, Copy, PartialEq, Eq, Structural)]
pub enum TodoInput {
    /// Switch the focus to a region of the page.
    SwitchTo(TodoRegion),
    MoveDown,
    MoveUp,
    NewGroup,
    Refresh,
    Other,
}

/// What the to-do page does.
#[derive(Debug, Clone, Copy, PartialEq, Eq, Structural)]
pub enum TodoAction {
    Nothing,
    /// Show the inspector, the explorer and the task list active or not,
    /// then show the selected item in the inspector.
    Focus { inspector: bool, explorer: bool, task_list: bool },
    /// Move the selection of the list with the focus one down (or up),
    /// then show the selected item in the inspector.
    MoveSelection { down: bool, in_explorer: bool },
    /// Create a new group at the top level.
    CreateGroup,
    /// Reload the lists from the notes.
    Reload,
}

/// One step of the to-do page: the region with the focus afterwards, what
/// to do, and the signal to answer with.
pub struct TodoStep {
    pub active: TodoRegion,
    pub action: TodoAction,
    pub reply: Option<Signal>,
}

/// The step the to-do page takes: switching the focus activates exactly
/// the region switched to; moving the selection works in the explorer and
/// the task list only; groups are created from the explorer only.
pub open spec fn todo_next(active: TodoRegion, input: TodoInput) -> TodoStep {
    let unchanged = TodoStep { active, action: TodoAction::Nothing, reply: None };
    match input {
        TodoInput::SwitchTo(r) => TodoStep {
            active: r,
            action: TodoAction::Focus {
                inspector: r == TodoRegion::Inspector,
                explorer: r == TodoRegion::Explorer,
                task_list: r == TodoRegion::TaskList,
            },
            reply: None,
        },
        TodoInput::MoveDown => if active == TodoRegion::Inspector {
            unchanged
        } else {
            TodoStep {
                active,
                action: TodoAction::MoveSelection { down: true, in_explorer: active == TodoRegion::Explorer },
                reply: None,
            }
        },
        TodoInput::MoveUp => if active == TodoRegion::Inspector {
            unchanged
        } else {
            TodoStep {
                active,
                action: TodoAction::MoveSelection { down: false, in_explorer: active == TodoRegion::Explorer },
                reply: None,
            }
        },
        TodoInput::NewGroup => if active == TodoRegion::Explorer {
            TodoStep { active, action: TodoAction::CreateGroup, reply: Some(Signal::Refresh) }
        } else {
            unchanged
        },
        TodoInput::Refresh => TodoStep { active, action: TodoAction::Reload, reply: None },
        TodoInput::Other => unchanged,
    }
}

/// The step the to-do page takes on `input` while `active` has the focus.
pub fn todo_step(active: TodoRegion, input: TodoInput) -> (s: TodoStep)
    ensures
        s == todo_next(active, input),
{
    match input {
        TodoInput::SwitchTo(r) => TodoStep {
            active: r,
            action: TodoAction::Focus {
                inspector: r == TodoRegion::Inspector,
                explorer: r == TodoRegion::Explorer,
                task_list: r == TodoRegion::TaskList,
            },
            reply: None,
        },
        TodoInput::MoveDown | TodoInput::MoveUp => {
            if active == TodoRegion::Inspector {
                TodoStep { active, action: TodoAction::Nothing, reply: None }
            } else {
                let down = match input {
                    TodoInput::MoveDown => true,
                    _ => false,
                };
                TodoStep {
                    active,
                    action: TodoAction::MoveSelection {
                        down,
                        in_explorer: active == TodoRegion::Explorer,
                    },
                    reply: None,
                }
            }
        },
        TodoInput::NewGroup => {
            if active == TodoRegion::Explorer {
                TodoStep { active, action: TodoAction::CreateGroup, reply: Some(Signal::Refresh) }
            } else {
                TodoStep { active, action: TodoAction::Nothing, reply: None }
            }
        },
        TodoInput::Refresh => TodoStep { active, action: TodoAction::Reload, reply: None },
        TodoInput::Other => TodoStep { active, action: TodoAction::Nothing, reply: None },
    }
}

/// After switching the focus, exactly one region is shown active: the one
/// switched to.
pub proof fn law_switch_activates_one(active: TodoRegion, r: TodoRegion)
    ensures
        todo_next(active, TodoInput::SwitchTo(r)).active == r,
        todo_next(active, TodoInput::SwitchTo(r)).action matches TodoAction::Focus {
            inspector,
            explorer,
            task_list,
        } && (if inspector { 1int } else { 0int }) + (if explorer { 1int } else { 0int }) + (if task_list {
            1int
        } else {
            0int
        }) == 1,
{
}

/// Only a switch moves the focus.
pub proof fn law_focus_moves_only_on_switch(active: TodoRegion, input: TodoInput)
    requires
        !(input is SwitchTo),
    ensures
        todo_next(active, input).active == active,
{
}

/// The id selected in a list of ids: the one at the selected place, if
/// there is a selection and it lies within the list.
pub open spec fn selected_id(ids: Seq<NodeId>, selected: Option<usize>) -> Option<NodeId> {
    match selected {
        Some(i) => if i < ids.len() {
            Some(ids[i as int])
        } else {
            None
        },
        None => None,
    }
}

/// The selection in a rebuilt list: the first place of the previously
/// selected id in the new list of ids, or no selection when nothing was
/// selected or the id is gone.
pub fn reselect(old_ids: &Vec<NodeId>, selected: Option<usize>, new_ids: &Vec<NodeId>) -> (r: Option<usize>)
    ensures
        match selected_id(old_ids@, selected) {
            None => r is None,
            Some(id) => match r {
                Some(k) => {
                    &&& k < new_ids@.len()
                    &&& new_ids@[k as int] == id
                    &&& forall|j: int| 0 <= j < k ==> new_ids@[j] != id
                },
                None => forall|j: int| 0 <= j < new_ids@.len() ==> new_ids@[j] != id,
            },
        },
{
    let id = match selected {
        Some(i) => if i < old_ids.len() {
            old_ids[i]
        } else {
            return None;
        },
        None => return None,
    };
    let mut k: usize = 0;
    while k < new_ids.len()
        invariant
            k <= new_ids@.len(),
            selected_id(old_ids@, selected) == Some(id),
            forall|j: int| 0 <= j < k ==> new_ids@[j] != id,
        decreases new_ids.len() - k,
    {
        if new_ids[k] == id {
            return Some(k);
        }
        k = k + 1;
    }
    None
}

/// The id to show in the inspector: the one selected in the region with
/// the focus, when that is the task list or the explorer; none when the
/// inspector has the focus or nothing lies at the selected place.
pub fn inspect_target(
    active: TodoRegion,
    explorer_ids: &Vec<NodeId>,
    explorer_selected: Option<usize>,
    task_ids: &Vec<NodeId>,
    task_selected: Option<usize>,
) -> (r: Option<NodeId>)
    ensures
        r == match active {
            TodoRegion::TaskList => selected_id(task_ids@, task_selected),
            TodoRegion::Explorer => selected_id(explorer_ids@, explorer_selected),
            TodoRegion::Inspector => None,
        },
{
    let (ids, selected) = match active {
        TodoRegion::TaskList => (task_ids, task_selected),
        TodoRegion::Explorer => (explorer_ids, explorer_selected),
        TodoRegion::Inspector => {
            return None;
        },
    };
    match selected {
        Some(i) => if i < ids.len() {
            Some(ids[i])
        } else {
            None
        },
        None => None,
    }
}

/// The ids the explorer lists for the subtree of `scope`: its nodes in
/// pre-order, without `scope` itself, which is not shown.
pub fn explorer_ids<T>(tree: &Tree<T>, scope: &NodeId) -> (r: Result<Vec<NodeId>, NodeIdError>)
    requires
        tree@.wf(),
        scope.idx() <= tree@.slots.len(),
    ensures
        r is Ok <==> tree@.has(*scope),
        r matches Ok(ids) ==> ids@ == tree@.preorder(*scope).drop_first(),
{
    let mut walk = tree.traverse_pre_order_ids(scope)?;
    let ghost all = walk.remaining();
    proof {
        lemma_pre_tree_exact(tree@, *scope);
    }
    let mut ids: Vec<NodeId> = Vec::new();
    let mut first = true;
    loop
        invariant
            walk.wf(),
            walk.tree_view() == tree@,
            all == tree@.preorder(*scope),
            all.len() > 0,
            first ==> walk.remaining() == all && ids@.len() == 0,
            !first ==> ids@ + walk.remaining() == all.drop_first(),
        ensures
            ids@ == all.drop_first(),
        decreases walk.remaining().len(),
    {
        let ghost before = walk.remaining();
        match walk.next() {
            Some(id) => {
                if !first {
                    ids.push(id);
                    proof {
                        assert(before[0] == id);
                        assert(ids@ + walk.remaining() =~= (ids@.drop_last() + before));
                    }
                } else {
                    first = false;
                    assert(ids@ + walk.remaining() =~= all.drop_first());
                }
            },
            None => {
                assert(ids@ + walk.remaining() =~= ids@);
                break;
            },
        }
    }
    Ok(ids)
}

} // verus!
