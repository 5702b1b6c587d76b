use vstd::prelude::*;

use crate::keymap::KeyCode;

verus! {

/// What reaches the notes page.
#[derive(Debug, Clone, Copy, PartialEq, Eq, Structural)]
pub enum ZkInput {
    /// Switch to a page; `zk` tells whether it is the notes page.
    SwitchTo { zk: bool },
    Refresh,
    MoveDown,
    MoveUp,
    /// Open the selected note.
    OpenZettel,
    /// Create a note named after the search query.
    NewZettel,
    /// A note was created.
    CreatedZettel,
    /// A note was closed in the editor.
    ClosedZettel,
    Other,
}

/// What the notes page does.
#[derive(Debug, Clone, Copy, PartialEq, Eq, Structural)]
pub enum ZkAction {
    Nothing,
    /// Reload the list of notes.
    Reload,
    /// Move the selection of the note list one down (or up), then show the
    /// selected note.
    MoveSelection { down: bool },
    /// Open the selected note in the editor, if a note is selected.
    OpenSelected,
    /// Create a note named after the search query and announce it.
    CreateFromQuery,
    /// Open the note just created in the editor.
    OpenCreated,
    /// Rebuild the note list, clear the query and select and show the note
    /// just closed.
    ShowClosed,
}

/// One step of the notes page: whether it is active afterwards, and what
/// to do.
pub struct ZkStep {
    pub active: bool,
    pub action: ZkAction,
}

/// The step the notes page takes: it becomes active exactly when switched
/// to; it moves its selection and opens notes only while active; refreshes,
/// new notes and the notes created or closed are handled either way.
pub open spec fn zk_next(active: bool, input: ZkInput) -> ZkStep {
    match input {
        ZkInput::SwitchTo { zk } => ZkStep { active: zk, action: ZkAction::Nothing },
        ZkInput::Refresh => ZkStep { active, action: ZkAction::Reload },
        ZkInput::MoveDown => ZkStep {
            active,
            action: if active { ZkAction::MoveSelection { down: true } } else { ZkAction::Nothing },
        },
        ZkInput::MoveUp => ZkStep {
            active,
            action: if active { ZkAction::MoveSelection { down: false } } else { ZkAction::Nothing },
        },
        ZkInput::OpenZettel => ZkStep {
            active,
            action: if active { ZkAction::OpenSelected } else { ZkAction::Nothing },
        },
        ZkInput::NewZettel => ZkStep { active, action: ZkAction::CreateFromQuery },
        ZkInput::CreatedZettel => ZkStep { active, action: ZkAction::OpenCreated },
        ZkInput::ClosedZettel => ZkStep { active, action: ZkAction::ShowClosed },
        ZkInput::Other => ZkStep { active, action: ZkAction::Nothing },
    }
}

/// The step the notes page takes on `input` while active or not.
pub fn zk_step(active: bool, input: ZkInput) -> (s: ZkStep)
    ensures
        s == zk_next(active, input),
{
    match input {
        ZkInput::SwitchTo { zk } => ZkStep { active: zk, action: ZkAction::Nothing },
        ZkInput::Refresh => ZkStep { active, action: ZkAction::Reload },
        ZkInput::MoveDown | ZkInput::MoveUp | ZkInput::OpenZettel => {
            let action = if !active {
                ZkAction::Nothing
            } else {
                match input {
                    ZkInput::MoveDown => ZkAction::MoveSelection { down: true },
                    ZkInput::MoveUp => ZkAction::MoveSelection { down: false },
                    _ => ZkAction::OpenSelected,
                }
            };
            ZkStep { active, action }
        },
        ZkInput::NewZettel => ZkStep { active, action: ZkAction::CreateFromQuery },
        ZkInput::CreatedZettel => ZkStep { active, action: ZkAction::OpenCreated },
        ZkInput::ClosedZettel => ZkStep { active, action: ZkAction::ShowClosed },
        ZkInput::Other => ZkStep { active, action: ZkAction::Nothing },
    }
}

/// A key typed on the notes page goes to the search query unless it moves
/// the selection, opens a note or switches the page: up, down, enter and
/// tab are kept for those.
pub open spec fn key_edits_query(code: KeyCode) -> bool {
    !(code == KeyCode::Up || code == KeyCode::Down || code == KeyCode::Enter || code == KeyCode::Tab)
}

/// Whether a key typed on the notes page goes to the search query.
pub fn zk_key_edits_query(code: KeyCode) -> (r: bool)
    ensures
        r == key_edits_query(code),
{
    match code {
        KeyCode::Up | KeyCode::Down | KeyCode::Enter | KeyCode::Tab => false,
        _ => true,
    }
}

/// The notes page moves its selection and opens notes only while active,
/// and a switch makes it active exactly when the page switched to is the
/// notes page.
pub proof fn law_zk_acts_only_when_active(input: ZkInput, zk: bool)
    ensures
        (input == ZkInput::MoveDown || input == ZkInput::MoveUp || input == ZkInput::OpenZettel)
            ==> zk_next(false, input).action == ZkAction::Nothing,
        zk_next(false, ZkInput::SwitchTo { zk }).active == zk,
        zk_next(true, ZkInput::SwitchTo { zk }).active == zk,
        !(input is SwitchTo) ==> zk_next(false, input).active == false && zk_next(true, input).active
            == true,
{
}

} // verus!
