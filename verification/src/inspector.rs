use vstd::prelude::*;

use crate::signal::Signal;
use crate::text::{contains_text, text_contains};

verus! {

/// The field of an inspected task or group being edited.
#[derive(Debug, Clone, Copy, PartialEq, Eq, Structural)]
pub enum EditField {
    Name,
    Priority,
}

/// What the inspector shows.
#[derive(Debug, Clone, Copy, PartialEq, Eq, Structural)]
pub enum Inspected {
    Root,
    Task,
    Group,
}

/// What reaches the inspector: a request to edit a field, another signal,
/// or a key press.
#[derive(Debug, Clone, Copy, PartialEq, Eq, Structural)]
pub enum InspectorInput {
    /// Edit the name; whether the name still holds the placeholder text.
    EditName { holds_default_name: bool },
    EditPriority,
    OtherSignal,
    /// A key press; whether it is `Enter`.
    Key { enter: bool },
}

/// What the inspector does to its widgets and the notes.
#[derive(Debug, Clone, Copy, PartialEq, Eq, Structural)]
pub enum InspectorAction {
    Nothing,
    /// Highlight the field and put a cursor in it; for the name, either
    /// clear the placeholder line or move the cursor to the end.
    StartEditing { field: EditField, clear_line: bool },
    /// Hand the key to the field being edited.
    Type(EditField),
    /// Stop editing the name and store it: for the task, or for the group
    /// and for its tag.
    SaveName { also_tag: bool },
    /// Stop editing the priority.
    StopEditingPriority,
}

/// One step of the inspector: the field being edited afterwards, what to
/// do, the signal to send on the signal channel, and the signal to answer
/// with.
pub struct InspectorStep {
    pub editing: Option<EditField>,
    pub action: InspectorAction,
    pub notify: Option<Signal>,
    pub reply: Option<Signal>,
}

/// The step the inspector takes: editing starts on a request for a task
/// or a group, and ends on `Enter`; other keys go to the field being
/// edited; the root is never edited.
pub open spec fn inspector_next(
    editing: Option<EditField>,
    inspected: Inspected,
    input: InspectorInput,
) -> InspectorStep {
    let unchanged = InspectorStep {
        editing,
        action: InspectorAction::Nothing,
        notify: None,
        reply: None,
    };
    match input {
        InspectorInput::EditName { holds_default_name } => if inspected == Inspected::Root {
            unchanged
        } else {
            InspectorStep {
                editing: Some(EditField::Name),
                action: InspectorAction::StartEditing {
                    field: EditField::Name,
                    clear_line: holds_default_name,
                },
                notify: None,
                reply: Some(Signal::EnterRawText),
            }
        },
        InspectorInput::EditPriority => if inspected == Inspected::Root {
            unchanged
        } else {
            InspectorStep {
                editing: Some(EditField::Priority),
                action: InspectorAction::StartEditing { field: EditField::Priority, clear_line: false },
                notify: None,
                reply: Some(Signal::EnterRawText),
            }
        },
        InspectorInput::OtherSignal => unchanged,
        InspectorInput::Key { enter } => match editing {
            None => unchanged,
            Some(field) => if inspected == Inspected::Root {
                unchanged
            } else if !enter {
                InspectorStep { editing, action: InspectorAction::Type(field), notify: None, reply: None }
            } else {
                match field {
                    EditField::Name => InspectorStep {
                        editing: None,
                        action: InspectorAction::SaveName { also_tag: inspected == Inspected::Group },
                        notify: Some(Signal::ExitRawText),
                        reply: Some(Signal::Refresh),
                    },
                    EditField::Priority => InspectorStep {
                        editing: None,
                        action: InspectorAction::StopEditingPriority,
                        notify: None,
                        reply: Some(Signal::ExitRawText),
                    },
                }
            },
        },
    }
}

/// The step the inspector takes on `input`, editing `editing` of what it
/// shows, `inspected`.
pub fn inspector_step(
    editing: Option<EditField>,
    inspected: Inspected,
    input: InspectorInput,
) -> (s: InspectorStep)
    ensures
        s == inspector_next(editing, inspected, input),
{
    let unchanged = InspectorStep {
        editing,
        action: InspectorAction::Nothing,
        notify: None,
        reply: None,
    };
    match input {
        InspectorInput::EditName { holds_default_name } => {
            if inspected == Inspected::Root {
                unchanged
            } else {
                InspectorStep {
                    editing: Some(EditField::Name),
                    action: InspectorAction::StartEditing {
                        field: EditField::Name,
                        clear_line: holds_default_name,
                    },
                    notify: None,
                    reply: Some(Signal::EnterRawText),
                }
            }
        },
        InspectorInput::EditPriority => {
            if inspected == Inspected::Root {
                unchanged
            } else {
                InspectorStep {
                    editing: Some(EditField::Priority),
                    action: InspectorAction::StartEditing {
                        field: EditField::Priority,
                        clear_line: false,
                    },
                    notify: None,
                    reply: Some(Signal::EnterRawText),
                }
            }
        },
        InspectorInput::OtherSignal => unchanged,
        InspectorInput::Key { enter } => match editing {
            None => unchanged,
            Some(field) => {
                if inspected == Inspected::Root {
                    unchanged
                } else if !enter {
                    InspectorStep {
                        editing,
                        action: InspectorAction::Type(field),
                        notify: None,
                        reply: None,
                    }
                } else {
                    match field {
                        EditField::Name => InspectorStep {
                            editing: None,
                            action: InspectorAction::SaveName {
                                also_tag: inspected == Inspected::Group,
                            },
                            notify: Some(Signal::ExitRawText),
                            reply: Some(Signal::Refresh),
                        },
                        EditField::Priority => InspectorStep {
                            editing: None,
                            action: InspectorAction::StopEditingPriority,
                            notify: None,
                            reply: Some(Signal::ExitRawText),
                        },
                    }
                }
            },
        },
    }
}

/// Editing always ends on `Enter`: whatever was being edited, an `Enter`
/// leaves nothing being edited.
pub proof fn law_enter_ends_editing(editing: Option<EditField>, inspected: Inspected)
    ensures
        inspector_next(editing, inspected, InspectorInput::Key { enter: true }).editing is None
            || inspected == Inspected::Root,
{
}

/// The root is never edited: from no editing, nothing that reaches the
/// inspector of the root starts editing.
pub proof fn law_root_never_edited(input: InspectorInput)
    ensures
        inspector_next(None, Inspected::Root, input).editing is None,
{
}

/// Whether the first line of a name being edited holds the placeholder
/// text `placeholder`, which the name editor then clears: the
/// `holds_default_name` of an `EditName` request.
pub fn first_line_holds(lines: &Vec<String>, placeholder: &str) -> (r: bool)
    ensures
        r == (lines@.len() > 0 && contains_text(lines@[0]@, placeholder@)),
{
    if lines.len() == 0 {
        return false;
    }
    text_contains(lines[0].as_str(), placeholder)
}

} // verus!
