use vstd::prelude::*;

use crate::nano_id::NanoId;
use crate::text::str_eq;

verus! {

/// The signals that components and key bindings emit.
#[derive(Debug, PartialEq, Eq)]
pub enum Signal {
    Tick,
    Render,
    Resize(u16, u16),
    Suspend,
    Resume,
    Quit,
    ClearScreen,
    Error(String),
    Help,
    /// Request a refresh of the components being displayed after a change
    /// to the notes.
    Refresh,
    MoveDown,
    MoveUp,
    /// Create a new note.
    NewZettel,
    /// Open the selected note.
    OpenZettel,
    /// Create a new group inside the selected group.
    NewSubGroup,
    /// Create a new group in the current scope.
    NewGroup,
    /// Create a new task.
    NewTask,
    /// Edit the name of a task or a group.
    EditName,
    /// Edit the priority of a task or a group.
    EditPriority,
    /// Edit the due date of a task.
    EditDue,
    /// Toggle whether a task is finished.
    ToggleFinish,
    /// Resume interpreting keys as signals.
    ExitRawText,
    /// Stop interpreting keys as signals.
    EnterRawText,
    /// Give a group a random colour.
    RandomColor,
    /// Open the file at `path` in the editor.
    Helix { path: String },
    /// Select the item with this id.
    Select { nanoid: NanoId },
}

impl Clone for Signal {
    fn clone(&self) -> (s: Signal)
        ensures
            s == *self,
    {
        match self {
            Signal::Tick => Signal::Tick,
            Signal::Render => Signal::Render,
            Signal::Resize(w, h) => Signal::Resize(*w, *h),
            Signal::Suspend => Signal::Suspend,
            Signal::Resume => Signal::Resume,
            Signal::Quit => Signal::Quit,
            Signal::ClearScreen => Signal::ClearScreen,
            Signal::Error(e) => Signal::Error(e.clone()),
            Signal::Help => Signal::Help,
            Signal::Refresh => Signal::Refresh,
            Signal::MoveDown => Signal::MoveDown,
            Signal::MoveUp => Signal::MoveUp,
            Signal::NewZettel => Signal::NewZettel,
            Signal::OpenZettel => Signal::OpenZettel,
            Signal::NewSubGroup => Signal::NewSubGroup,
            Signal::NewGroup => Signal::NewGroup,
            Signal::NewTask => Signal::NewTask,
            Signal::EditName => Signal::EditName,
            Signal::EditPriority => Signal::EditPriority,
            Signal::EditDue => Signal::EditDue,
            Signal::ToggleFinish => Signal::ToggleFinish,
            Signal::ExitRawText => Signal::ExitRawText,
            Signal::EnterRawText => Signal::EnterRawText,
            Signal::RandomColor => Signal::RandomColor,
            Signal::Helix { path } => Signal::Helix { path: path.clone() },
            Signal::Select { nanoid } => Signal::Select { nanoid: nanoid.clone() },
        }
    }
}

/// The name of each signal: the name of its variant.
pub open spec fn signal_name(s: Signal) -> Seq<char> {
    match s {
        Signal::Tick => "Tick"@,
        Signal::Render => "Render"@,
        Signal::Resize(_, _) => "Resize"@,
        Signal::Suspend => "Suspend"@,
        Signal::Resume => "Resume"@,
        Signal::Quit => "Quit"@,
        Signal::ClearScreen => "ClearScreen"@,
        Signal::Error(_) => "Error"@,
        Signal::Help => "Help"@,
        Signal::Refresh => "Refresh"@,
        Signal::MoveDown => "MoveDown"@,
        Signal::MoveUp => "MoveUp"@,
        Signal::NewZettel => "NewZettel"@,
        Signal::OpenZettel => "OpenZettel"@,
        Signal::NewSubGroup => "NewSubGroup"@,
        Signal::NewGroup => "NewGroup"@,
        Signal::NewTask => "NewTask"@,
        Signal::EditName => "EditName"@,
        Signal::EditPriority => "EditPriority"@,
        Signal::EditDue => "EditDue"@,
        Signal::ToggleFinish => "ToggleFinish"@,
        Signal::ExitRawText => "ExitRawText"@,
        Signal::EnterRawText => "EnterRawText"@,
        Signal::RandomColor => "RandomColor"@,
        Signal::Helix { .. } => "Helix"@,
        Signal::Select { .. } => "Select"@,
    }
}

/// The signal that a key can be bound to under the name `s`: the signals
/// that carry no data, by the name of their variant.
pub open spec fn bindable_signal(s: Seq<char>) -> Option<Signal> {
    if s == "Tick"@ {
        Some(Signal::Tick)
    } else if s == "Render"@ {
        Some(Signal::Render)
    } else if s == "Suspend"@ {
        Some(Signal::Suspend)
    } else if s == "Resume"@ {
        Some(Signal::Resume)
    } else if s == "Quit"@ {
        Some(Signal::Quit)
    } else if s == "ClearScreen"@ {
        Some(Signal::ClearScreen)
    } else if s == "Help"@ {
        Some(Signal::Help)
    } else if s == "Refresh"@ {
        Some(Signal::Refresh)
    } else if s == "MoveDown"@ {
        Some(Signal::MoveDown)
    } else if s == "MoveUp"@ {
        Some(Signal::MoveUp)
    } else if s == "NewZettel"@ {
        Some(Signal::NewZettel)
    } else if s == "OpenZettel"@ {
        Some(Signal::OpenZettel)
    } else if s == "NewSubGroup"@ {
        Some(Signal::NewSubGroup)
    } else if s == "NewGroup"@ {
        Some(Signal::NewGroup)
    } else if s == "NewTask"@ {
        Some(Signal::NewTask)
    } else if s == "EditName"@ {
        Some(Signal::EditName)
    } else if s == "EditPriority"@ {
        Some(Signal::EditPriority)
    } else if s == "EditDue"@ {
        Some(Signal::EditDue)
    } else if s == "ToggleFinish"@ {
        Some(Signal::ToggleFinish)
    } else if s == "ExitRawText"@ {
        Some(Signal::ExitRawText)
    } else if s == "EnterRawText"@ {
        Some(Signal::EnterRawText)
    } else if s == "RandomColor"@ {
        Some(Signal::RandomColor)
    } else {
        None
    }
}

impl Signal {
    /// The name of the signal: the name of its variant.
    pub fn name(&self) -> (s: &'static str)
        ensures
            s@ == signal_name(*self),
    {
        match self {
            Signal::Tick => "Tick",
            Signal::Render => "Render",
            Signal::Resize(_, _) => "Resize",
            Signal::Suspend => "Suspend",
            Signal::Resume => "Resume",
            Signal::Quit => "Quit",
            Signal::ClearScreen => "ClearScreen",
            Signal::Error(_) => "Error",
            Signal::Help => "Help",
            Signal::Refresh => "Refresh",
            Signal::MoveDown => "MoveDown",
            Signal::MoveUp => "MoveUp",
            Signal::NewZettel => "NewZettel",
            Signal::OpenZettel => "OpenZettel",
            Signal::NewSubGroup => "NewSubGroup",
            Signal::NewGroup => "NewGroup",
            Signal::NewTask => "NewTask",
            Signal::EditName => "EditName",
            Signal::EditPriority => "EditPriority",
            Signal::EditDue => "EditDue",
            Signal::ToggleFinish => "ToggleFinish",
            Signal::ExitRawText => "ExitRawText",
            Signal::EnterRawText => "EnterRawText",
            Signal::RandomColor => "RandomColor",
            Signal::Helix { .. } => "Helix",
            Signal::Select { .. } => "Select",
        }
    }

    /// The signal a key can be bound to under the name `s`, if any.
    pub fn bindable(s: &str) -> (r: Option<Signal>)
        ensures
            r == bindable_signal(s@),
    {
        if str_eq(s, "Tick") {
            Some(Signal::Tick)
        } else if str_eq(s, "Render") {
            Some(Signal::Render)
        } else if str_eq(s, "Suspend") {
            Some(Signal::Suspend)
        } else if str_eq(s, "Resume") {
            Some(Signal::Resume)
        } else if str_eq(s, "Quit") {
            Some(Signal::Quit)
        } else if str_eq(s, "ClearScreen") {
            Some(Signal::ClearScreen)
        } else if str_eq(s, "Help") {
            Some(Signal::Help)
        } else if str_eq(s, "Refresh") {
            Some(Signal::Refresh)
        } else if str_eq(s, "MoveDown") {
            Some(Signal::MoveDown)
        } else if str_eq(s, "MoveUp") {
            Some(Signal::MoveUp)
        } else if str_eq(s, "NewZettel") {
            Some(Signal::NewZettel)
        } else if str_eq(s, "OpenZettel") {
            Some(Signal::OpenZettel)
        } else if str_eq(s, "NewSubGroup") {
            Some(Signal::NewSubGroup)
        } else if str_eq(s, "NewGroup") {
            Some(Signal::NewGroup)
        } else if str_eq(s, "NewTask") {
            Some(Signal::NewTask)
        } else if str_eq(s, "EditName") {
            Some(Signal::EditName)
        } else if str_eq(s, "EditPriority") {
            Some(Signal::EditPriority)
        } else if str_eq(s, "EditDue") {
            Some(Signal::EditDue)
        } else if str_eq(s, "ToggleFinish") {
            Some(Signal::ToggleFinish)
        } else if str_eq(s, "ExitRawText") {
            Some(Signal::ExitRawText)
        } else if str_eq(s, "EnterRawText") {
            Some(Signal::EnterRawText)
        } else if str_eq(s, "RandomColor") {
            Some(Signal::RandomColor)
        } else {
            None
        }
    }
}

/// A name that a key can be bound to reads as the signal of that very
/// name, and each signal without data is bound by its own name.
pub proof fn law_bindable_by_own_name(s: Seq<char>, sig: Signal)
    ensures
        bindable_signal(s) == Some(sig) ==> signal_name(sig) == s,
        bindable_signal(s) == Some(sig) ==> bindable_signal(signal_name(sig)) == Some(sig),
        bindable_signal("Tick"@) == Some(Signal::Tick),
        bindable_signal("Render"@) == Some(Signal::Render),
        bindable_signal("Suspend"@) == Some(Signal::Suspend),
        bindable_signal("Resume"@) == Some(Signal::Resume),
        bindable_signal("Quit"@) == Some(Signal::Quit),
        bindable_signal("ClearScreen"@) == Some(Signal::ClearScreen),
        bindable_signal("Help"@) == Some(Signal::Help),
        bindable_signal("Refresh"@) == Some(Signal::Refresh),
        bindable_signal("MoveDown"@) == Some(Signal::MoveDown),
        bindable_signal("MoveUp"@) == Some(Signal::MoveUp),
        bindable_signal("NewZettel"@) == Some(Signal::NewZettel),
        bindable_signal("OpenZettel"@) == Some(Signal::OpenZettel),
        bindable_signal("NewSubGroup"@) == Some(Signal::NewSubGroup),
        bindable_signal("NewGroup"@) == Some(Signal::NewGroup),
        bindable_signal("NewTask"@) == Some(Signal::NewTask),
        bindable_signal("EditName"@) == Some(Signal::EditName),
        bindable_signal("EditPriority"@) == Some(Signal::EditPriority),
        bindable_signal("EditDue"@) == Some(Signal::EditDue),
        bindable_signal("ToggleFinish"@) == Some(Signal::ToggleFinish),
        bindable_signal("ExitRawText"@) == Some(Signal::ExitRawText),
        bindable_signal("EnterRawText"@) == Some(Signal::EnterRawText),
        bindable_signal("RandomColor"@) == Some(Signal::RandomColor),
{
    reveal_strlit("Tick");
    reveal_strlit("Render");
    reveal_strlit("Suspend");
    reveal_strlit("Resume");
    reveal_strlit("Quit");
    reveal_strlit("ClearScreen");
    reveal_strlit("Help");
    reveal_strlit("Refresh");
    reveal_strlit("MoveDown");
    reveal_strlit("MoveUp");
    reveal_strlit("NewZettel");
    reveal_strlit("OpenZettel");
    reveal_strlit("NewSubGroup");
    reveal_strlit("NewGroup");
    reveal_strlit("NewTask");
    reveal_strlit("EditName");
    reveal_strlit("EditPriority");
    reveal_strlit("EditDue");
    reveal_strlit("ToggleFinish");
    reveal_strlit("ExitRawText");
    reveal_strlit("EnterRawText");
    reveal_strlit("RandomColor");
    assert("Tick"@.len() == 4 && "Tick"@[0] == 'T' && "Tick"@[1] == 'i' && "Tick"@[2] == 'c');
    assert("Render"@.len() == 6 && "Render"@[0] == 'R' && "Render"@[1] == 'e' && "Render"@[2] == 'n');
    assert("Suspend"@.len() == 7 && "Suspend"@[0] == 'S' && "Suspend"@[1] == 'u' && "Suspend"@[2] == 's');
    assert("Resume"@.len() == 6 && "Resume"@[0] == 'R' && "Resume"@[1] == 'e' && "Resume"@[2] == 's');
    assert("Quit"@.len() == 4 && "Quit"@[0] == 'Q' && "Quit"@[1] == 'u' && "Quit"@[2] == 'i');
    assert("ClearScreen"@.len() == 11 && "ClearScreen"@[0] == 'C' && "ClearScreen"@[1] == 'l' && "ClearScreen"@[2] == 'e');
    assert("Help"@.len() == 4 && "Help"@[0] == 'H' && "Help"@[1] == 'e' && "Help"@[2] == 'l');
    assert("Refresh"@.len() == 7 && "Refresh"@[0] == 'R' && "Refresh"@[1] == 'e' && "Refresh"@[2] == 'f');
    assert("MoveDown"@.len() == 8 && "MoveDown"@[0] == 'M' && "MoveDown"@[1] == 'o' && "MoveDown"@[2] == 'v');
    assert("MoveUp"@.len() == 6 && "MoveUp"@[0] == 'M' && "MoveUp"@[1] == 'o' && "MoveUp"@[2] == 'v');
    assert("NewZettel"@.len() == 9 && "NewZettel"@[0] == 'N' && "NewZettel"@[1] == 'e' && "NewZettel"@[2] == 'w');
    assert("OpenZettel"@.len() == 10 && "OpenZettel"@[0] == 'O' && "OpenZettel"@[1] == 'p' && "OpenZettel"@[2] == 'e');
    assert("NewSubGroup"@.len() == 11 && "NewSubGroup"@[0] == 'N' && "NewSubGroup"@[1] == 'e' && "NewSubGroup"@[2] == 'w');
    assert("NewGroup"@.len() == 8 && "NewGroup"@[0] == 'N' && "NewGroup"@[1] == 'e' && "NewGroup"@[2] == 'w');
    assert("NewTask"@.len() == 7 && "NewTask"@[0] == 'N' && "NewTask"@[1] == 'e' && "NewTask"@[2] == 'w');
    assert("EditName"@.len() == 8 && "EditName"@[0] == 'E' && "EditName"@[1] == 'd' && "EditName"@[2] == 'i');
    assert("EditPriority"@.len() == 12 && "EditPriority"@[0] == 'E' && "EditPriority"@[1] == 'd' && "EditPriority"@[2] == 'i');
    assert("EditDue"@.len() == 7 && "EditDue"@[0] == 'E' && "EditDue"@[1] == 'd' && "EditDue"@[2] == 'i');
    assert("ToggleFinish"@.len() == 12 && "ToggleFinish"@[0] == 'T' && "ToggleFinish"@[1] == 'o' && "ToggleFinish"@[2] == 'g');
    assert("ExitRawText"@.len() == 11 && "ExitRawText"@[0] == 'E' && "ExitRawText"@[1] == 'x' && "ExitRawText"@[2] == 'i');
    assert("EnterRawText"@.len() == 12 && "EnterRawText"@[0] == 'E' && "EnterRawText"@[1] == 'n' && "EnterRawText"@[2] == 't');
    assert("RandomColor"@.len() == 11 && "RandomColor"@[0] == 'R' && "RandomColor"@[1] == 'a' && "RandomColor"@[2] == 'n');
}

} // verus!
