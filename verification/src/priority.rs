use vstd::prelude::*;

use crate::text::str_eq;

verus! {

/// How urgent a task is, from most to least urgent.
#[derive(Debug, Clone, Copy, PartialEq, Eq, Structural, PartialOrd, Ord)]
pub enum Priority {
    Asap,
    High,
    Medium,
    Low,
    Far,
}

/// The name of each priority, as it is written and read back.
pub open spec fn priority_name(p: Priority) -> Seq<char> {
    match p {
        Priority::Asap => "ASAP"@,
        Priority::High => "High"@,
        Priority::Medium => "Medium"@,
        Priority::Low => "Low"@,
        Priority::Far => "Far"@,
    }
}

/// The priority named `s`, if any.
pub open spec fn priority_named(s: Seq<char>) -> Option<Priority> {
    if s == "ASAP"@ {
        Some(Priority::Asap)
    } else if s == "High"@ {
        Some(Priority::High)
    } else if s == "Medium"@ {
        Some(Priority::Medium)
    } else if s == "Low"@ {
        Some(Priority::Low)
    } else if s == "Far"@ {
        Some(Priority::Far)
    } else {
        None
    }
}

/// A text that names no priority.
#[derive(Debug)]
pub struct PriorityParseError {
    bad: String,
}

impl PriorityParseError {
    /// The text that was not understood.
    pub closed spec fn bad_text(&self) -> Seq<char> {
        self.bad@
    }

    /// The text that was not understood.
    pub fn bad(&self) -> (s: &str)
        ensures
            s@ == self.bad_text(),
    {
        self.bad.as_str()
    }

    /// The message of the error: `<text> is not a valid Priority!`.
    pub fn to_string(&self) -> (s: String)
        ensures
            s@ == self.bad_text() + " is not a valid Priority!"@,
    {
        let mut s = self.bad.clone();
        s.append(" is not a valid Priority!");
        s
    }
}

impl Priority {
    /// The name of the priority.
    pub fn to_str(&self) -> (s: &'static str)
        ensures
            s@ == priority_name(*self),
    {
        match self {
            Priority::Asap => "ASAP",
            Priority::High => "High",
            Priority::Medium => "Medium",
            Priority::Low => "Low",
            Priority::Far => "Far",
        }
    }

    /// The name of the priority as a `String`.
    pub fn to_string(&self) -> (s: String)
        ensures
            s@ == priority_name(*self),
    {
        String::from_str(self.to_str())
    }

    /// Reads a priority from its name; any other text is an error that
    /// holds the text.
    pub fn from_str(s: &str) -> (r: Result<Priority, PriorityParseError>)
        ensures
            match priority_named(s@) {
                Some(p) => r == Ok::<Priority, PriorityParseError>(p),
                None => r matches Err(e) && e.bad_text() == s@,
            },
    {
        if str_eq(s, "ASAP") {
            Ok(Priority::Asap)
        } else if str_eq(s, "High") {
            Ok(Priority::High)
        } else if str_eq(s, "Medium") {
            Ok(Priority::Medium)
        } else if str_eq(s, "Low") {
            Ok(Priority::Low)
        } else if str_eq(s, "Far") {
            Ok(Priority::Far)
        } else {
            Err(PriorityParseError { bad: String::from_str(s) })
        }
    }
}

impl Default for Priority {
    /// `Medium`.
    fn default() -> (p: Priority)
        ensures
            p == Priority::Medium,
    {
        Priority::Medium
    }
}

impl std::str::FromStr for Priority {
    type Err = PriorityParseError;

    fn from_str(s: &str) -> (r: Result<Priority, PriorityParseError>)
        ensures
            match priority_named(s@) {
                Some(p) => r == Ok::<Priority, PriorityParseError>(p),
                None => r matches Err(e) && e.bad_text() == s@,
            },
    {
        Priority::from_str(s)
    }
}

/// A name written by `to_str` reads back as the same priority.
pub proof fn law_priority_name_round_trip(p: Priority)
    ensures
        priority_named(priority_name(p)) == Some(p),
{
    reveal_strlit("ASAP");
    reveal_strlit("High");
    reveal_strlit("Medium");
    reveal_strlit("Low");
    reveal_strlit("Far");
    assert("ASAP"@[0] == 'A' && "High"@[0] == 'H' && "Low"@[0] == 'L' && "Far"@[0] == 'F');
    assert("Medium"@.len() == 6 && "ASAP"@.len() == 4 && "High"@.len() == 4);
    assert("Low"@.len() == 3 && "Far"@.len() == 3);
}

/// Each priority is written, and read back, by the name of its own
/// variant; from most to least urgent: `ASAP`, `High`, `Medium`, `Low`,
/// `Far`. No other text names a priority, and different priorities have
/// different names.
pub proof fn law_priority_names(p: Priority, q: Priority, s: Seq<char>)
    ensures
        priority_name(Priority::Asap) == "ASAP"@,
        priority_name(Priority::High) == "High"@,
        priority_name(Priority::Medium) == "Medium"@,
        priority_name(Priority::Low) == "Low"@,
        priority_name(Priority::Far) == "Far"@,
        priority_named("ASAP"@) == Some(Priority::Asap),
        priority_named("High"@) == Some(Priority::High),
        priority_named("Medium"@) == Some(Priority::Medium),
        priority_named("Low"@) == Some(Priority::Low),
        priority_named("Far"@) == Some(Priority::Far),
        priority_named(s) == Some(p) ==> s == priority_name(p),
        priority_name(p) == priority_name(q) ==> p == q,
{
    reveal_strlit("ASAP");
    reveal_strlit("High");
    reveal_strlit("Medium");
    reveal_strlit("Low");
    reveal_strlit("Far");
    assert("ASAP"@[0] == 'A' && "High"@[0] == 'H' && "Low"@[0] == 'L' && "Far"@[0] == 'F');
    assert("Medium"@.len() == 6 && "ASAP"@.len() == 4 && "High"@.len() == 4);
    assert("Low"@.len() == 3 && "Far"@.len() == 3);
}

} // verus!
