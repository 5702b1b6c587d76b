use vstd::prelude::*;

verus! {

/// The regions of the application a user can be interacting with.
#[derive(Debug, Clone, Copy, PartialEq, Eq, Structural, Hash)]
pub enum Region {
    Home,
    Zk,
}

/// The name a region is shown and configured under.
pub open spec fn region_name(r: Region) -> Seq<char> {
    match r {
        Region::Home => "Home"@,
        Region::Zk => "Zk"@,
    }
}

impl Region {
    /// Every region, in declaration order.
    pub fn all() -> (v: Vec<Region>)
        ensures
            v@ == seq![Region::Home, Region::Zk],
    {
        vec![Region::Home, Region::Zk]
    }

    /// The name the region is shown and configured under.
    pub fn name(&self) -> (s: &'static str)
        ensures
            s@ == region_name(*self),
    {
        match self {
            Region::Home => "Home",
            Region::Zk => "Zk",
        }
    }
}

impl Default for Region {
    /// `Home`.
    fn default() -> (r: Region)
        ensures
            r == Region::Home,
    {
        Region::Home
    }
}

/// The regions inside the to-do page.
#[derive(Debug, Clone, Copy, PartialEq, Eq, Structural, Hash)]
pub enum TodoRegion {
    Inspector,
    TaskList,
    Explorer,
}

/// The name a to-do region is shown under.
pub open spec fn todo_region_name(r: TodoRegion) -> Seq<char> {
    match r {
        TodoRegion::Inspector => "Inspector"@,
        TodoRegion::TaskList => "TaskList"@,
        TodoRegion::Explorer => "Explorer"@,
    }
}

impl TodoRegion {
    /// Every to-do region, in declaration order.
    pub fn all() -> (v: Vec<TodoRegion>)
        ensures
            v@ == seq![TodoRegion::Inspector, TodoRegion::TaskList, TodoRegion::Explorer],
    {
        vec![TodoRegion::Inspector, TodoRegion::TaskList, TodoRegion::Explorer]
    }

    /// The name the region is shown under.
    pub fn name(&self) -> (s: &'static str)
        ensures
            s@ == todo_region_name(*self),
    {
        match self {
            TodoRegion::Inspector => "Inspector",
            TodoRegion::TaskList => "TaskList",
            TodoRegion::Explorer => "Explorer",
        }
    }

    /// Which of the explorer and the task list are shown active while this
    /// region has the focus: `(explorer, task_list)`.
    pub fn active_lists(&self) -> (r: (bool, bool))
        ensures
            r == (match *self {
                TodoRegion::Inspector => (false, false),
                TodoRegion::TaskList => (false, true),
                TodoRegion::Explorer => (true, false),
            }),
    {
        match self {
            TodoRegion::Inspector => (false, false),
            TodoRegion::TaskList => (false, true),
            TodoRegion::Explorer => (true, false),
        }
    }
}

impl Default for TodoRegion {
    /// `Explorer`.
    fn default() -> (r: TodoRegion)
        ensures
            r == TodoRegion::Explorer,
    {
        TodoRegion::Explorer
    }
}

} // verus!
