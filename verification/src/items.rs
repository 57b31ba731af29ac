//! The data types of the todo-list application around the layout engine:
//! items, their status, and the view, editor-mode and focus states.  The
//! event loop, rendering and persistence live outside the library; the
//! decision tables they rely on are defined and verified here.

use vstd::prelude::*;
// the `View` enum below shadows vstd's view trait, so bring the trait back
// under another name
use vstd::view::View as ViewOf;

verus! {

/// Whether a `TodoItem` is done or not.
#[derive(Clone, Copy, Debug, PartialEq, Eq, Structural)]
pub enum Status {
    Todo,
    Completed,
}

impl Status {
    /// The opposite status.
    pub open spec fn spec_toggled(self) -> Status {
        match self {
            Status::Todo => Status::Completed,
            Status::Completed => Status::Todo,
        }
    }

    /// Toggles between `Todo` and `Completed`.
    pub fn toggled(self) -> (r: Status)
        ensures
            r == self.spec_toggled(),
    {
        match self {
            Status::Todo => Status::Completed,
            Status::Completed => Status::Todo,
        }
    }
}

/// A task to be done: a status, a short title and a longer description.
#[derive(Debug)]
pub struct TodoItem {
    pub status: Status,
    pub todo: String,
    pub info: String,
}

impl TodoItem {
    pub fn new(status: Status, todo: &str, info: &str) -> (r: Self)
        ensures
            r.status == status,
            r.todo@ == todo@,
            r.info@ == info@,
    {
        Self { status, todo: todo.to_owned(), info: info.to_owned() }
    }
}

/// A "page" of the application.
#[derive(Clone, Copy, Debug, PartialEq, Eq, Structural)]
pub enum View {
    List,
    Edit,
}

/// A vim-like editor mode.
#[derive(Clone, Copy, Debug, PartialEq, Eq, Structural)]
pub enum EditMode {
    Normal,
    Insert,
}

/// The currently selected input field of the editor.
#[derive(Clone, Copy, Debug, PartialEq, Eq, Structural)]
pub enum Focus {
    Todo,
    Info,
}

impl Focus {
    /// The focus graphically below this one; the bottom field stays.
    pub open spec fn spec_below(self) -> Focus {
        match self {
            Focus::Todo => Focus::Info,
            Focus::Info => Focus::Info,
        }
    }

    /// The focus graphically above this one; the top field stays.
    pub open spec fn spec_above(self) -> Focus {
        match self {
            Focus::Todo => Focus::Todo,
            Focus::Info => Focus::Todo,
        }
    }

    pub fn below(self) -> (r: Focus)
        ensures
            r == self.spec_below(),
    {
        match self {
            Focus::Todo => Focus::Info,
            Focus::Info => Focus::Info,
        }
    }

    pub fn above(self) -> (r: Focus)
        ensures
            r == self.spec_above(),
    {
        match self {
            Focus::Todo => Focus::Todo,
            Focus::Info => Focus::Todo,
        }
    }
}

} // verus!
