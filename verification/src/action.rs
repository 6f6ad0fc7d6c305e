//! What the library asks of the file system, and what it is told back.
//!
//! A run is a dialogue. The library names one [`Action`]; the caller
//! carries it out and answers with the matching [`Event`]; the library
//! names the next action, until it says [`Action::Done`].

use crate::{Mapping, MappingView};
use vstd::prelude::*;

verus! {

/// What was found at the name of a mapping.
pub enum LinkState {
    /// Nothing is there.
    Absent,
    /// Something is there. `resolved` is the canonical path that the entry
    /// leads to, `expected` the canonical path of the recorded target; each
    /// is `None` when it leads nowhere.
    Present { resolved: Option<String>, expected: Option<String> },
}

/// A [`LinkState`] as plain text.
pub ghost enum LinkStateView {
    Absent,
    Present { resolved: Option<Seq<char>>, expected: Option<Seq<char>> },
}

impl View for LinkState {
    type V = LinkStateView;

    open spec fn view(&self) -> LinkStateView {
        match self {
            LinkState::Absent => LinkStateView::Absent,
            LinkState::Present { resolved, expected } => LinkStateView::Present {
                resolved: resolved.deep_view(),
                expected: expected.deep_view(),
            },
        }
    }
}

impl LinkStateView {
    /// The entry exists but no longer leads where the mapping says.
    pub open spec fn drifted(self) -> bool {
        self matches LinkStateView::Present { resolved, expected } && resolved != expected
    }

    /// The entry exists and leads where the mapping says.
    pub open spec fn intact(self) -> bool {
        self matches LinkStateView::Present { resolved, expected } && resolved == expected
    }
}

/// Whether two optional texts are the same.
pub fn same_text(a: &Option<String>, b: &Option<String>) -> (r: bool)
    ensures
        r == (a.deep_view() == b.deep_view()),
{
    match (a, b) {
        (None, None) => true,
        (Some(x), Some(y)) => *x == *y,
        _ => false,
    }
}

impl LinkState {
    /// Whether the entry exists but no longer leads where the mapping says.
    pub fn is_drifted(&self) -> (b: bool)
        ensures
            b == self@.drifted(),
    {
        match self {
            LinkState::Absent => false,
            LinkState::Present { resolved, expected } => !same_text(resolved, expected),
        }
    }

    /// Whether the entry exists and leads where the mapping says.
    pub fn is_intact(&self) -> (b: bool)
        ensures
            b == self@.intact(),
    {
        match self {
            LinkState::Absent => false,
            LinkState::Present { resolved, expected } => same_text(resolved, expected),
        }
    }
}

/// One thing for the caller to do.
pub enum Action {
    /// Look at the mapping's name and answer [`Event::Probed`].
    Probe(Mapping),
    /// Delete the entry at the mapping's name and answer [`Event::Deleted`].
    Delete(Mapping),
    /// Remove this directory if it exists and is empty, and answer
    /// [`Event::DirRemoved`].
    RemoveDir(String),
    /// Say whether the mapping's name exists and whether `parent`, the
    /// directory that holds it, is missing: answer [`Event::Surveyed`].
    Survey { mapping: Mapping, parent: Option<String> },
    /// Create this directory with all that lead to it, and answer
    /// [`Event::DirCreated`].
    CreateDir(String),
    /// Create a symbolic link at the mapping's name that points to its
    /// target, and answer [`Event::Linked`].
    Link(Mapping),
    /// Nothing is left to do.
    Done,
}

/// An [`Action`] as plain text.
pub ghost enum ActionView {
    Probe(MappingView),
    Delete(MappingView),
    RemoveDir(Seq<char>),
    Survey { mapping: MappingView, parent: Option<Seq<char>> },
    CreateDir(Seq<char>),
    Link(MappingView),
    Done,
}

impl View for Action {
    type V = ActionView;

    open spec fn view(&self) -> ActionView {
        match self {
            Action::Probe(m) => ActionView::Probe(m@),
            Action::Delete(m) => ActionView::Delete(m@),
            Action::RemoveDir(d) => ActionView::RemoveDir(d@),
            Action::Survey { mapping, parent } => ActionView::Survey {
                mapping: mapping@,
                parent: parent.deep_view(),
            },
            Action::CreateDir(d) => ActionView::CreateDir(d@),
            Action::Link(m) => ActionView::Link(m@),
            Action::Done => ActionView::Done,
        }
    }
}

impl ActionView {
    /// Whether carrying the action out changes the file system.
    pub open spec fn mutates(self) -> bool {
        self is Delete || self is RemoveDir || self is CreateDir || self is Link
    }
}

impl Action {
    /// Whether carrying the action out changes the file system.
    pub fn is_mutation(&self) -> (b: bool)
        ensures
            b == self@.mutates(),
    {
        match self {
            Action::Delete(_) | Action::RemoveDir(_) | Action::CreateDir(_) | Action::Link(_) => true,
            _ => false,
        }
    }
}

/// The caller's answer to an [`Action`].
pub enum Event {
    /// What a probe found.
    Probed(LinkState),
    /// Whether the entry was deleted.
    Deleted(bool),
    /// Whether the directory was removed.
    DirRemoved(bool),
    /// What a survey found.
    Surveyed { parent_missing: bool, name_exists: bool },
    /// Whether the directory now exists.
    DirCreated(bool),
    /// Whether the link was created.
    Linked(bool),
}

/// An [`Event`] as plain text.
pub ghost enum EventView {
    Probed(LinkStateView),
    Deleted(bool),
    DirRemoved(bool),
    Surveyed { parent_missing: bool, name_exists: bool },
    DirCreated(bool),
    Linked(bool),
}

impl EventView {
    /// The answer to a probe that found the entry in place and leading
    /// where the mapping says.
    pub open spec fn found_intact(self) -> bool {
        self matches EventView::Probed(found) && found.intact()
    }
}

impl View for Event {
    type V = EventView;

    open spec fn view(&self) -> EventView {
        match self {
            Event::Probed(s) => EventView::Probed(s@),
            Event::Deleted(ok) => EventView::Deleted(*ok),
            Event::DirRemoved(ok) => EventView::DirRemoved(*ok),
            Event::Surveyed { parent_missing, name_exists } => EventView::Surveyed {
                parent_missing: *parent_missing,
                name_exists: *name_exists,
            },
            Event::DirCreated(ok) => EventView::DirCreated(*ok),
            Event::Linked(ok) => EventView::Linked(*ok),
        }
    }
}

} // verus!
