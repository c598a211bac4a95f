use vstd::prelude::*;
use crate::hash::ContentHash;

verus! {

/// One thing that the caller is asked to do to the file system. The caller
/// performs it and reports what happened as an [`Event`].
#[derive(Clone, Debug, PartialEq, Eq)]
pub enum Action {
    /// Nothing is left to do.
    Finished,
    /// Walk the tree under `root` and report every regular file with its
    /// fingerprint.
    Scan { root: String },
    /// Create the store directory and the directories above it.
    CreateStore { path: String },
    /// Find out whether the store entry at `path` exists.
    ProbeEntry { path: String },
    /// Rename the file at `from` to `to`.
    MoveToStore { from: String, to: String },
    /// Find out whether anything exists at `path`.
    ProbeMember { path: String },
    /// Remove the file at `path`.
    RemoveMember { path: String },
    /// Create at `link` a symbolic link that holds `target`.
    LinkMember { target: String, link: String },
    /// Read through `path` and report the fingerprint of what is read.
    Rehash { path: String },
}

/// What an [`Action`] says, with texts in place of strings.
pub enum ActionView {
    Finished,
    Scan { root: Seq<char> },
    CreateStore { path: Seq<char> },
    ProbeEntry { path: Seq<char> },
    MoveToStore { from: Seq<char>, to: Seq<char> },
    ProbeMember { path: Seq<char> },
    RemoveMember { path: Seq<char> },
    LinkMember { target: Seq<char>, link: Seq<char> },
    Rehash { path: Seq<char> },
}

impl View for Action {
    type V = ActionView;

    open spec fn view(&self) -> ActionView {
        match *self {
            Action::Finished => ActionView::Finished,
            Action::Scan { root } => ActionView::Scan { root: root@ },
            Action::CreateStore { path } => ActionView::CreateStore { path: path@ },
            Action::ProbeEntry { path } => ActionView::ProbeEntry { path: path@ },
            Action::MoveToStore { from, to } => ActionView::MoveToStore { from: from@, to: to@ },
            Action::ProbeMember { path } => ActionView::ProbeMember { path: path@ },
            Action::RemoveMember { path } => ActionView::RemoveMember { path: path@ },
            Action::LinkMember { target, link } => ActionView::LinkMember {
                target: target@,
                link: link@,
            },
            Action::Rehash { path } => ActionView::Rehash { path: path@ },
        }
    }
}

impl ActionView {
    /// Whether performing the action changes the file system.
    pub open spec fn mutates(self) -> bool {
        match self {
            ActionView::CreateStore { .. } => true,
            ActionView::MoveToStore { .. } => true,
            ActionView::RemoveMember { .. } => true,
            ActionView::LinkMember { .. } => true,
            _ => false,
        }
    }

    /// The location of a scanned file that the action takes away or puts
    /// something new at, where it does so.
    pub open spec fn touched(self) -> Option<Seq<char>> {
        match self {
            ActionView::MoveToStore { from, .. } => Some(from),
            ActionView::RemoveMember { path } => Some(path),
            ActionView::LinkMember { link, .. } => Some(link),
            _ => None,
        }
    }
}

impl Action {
    /// Whether performing the action changes the file system.
    pub fn mutates(&self) -> (changes: bool)
        ensures
            changes == self@.mutates(),
    {
        match self {
            Action::CreateStore { .. } => true,
            Action::MoveToStore { .. } => true,
            Action::RemoveMember { .. } => true,
            Action::LinkMember { .. } => true,
            _ => false,
        }
    }
}

/// What happened when the caller performed an [`Action`].
#[derive(Clone, Copy, Debug, PartialEq, Eq)]
pub enum Event {
    /// A probe found that something exists at the path.
    Present,
    /// A probe found nothing at the path.
    Absent,
    /// The action was carried out.
    Succeeded,
    /// The action could not be carried out.
    Failed,
    /// The file was read and has this fingerprint.
    Hashed(ContentHash),
}

} // verus!
