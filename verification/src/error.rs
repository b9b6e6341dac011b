//! The one error type of the library.
use vstd::prelude::*;

use crate::text::{cat2, cat3, cat4, cat6, decimal, number};

verus! {

/// What can end an operation early: user-facing errors and the signals by which
/// the merge frontier talks to its callers.
#[derive(Debug)]
pub enum ImergeError {
    /// A plain user-facing error message.
    Failure(String),
    /// A merge that was expected to succeed conflicted. Carries the coordinates
    /// of the merge inside its block.
    UnexpectedMergeFailure { i1: usize, i2: usize, msg: String },
    /// The block or frontier is already fully known.
    BlockComplete,
    /// Progress is blocked at `(i1, i2)` of the grid until the user resolves
    /// that merge.
    FrontierBlocked { i1: usize, i2: usize, msg: String },
    /// A commit does not belong to any cell that was blocking the frontier.
    NotABlockingCommit(String),
    /// There is no manual merge to incorporate.
    NoManualMerge(String),
    /// A manual merge commit cannot be used as it is.
    ManualMergeUnusable { commit: String, msg: String },
    /// A commit is not among the known merge results.
    CommitNotFound(String),
    /// A simplification needs a grid cell that is not known yet.
    MissingMerge { i1: usize, i2: usize },
    /// One of the two branches has no commits beyond the merge base.
    NothingToDo,
    /// The working tree has unstaged or uncommitted changes.
    UncleanWorkTree(String),
    /// A range of commits contains more than one path.
    NonlinearAncestry(String),
    /// One commit is not an ancestor of the other at all.
    NotFirstParentAncestor(String),
    /// The operation waits for the reply to its last request (see
    /// [`crate::git::Git`]).
    Suspended,
}

/// The mathematical content of an [`ImergeError`].
pub enum ErrorView {
    Failure(Seq<char>),
    UnexpectedMergeFailure { i1: usize, i2: usize, msg: Seq<char> },
    BlockComplete,
    FrontierBlocked { i1: usize, i2: usize, msg: Seq<char> },
    NotABlockingCommit(Seq<char>),
    NoManualMerge(Seq<char>),
    ManualMergeUnusable { commit: Seq<char>, msg: Seq<char> },
    CommitNotFound(Seq<char>),
    MissingMerge { i1: usize, i2: usize },
    NothingToDo,
    UncleanWorkTree(Seq<char>),
    NonlinearAncestry(Seq<char>),
    NotFirstParentAncestor(Seq<char>),
    Suspended,
}

impl DeepView for ImergeError {
    type V = ErrorView;

    open spec fn deep_view(&self) -> ErrorView {
        match self {
            ImergeError::Failure(m) => ErrorView::Failure(m@),
            ImergeError::UnexpectedMergeFailure { i1, i2, msg } => ErrorView::UnexpectedMergeFailure {
                i1: *i1,
                i2: *i2,
                msg: msg@,
            },
            ImergeError::BlockComplete => ErrorView::BlockComplete,
            ImergeError::FrontierBlocked { i1, i2, msg } => ErrorView::FrontierBlocked {
                i1: *i1,
                i2: *i2,
                msg: msg@,
            },
            ImergeError::NotABlockingCommit(m) => ErrorView::NotABlockingCommit(m@),
            ImergeError::NoManualMerge(m) => ErrorView::NoManualMerge(m@),
            ImergeError::ManualMergeUnusable { commit, msg } => ErrorView::ManualMergeUnusable {
                commit: commit@,
                msg: msg@,
            },
            ImergeError::CommitNotFound(m) => ErrorView::CommitNotFound(m@),
            ImergeError::MissingMerge { i1, i2 } => ErrorView::MissingMerge { i1: *i1, i2: *i2 },
            ImergeError::NothingToDo => ErrorView::NothingToDo,
            ImergeError::UncleanWorkTree(m) => ErrorView::UncleanWorkTree(m@),
            ImergeError::NonlinearAncestry(m) => ErrorView::NonlinearAncestry(m@),
            ImergeError::NotFirstParentAncestor(m) => ErrorView::NotFirstParentAncestor(m@),
            ImergeError::Suspended => ErrorView::Suspended,
        }
    }
}

/// The content of a result.
pub open spec fn res<T: DeepView>(r: Result<T, ImergeError>) -> Result<T::V, ErrorView> {
    match r {
        Ok(v) => Ok(v.deep_view()),
        Err(e) => Err(e.deep_view()),
    }
}

/// The text that the user sees for an error.
pub open spec fn error_text(e: ErrorView) -> Seq<char> {
    match e {
        ErrorView::Failure(m) => m,
        ErrorView::UnexpectedMergeFailure { i1, i2, msg } => "unexpected merge failure at "@
            + decimal(i1 as nat) + "-"@ + decimal(i2 as nat) + ": "@ + msg,
        ErrorView::BlockComplete => "the block is already complete"@,
        ErrorView::FrontierBlocked { i1, i2, msg } => msg,
        ErrorView::NotABlockingCommit(m) => m,
        ErrorView::NoManualMerge(m) => m,
        ErrorView::ManualMergeUnusable { commit, msg } => "commit "@ + commit + " is not usable; "@
            + msg,
        ErrorView::CommitNotFound(c) => "commit "@ + c
            + " was not found among the known merge commits"@,
        ErrorView::MissingMerge { i1, i2 } => "merge "@ + decimal(i1 as nat) + "-"@ + decimal(
            i2 as nat,
        ) + " is not yet done"@,
        ErrorView::NothingToDo => "nothing to do"@,
        ErrorView::UncleanWorkTree(m) => m,
        ErrorView::NonlinearAncestry(m) => m,
        ErrorView::NotFirstParentAncestor(m) => m,
        ErrorView::Suspended => "waiting for a reply"@,
    }
}

impl ImergeError {
    /// The text that the user sees.
    pub fn message(&self) -> (r: String)
        ensures
            r@ == error_text(self.deep_view()),
    {
        match self {
            ImergeError::Failure(m) => m.clone(),
            ImergeError::UnexpectedMergeFailure { i1, i2, msg } => cat6(
                "unexpected merge failure at ",
                &number(*i1),
                "-",
                &number(*i2),
                ": ",
                msg,
            ),
            ImergeError::BlockComplete => "the block is already complete".to_owned(),
            ImergeError::FrontierBlocked { i1: _, i2: _, msg } => msg.clone(),
            ImergeError::NotABlockingCommit(m) => m.clone(),
            ImergeError::NoManualMerge(m) => m.clone(),
            ImergeError::ManualMergeUnusable { commit, msg } => cat4(
                "commit ",
                commit,
                " is not usable; ",
                msg,
            ),
            ImergeError::CommitNotFound(c) => cat3(
                "commit ",
                c,
                " was not found among the known merge commits",
            ),
            ImergeError::MissingMerge { i1, i2 } => {
                let a = cat4("merge ", &number(*i1), "-", &number(*i2));
                cat2(&a, " is not yet done")
            },
            ImergeError::NothingToDo => "nothing to do".to_owned(),
            ImergeError::UncleanWorkTree(m) => m.clone(),
            ImergeError::NonlinearAncestry(m) => m.clone(),
            ImergeError::NotFirstParentAncestor(m) => m.clone(),
            ImergeError::Suspended => "waiting for a reply".to_owned(),
        }
    }
}

/// A plain failure with the message `msg`.
pub fn failure<T>(msg: &str) -> (r: Result<T, ImergeError>)
    ensures
        r matches Err(e) && e.deep_view() == ErrorView::Failure(msg@),
{
    Err(ImergeError::Failure(msg.to_owned()))
}

} // verus!
