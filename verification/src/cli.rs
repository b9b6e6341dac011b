//! What the user can ask for.
use vstd::prelude::*;

verus! {

/// The command line.
pub struct Cli {
    pub command: Option<Command>,
}

/// A command with its arguments.
pub enum Command {
    /// Initialize a new incremental merge.
    Init(InitArgs),
    /// Start a new incremental merge: initialize it and go on.
    Start(InitArgs),
    /// Start a simple merge.
    Merge(MergeArgs),
    /// Start a simple rebase.
    Rebase(RebaseArgs),
    /// Drop one or more commits.
    Drop(RangeArgs),
    /// Revert one or more commits.
    Revert(RangeArgs),
    /// Record the merge on the scratch branch and go on.
    Continue(EditArgs),
    /// Record the merge on the scratch branch.
    Record(EditArgs),
    /// Make the merges that do not conflict.
    Autofill(NameArgs),
    /// Simplify a completed incremental merge.
    Simplify(SimplifyArgs),
    /// Simplify a completed incremental merge and remove it.
    Finish(SimplifyArgs),
    /// Draw the current state.
    Diagram(DiagramArgs),
    /// List the incremental merges in progress.
    List,
    /// Remove an incremental merge for good.
    Remove(NameArgs),
    /// Change the parents of a commit, and of what comes after it.
    Reparent(ReparentArgs),
}

/// The content of a [`Command`].
pub enum CommandView {
    Init(InitArgsView),
    Start(InitArgsView),
    Merge(MergeArgsView),
    Rebase(RebaseArgsView),
    Drop(RangeArgsView),
    Revert(RangeArgsView),
    Continue(EditArgsView),
    Record(EditArgsView),
    Autofill(NameArgsView),
    Simplify(SimplifyArgsView),
    Finish(SimplifyArgsView),
    Diagram(DiagramArgsView),
    List,
    Remove(NameArgsView),
    Reparent(ReparentArgsView),
}

impl DeepView for Command {
    type V = CommandView;

    open spec fn deep_view(&self) -> CommandView {
        match self {
            Command::Init(a) => CommandView::Init(a.deep_view()),
            Command::Start(a) => CommandView::Start(a.deep_view()),
            Command::Merge(a) => CommandView::Merge(a.deep_view()),
            Command::Rebase(a) => CommandView::Rebase(a.deep_view()),
            Command::Drop(a) => CommandView::Drop(a.deep_view()),
            Command::Revert(a) => CommandView::Revert(a.deep_view()),
            Command::Continue(a) => CommandView::Continue(a.deep_view()),
            Command::Record(a) => CommandView::Record(a.deep_view()),
            Command::Autofill(a) => CommandView::Autofill(a.deep_view()),
            Command::Simplify(a) => CommandView::Simplify(a.deep_view()),
            Command::Finish(a) => CommandView::Finish(a.deep_view()),
            Command::Diagram(a) => CommandView::Diagram(a.deep_view()),
            Command::List => CommandView::List,
            Command::Remove(a) => CommandView::Remove(a.deep_view()),
            Command::Reparent(a) => CommandView::Reparent(a.deep_view()),
        }
    }
}

/// Which incremental merge a command is for.
pub struct NameArgs {
    /// Name of the incremental merge.
    pub name: Option<String>,
}

/// The content of [`NameArgs`].
pub struct NameArgsView {
    pub name: Option<Seq<char>>,
}

impl DeepView for NameArgs {
    type V = NameArgsView;

    open spec fn deep_view(&self) -> NameArgsView {
        NameArgsView {
            name: self.name.deep_view(),
        }
    }
}

/// How an incremental merge starts.
pub struct InitArgs {
    /// Name of the incremental merge.
    pub name: Option<String>,
    /// What the incremental merge is for.
    pub goal: String,
    /// The branch to which the result will be stored.
    pub branch: Option<String>,
    /// Ask the user to complete all merges manually.
    pub manual: bool,
    /// Resolve a conflict between two commits that make the same change.
    pub dedupe_patches: bool,
    /// Handle only first-parent commits.
    pub first_parent: bool,
    /// The tip of the branch to be merged into the current one.
    pub tip2: String,
}

/// The content of [`InitArgs`].
pub struct InitArgsView {
    pub name: Option<Seq<char>>,
    pub goal: Seq<char>,
    pub branch: Option<Seq<char>>,
    pub manual: bool,
    pub dedupe_patches: bool,
    pub first_parent: bool,
    pub tip2: Seq<char>,
}

impl DeepView for InitArgs {
    type V = InitArgsView;

    open spec fn deep_view(&self) -> InitArgsView {
        InitArgsView {
            name: self.name.deep_view(),
            goal: self.goal@,
            branch: self.branch.deep_view(),
            manual: self.manual,
            dedupe_patches: self.dedupe_patches,
            first_parent: self.first_parent,
            tip2: self.tip2@,
        }
    }
}

/// How a simple merge starts.
pub struct MergeArgs {
    /// Name of the incremental merge.
    pub name: Option<String>,
    /// What the incremental merge is for.
    pub goal: String,
    /// The branch to which the result will be stored.
    pub branch: Option<String>,
    /// Ask the user to complete all merges manually.
    pub manual: bool,
    /// Resolve a conflict between two commits that make the same change.
    pub dedupe_patches: bool,
    /// Handle only first-parent commits.
    pub first_parent: bool,
    /// The tip of the branch to be merged into the current one.
    pub tip2: String,
}

/// The content of [`MergeArgs`].
pub struct MergeArgsView {
    pub name: Option<Seq<char>>,
    pub goal: Seq<char>,
    pub branch: Option<Seq<char>>,
    pub manual: bool,
    pub dedupe_patches: bool,
    pub first_parent: bool,
    pub tip2: Seq<char>,
}

impl DeepView for MergeArgs {
    type V = MergeArgsView;

    open spec fn deep_view(&self) -> MergeArgsView {
        MergeArgsView {
            name: self.name.deep_view(),
            goal: self.goal@,
            branch: self.branch.deep_view(),
            manual: self.manual,
            dedupe_patches: self.dedupe_patches,
            first_parent: self.first_parent,
            tip2: self.tip2@,
        }
    }
}

/// How a simple rebase starts.
pub struct RebaseArgs {
    /// Name of the incremental merge.
    pub name: Option<String>,
    /// What the incremental merge is for.
    pub goal: String,
    /// The branch to which the result will be stored.
    pub branch: Option<String>,
    /// Ask the user to complete all merges manually.
    pub manual: bool,
    /// Resolve a conflict between two commits that make the same change.
    pub dedupe_patches: bool,
    /// Handle only first-parent commits.
    pub first_parent: bool,
    /// The tip of the branch onto which the current one is rebased.
    pub tip1: String,
}

/// The content of [`RebaseArgs`].
pub struct RebaseArgsView {
    pub name: Option<Seq<char>>,
    pub goal: Seq<char>,
    pub branch: Option<Seq<char>>,
    pub manual: bool,
    pub dedupe_patches: bool,
    pub first_parent: bool,
    pub tip1: Seq<char>,
}

impl DeepView for RebaseArgs {
    type V = RebaseArgsView;

    open spec fn deep_view(&self) -> RebaseArgsView {
        RebaseArgsView {
            name: self.name.deep_view(),
            goal: self.goal@,
            branch: self.branch.deep_view(),
            manual: self.manual,
            dedupe_patches: self.dedupe_patches,
            first_parent: self.first_parent,
            tip1: self.tip1@,
        }
    }
}

/// Which commits are dropped or reverted.
pub struct RangeArgs {
    /// Name of the incremental merge.
    pub name: Option<String>,
    /// The branch to which the result will be stored.
    pub branch: Option<String>,
    /// Ask the user to complete all merges manually.
    pub manual: bool,
    /// Resolve a conflict between two commits that make the same change.
    pub dedupe_patches: bool,
    /// Handle only first-parent commits.
    pub first_parent: bool,
    /// A commit, or a range of commits `commit..commit`.
    pub range: String,
}

/// The content of [`RangeArgs`].
pub struct RangeArgsView {
    pub name: Option<Seq<char>>,
    pub branch: Option<Seq<char>>,
    pub manual: bool,
    pub dedupe_patches: bool,
    pub first_parent: bool,
    pub range: Seq<char>,
}

impl DeepView for RangeArgs {
    type V = RangeArgsView;

    open spec fn deep_view(&self) -> RangeArgsView {
        RangeArgsView {
            name: self.name.deep_view(),
            branch: self.branch.deep_view(),
            manual: self.manual,
            dedupe_patches: self.dedupe_patches,
            first_parent: self.first_parent,
            range: self.range@,
        }
    }
}

/// How a merge by the user is committed.
pub struct EditArgs {
    /// Name of the incremental merge.
    pub name: Option<String>,
    /// Edit the log message.
    pub edit: bool,
    /// Do not edit the log message.
    pub no_edit: bool,
}

/// The content of [`EditArgs`].
pub struct EditArgsView {
    pub name: Option<Seq<char>>,
    pub edit: bool,
    pub no_edit: bool,
}

impl DeepView for EditArgs {
    type V = EditArgsView;

    open spec fn deep_view(&self) -> EditArgsView {
        EditArgsView {
            name: self.name.deep_view(),
            edit: self.edit,
            no_edit: self.no_edit,
        }
    }
}

impl EditArgsView {
    /// Whether the user asked for log messages to be edited or not. If both were
    /// asked for, they are not edited.
    pub open spec fn edit_log_msg(self) -> Option<bool> {
        if self.no_edit {
            Some(false)
        } else if self.edit {
            Some(true)
        } else {
            None
        }
    }
}

impl EditArgs {
    /// Whether the user asked for log messages to be edited or not.
    pub fn edit_log_msg(&self) -> (r: Option<bool>)
        ensures
            r == self.deep_view().edit_log_msg(),
    {
        if self.no_edit {
            Some(false)
        } else if self.edit {
            Some(true)
        } else {
            None
        }
    }
}

/// How a finished incremental merge is simplified.
pub struct SimplifyArgs {
    /// Name of the incremental merge.
    pub name: Option<String>,
    /// What to simplify to, if not what was given at the start.
    pub goal: Option<String>,
    /// The branch to which the result will be stored.
    pub branch: Option<String>,
    /// Update the branch even if commits get lost.
    pub force: bool,
}

/// The content of [`SimplifyArgs`].
pub struct SimplifyArgsView {
    pub name: Option<Seq<char>>,
    pub goal: Option<Seq<char>>,
    pub branch: Option<Seq<char>>,
    pub force: bool,
}

impl DeepView for SimplifyArgs {
    type V = SimplifyArgsView;

    open spec fn deep_view(&self) -> SimplifyArgsView {
        SimplifyArgsView {
            name: self.name.deep_view(),
            goal: self.goal.deep_view(),
            branch: self.branch.deep_view(),
            force: self.force,
        }
    }
}

/// What is drawn, and how.
pub struct DiagramArgs {
    /// Name of the incremental merge.
    pub name: Option<String>,
    /// Show the merges that have been made so far.
    pub commits: bool,
    /// Show the current merge frontier.
    pub frontier: bool,
    /// Write an HTML diagram to this path.
    pub html: Option<String>,
    /// Draw with colors.
    pub color: bool,
    /// Draw without colors.
    pub no_color: bool,
}

/// The content of [`DiagramArgs`].
pub struct DiagramArgsView {
    pub name: Option<Seq<char>>,
    pub commits: bool,
    pub frontier: bool,
    pub html: Option<Seq<char>>,
    pub color: bool,
    pub no_color: bool,
}

impl DeepView for DiagramArgs {
    type V = DiagramArgsView;

    open spec fn deep_view(&self) -> DiagramArgsView {
        DiagramArgsView {
            name: self.name.deep_view(),
            commits: self.commits,
            frontier: self.frontier,
            html: self.html.deep_view(),
            color: self.color,
            no_color: self.no_color,
        }
    }
}

/// Which commit gets which parents.
pub struct ReparentArgs {
    /// The commit that gets new parents.
    pub commit: String,
    /// The new parents.
    pub parents: Vec<String>,
}

/// The content of [`ReparentArgs`].
pub struct ReparentArgsView {
    pub commit: Seq<char>,
    pub parents: Seq<Seq<char>>,
}

impl DeepView for ReparentArgs {
    type V = ReparentArgsView;

    open spec fn deep_view(&self) -> ReparentArgsView {
        ReparentArgsView {
            commit: self.commit@,
            parents: self.parents.deep_view(),
        }
    }
}

} // verus!
