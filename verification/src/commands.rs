//! The commands.
use vstd::prelude::*;

use crate::cli::{
    Command, CommandView, DiagramArgs, DiagramArgsView, EditArgs, EditArgsView, InitArgs,
    InitArgsView, MergeArgs, MergeArgsView, NameArgs, NameArgsView, RangeArgs, RangeArgsView,
    RebaseArgs, RebaseArgsView, ReparentArgs, ReparentArgsView, SimplifyArgs, SimplifyArgsView,
};
use crate::diagram::{
    commits_text, frontier_text, html_text, write_commits_diagram, write_frontier_diagram,
    write_html, FRONTIER_LEGEND_LINE, LEGEND,
};
use crate::error::{failure, res, ErrorView, ImergeError};
use crate::git::Git;
use crate::history::latest_place;
use crate::imerge::{MergeState, MergeStateView};
use crate::pattern::{range_parts, split_range};
use crate::state::{is_allowed_goal, is_goal, ALLOWED_GOALS, GoalOpts, GoalOptsView, StateDictView};
use crate::talk::{
    latest, lemma_grows, lemma_learns_nothing, Reply, ReplyView, Request, RequestView, Talk, Told,
};
use crate::text::{
    cat2, cat3, cat5, copied_option, debug_form, is_listed, join, joined, list4, quoted, same,
};
use crate::work::{frontier_of, is_finished, stored_state};

verus! {

broadcast use lemma_grows, lemma_learns_nothing;

// ---------------------------------------------------------------------
// Shared parts
// ---------------------------------------------------------------------

/// The allowed goals.
pub open spec fn goal_list() -> Seq<Seq<char>> {
    Seq::new(9, |k: int| ALLOWED_GOALS@[k]@)
}

/// Fails unless `goal` is an allowed goal.
pub open spec fn checked_goal(goal: Seq<char>) -> Result<(), ErrorView> {
    if is_goal(goal) {
        Ok(())
    } else {
        Err(
            ErrorView::Failure(
                "invalid --goal "@ + debug_form(goal) + " (choose from "@ + joined(
                    goal_list(),
                    ", "@,
                ) + ")"@,
            ),
        )
    }
}

fn validate_goal(goal: &str) -> (r: Result<(), ImergeError>)
    ensures
        res(r) == checked_goal(goal@),
{
    if is_allowed_goal(goal) {
        return Ok(());
    }
    let goals = ALLOWED_GOALS;
    let mut list: Vec<String> = Vec::new();
    let mut k: usize = 0;
    while k < 9
        invariant
            k <= 9,
            goals == ALLOWED_GOALS,
            list.len() == k,
            forall|m: int| 0 <= m < k ==> (#[trigger] list[m])@ == ALLOWED_GOALS@[m]@,
        decreases 9 - k,
    {
        assert(goals@[k as int]@ == ALLOWED_GOALS@[k as int]@);
        list.push(goals[k].to_owned());
        k += 1;
    }
    assert(list.deep_view() =~= goal_list());
    let all = join(&list, ", ");
    failure(&cat5("invalid --goal ", &quoted(goal), " (choose from ", &all, ")"))
}

/// The error for a history that is not linear, with a hint if one can be given.
pub open spec fn hinted(e: ErrorView, first_parent: bool) -> ErrorView {
    match e {
        ErrorView::NonlinearAncestry(msg) => if first_parent {
            ErrorView::Failure(msg)
        } else {
            ErrorView::Failure(msg + "\nPerhaps use \"--first-parent\"?"@)
        },
        _ => e,
    }
}

fn hint_first_parent(e: ImergeError, first_parent: bool) -> (r: ImergeError)
    ensures
        r.deep_view() == hinted(e.deep_view(), first_parent),
{
    match e {
        ImergeError::NonlinearAncestry(msg) => {
            if first_parent {
                ImergeError::Failure(msg)
            } else {
                ImergeError::Failure(cat2(&msg, "\nPerhaps use \"--first-parent\"?"))
            }
        },
        other => other,
    }
}

/// How an incremental merge that a command starts is set up.
pub struct Setup {
    pub name: String,
    pub tip1: String,
    pub tip2: String,
    pub goal: String,
    pub goalopts: Option<GoalOpts>,
    pub manual: bool,
    pub dedupe_patches: bool,
    pub branch: Option<String>,
}

/// The content of a [`Setup`].
pub struct SetupView {
    pub name: Seq<char>,
    pub tip1: Seq<char>,
    pub tip2: Seq<char>,
    pub goal: Seq<char>,
    pub goalopts: Option<GoalOptsView>,
    pub manual: bool,
    pub dedupe_patches: bool,
    pub branch: Option<Seq<char>>,
}

impl DeepView for Setup {
    type V = SetupView;

    open spec fn deep_view(&self) -> SetupView {
        SetupView {
            name: self.name@,
            tip1: self.tip1@,
            tip2: self.tip2@,
            goal: self.goal@,
            goalopts: self.goalopts.deep_view(),
            manual: self.manual,
            dedupe_patches: self.dedupe_patches,
            branch: self.branch.deep_view(),
        }
    }
}

impl Talk {
    /// Makes `name` the default, if there is a choice.
    pub open spec fn maybe_set_default(self, name: Seq<char>) -> Told<()> {
        match self.iter_existing_imerge_names() {
            (g, Err(e)) => (g, Err(e)),
            (g, Ok(names)) => if names.len() > 1 {
                g.set_default_imerge_name(Some(name))
            } else {
                (g, Ok(()))
            },
        }
    }

    /// Initializes an incremental merge between these boundaries.
    pub open spec fn begin(
        self,
        setup: SetupView,
        bounds: (Seq<char>, Seq<Seq<char>>, Seq<Seq<char>>),
    ) -> Told<MergeStateView> {
        self.initialize(
            setup.name,
            bounds.0,
            (setup.tip1, setup.tip2),
            (bounds.1, bounds.2),
            setup.goal,
            setup.goalopts,
            setup.manual,
            setup.dedupe_patches,
            setup.branch,
        )
    }

    /// Saves a new incremental merge, and makes it the default if there is a
    /// choice.
    #[verifier::opaque]
    pub open spec fn keep(self, s: MergeStateView) -> Told<MergeStateView> {
        match self.save_imerge(s) {
            (g, _, Err(e)) => (g, Err(e)),
            (g, saved, Ok(_)) => match g.maybe_set_default(s.grid.name) {
                (g, Err(e)) => (g, Err(e)),
                (g, Ok(_)) => (g, Ok(saved)),
            },
        }
    }

    /// Initializes an incremental merge and saves it.
    #[verifier::opaque]
    pub open spec fn launch(
        self,
        setup: SetupView,
        bounds: (Seq<char>, Seq<Seq<char>>, Seq<Seq<char>>),
    ) -> Told<MergeStateView> {
        match self.begin(setup, bounds) {
            (g, Err(e)) => (g, Err(e)),
            (g, Ok(s)) => g.keep(s),
        }
    }

    /// Pushes the frontier as far as it goes. Either the merge is complete, or
    /// the user is asked for the next merge.
    #[verifier::opaque]
    pub open spec fn drive(self, s: MergeStateView) -> Told<()> {
        match self.complete_frontier(s, false) {
            (g, s, Ok(_)) => (g.note("Merge is complete!"@), Ok(())),
            (g, s, Err(ErrorView::FrontierBlocked { i1, i2, .. })) => g.request_user_merge(
                s,
                i1,
                i2,
            ),
            (g, s, Err(e)) => (g, Err(e)),
        }
    }

    /// Starts an incremental merge and goes on as far as possible, or says that
    /// there is nothing to do.
    pub open spec fn launch_and_drive(self, setup: SetupView, first_parent: bool) -> Told<()> {
        match self.get_boundaries(setup.tip1, setup.tip2, first_parent) {
            (g, Err(ErrorView::NothingToDo)) => (g.print("Already up-to-date."@), Ok(())),
            (g, Err(e)) => (g, Err(hinted(e, first_parent))),
            (g, Ok(bounds)) => match g.launch(setup, bounds) {
                (g, Err(e)) => (g, Err(e)),
                (g, Ok(s)) => g.drive(s),
            },
        }
    }

    /// See [`choose_merge_name`].
    pub open spec fn choose_merge_name(self, name: Option<Seq<char>>) -> Told<Seq<char>> {
        match self.iter_existing_imerge_names() {
            (g, Err(e)) => (g, Err(e)),
            (g, Ok(names)) => match name {
                Some(n) => g.choose_given(names, n),
                None => match g.get_default_imerge_name() {
                    (g, Err(e)) => (g, Err(e)),
                    (g, Ok(Some(default))) => g.choose_default(default),
                    (g, Ok(None)) => g.choose_only(names),
                },
            },
        }
    }

    /// The name that the user gave, if there is such an incremental merge. It
    /// becomes the default, if there is a choice.
    pub open spec fn choose_given(self, names: Seq<Seq<char>>, name: Seq<char>) -> Told<Seq<char>> {
        if !names.contains(name) {
            (
                self,
                Err(
                    ErrorView::Failure(
                        "There is no incremental merge called '"@ + name + "'!"@,
                    ),
                ),
            )
        } else if names.len() > 1 {
            match self.set_default_imerge_name(Some(name)) {
                (g, Err(e)) => (g, Err(e)),
                (g, Ok(_)) => (g, Ok(name)),
            }
        } else {
            (self, Ok(name))
        }
    }

    /// The default name, if that incremental merge is still there; otherwise the
    /// default is cleared.
    pub open spec fn choose_default(self, default: Seq<char>) -> Told<Seq<char>> {
        match self.check_imerge_exists(default) {
            (g, Err(e)) => (g, Err(e)),
            (g, Ok(true)) => (g, Ok(default)),
            (g, Ok(false)) => match g.set_default_imerge_name(None) {
                (g, Err(e)) => (g, Err(e)),
                (g, Ok(_)) => (
                    g,
                    Err(
                        ErrorView::Failure(
                            "Warning: The default incremental merge '"@ + default
                                + "' has disappeared.\n(The setting imerge.default has been cleared.)\nPlease try again."@,
                        ),
                    ),
                ),
            },
        }
    }

    /// The name of the only incremental merge.
    pub open spec fn choose_only(self, names: Seq<Seq<char>>) -> Told<Seq<char>> {
        let (g, exists_one) = if names.len() == 1 {
            self.check_imerge_exists(names[0])
        } else {
            (self, Ok(false))
        };
        match exists_one {
            Err(e) => (g, Err(e)),
            Ok(true) => (g, Ok(names[0])),
            Ok(false) => (
                g,
                Err(
                    ErrorView::Failure("Please select an incremental merge using --name"@),
                ),
            ),
        }
    }

    /// See [`read_merge_state`].
    #[verifier::opaque]
    pub open spec fn read_merge_state(self, name: Option<Seq<char>>) -> Told<MergeStateView> {
        match self.choose_merge_name(name) {
            (g, Err(e)) => (g, Err(e)),
            (g, Ok(n)) => g.read_imerge(n),
        }
    }

    /// The two ends of a range of commits. A single commit is the range from its
    /// first parent.
    pub open spec fn parse_range(self, range: Seq<char>) -> Told<(Seq<char>, Seq<char>)> {
        match range_parts(range) {
            Some((start, sep, end)) => if sep != ".."@ {
                (
                    self,
                    Err(
                        ErrorView::Failure(
                            "Range must either be a single commit or in the form \"commit..commit\""@,
                        ),
                    ),
                )
            } else {
                match self.rev_parse_required(start) {
                    (g, Err(e)) => (g, Err(e)),
                    (g, Ok(start)) => match g.rev_parse_required(end) {
                        (g, Err(e)) => (g, Err(e)),
                        (g, Ok(end)) => (g, Ok((start, end))),
                    },
                }
            },
            None => match self.rev_parse_required(range) {
                (g, Err(e)) => (g, Err(e)),
                (g, Ok(end)) => match g.rev_parse_required(end + "^"@) {
                    (g, Err(e)) => (g, Err(e)),
                    (g, Ok(start)) => (g, Ok((start, end))),
                },
            },
        }
    }

    /// Whether `name` can name a branch.
    pub open spec fn is_branch_name(self, name: Seq<char>) -> Told<bool> {
        match self.check_branch_name_format(name) {
            (g, Err(ErrorView::Suspended)) => (g, Err(ErrorView::Suspended)),
            (g, Err(_)) => (g, Ok(false)),
            (g, Ok(_)) => (g, Ok(true)),
        }
    }

    /// The branch for the result: the one that was given, or the current one if
    /// its name is a good one.
    pub open spec fn branch_for(self, branch: Option<Seq<char>>, current: Seq<char>) -> Told<
        Option<Seq<char>>,
    > {
        match branch {
            Some(b) => (self, Ok(Some(b))),
            None => match self.is_branch_name(current) {
                (g, Err(e)) => (g, Err(e)),
                (g, Ok(true)) => (g, Ok(Some(current))),
                (g, Ok(false)) => (g, Ok(None)),
            },
        }
    }

    /// The current tip, and name and branch for what starts there. Off a branch
    /// the name has to be given.
    pub open spec fn current_tip(self, name: Option<Seq<char>>, branch: Option<Seq<char>>) -> Told<
        (Seq<char>, Seq<char>, Seq<char>),
    > {
        match self.get_head_refname(true) {
            (g, Err(e)) => (g, Err(e)),
            (g, Ok(Some(tip))) => match g.branch_for(branch, tip) {
                (g, Err(e)) => (g, Err(e)),
                (g, Ok(branch)) => {
                    let n = match name {
                        Some(n) => n,
                        None => tip,
                    };
                    let b = match branch {
                        Some(b) => b,
                        None => n,
                    };
                    (g, Ok((tip, n, b)))
                },
            },
            (g, Ok(None)) => match g.rev_parse_required("HEAD"@) {
                (g, Err(e)) => (g, Err(e)),
                (g, Ok(tip)) => match name {
                    None => (
                        g,
                        Err(
                            ErrorView::Failure(
                                "The checked-out branch could not be used as the imerge name.\nPlease use the --name option."@,
                            ),
                        ),
                    ),
                    Some(n) => (
                        g,
                        Ok(
                            (
                                tip,
                                n,
                                match branch {
                                    Some(b) => b,
                                    None => n,
                                },
                            ),
                        ),
                    ),
                },
            },
        }
    }
}

fn maybe_set_default(git: &mut Git, name: &str) -> (r: Result<(), ImergeError>)
    ensures
        (final(git)@, res(r)) == old(git)@.maybe_set_default(name@),
        old(git)@.grows_to(final(git)@),
{
    if git.iter_existing_imerge_names()?.len() > 1 {
        git.set_default_imerge_name(Some(name))?;
    }
    Ok(())
}

fn launch(git: &mut Git, setup: Setup, bounds: (String, Vec<String>, Vec<String>)) -> (r: Result<
    MergeState,
    ImergeError,
>)
    ensures
        (final(git)@, res(r)) == old(git)@.launch(setup.deep_view(), bounds.deep_view()),
        old(git)@.grows_to(final(git)@),
        r matches Ok(s) ==> s@.wf(),
{
    proof {
        reveal(Talk::launch);
        reveal(Talk::keep);
    }
    let branch = match &setup.branch {
        Some(b) => Some(b.as_str()),
        None => None,
    };
    let mut state = MergeState::initialize(
        git,
        &setup.name,
        &bounds.0,
        &setup.tip1,
        &bounds.1,
        &setup.tip2,
        &bounds.2,
        &setup.goal,
        setup.goalopts,
        setup.manual,
        setup.dedupe_patches,
        branch,
    )?;
    state.save(git)?;
    maybe_set_default(git, &setup.name)?;
    Ok(state)
}

/// Pushes the frontier as far as it goes, and either says that the merge is
/// complete or prepares the next merge by the user.
fn drive_to_completion_or_conflict(git: &mut Git, state: &mut MergeState) -> (r: Result<
    (),
    ImergeError,
>)
    requires
        old(state)@.wf(),
    ensures
        (final(git)@, res(r)) == old(git)@.drive(old(state)@),
        old(git)@.grows_to(final(git)@),
{
    proof {
        reveal(Talk::drive);
    }
    match state.auto_complete_frontier(git) {
        Ok(()) => {
            git.note("Merge is complete!");
            Ok(())
        },
        Err(ImergeError::FrontierBlocked { i1, i2, msg: _ }) => state.request_user_merge(
            git,
            i1,
            i2,
        ),
        Err(e) => Err(e),
    }
}

fn launch_and_drive(git: &mut Git, setup: Setup, first_parent: bool) -> (r: Result<
    (),
    ImergeError,
>)
    ensures
        (final(git)@, res(r)) == old(git)@.launch_and_drive(setup.deep_view(), first_parent),
        old(git)@.grows_to(final(git)@),
{
    let bounds = match git.get_boundaries(&setup.tip1, &setup.tip2, first_parent) {
        Ok(bounds) => bounds,
        Err(ImergeError::NothingToDo) => {
            git.print("Already up-to-date.");
            return Ok(());
        },
        Err(e) => {
            return Err(hint_first_parent(e, first_parent));
        },
    };
    let mut state = launch(git, setup, bounds)?;
    drive_to_completion_or_conflict(git, &mut state)
}

/// The name of the incremental merge that a command is for: the given one, the
/// default, or the only one.
pub fn choose_merge_name(git: &mut Git, name: Option<&str>) -> (r: Result<String, ImergeError>)
    ensures
        (final(git)@, res(r)) == old(git)@.choose_merge_name(name.deep_view()),
        old(git)@.grows_to(final(git)@),
{
    let names = git.iter_existing_imerge_names()?;
    let ghost all = names.deep_view();
    if let Some(name) = name {
        if !is_listed(&names, name) {
            return failure(&cat3("There is no incremental merge called '", name, "'!"));
        }
        if names.len() > 1 {
            git.set_default_imerge_name(Some(name))?;
        }
        return Ok(name.to_owned());
    }
    if let Some(default) = git.get_default_imerge_name()? {
        if git.check_imerge_exists(&default)? {
            return Ok(default);
        }
        git.set_default_imerge_name(None)?;
        return failure(
            &cat3(
                "Warning: The default incremental merge '",
                &default,
                "' has disappeared.\n(The setting imerge.default has been cleared.)\nPlease try again.",
            ),
        );
    }
    if names.len() == 1 {
        assert(all[0] == names@[0]@);
        if git.check_imerge_exists(&names[0])? {
            return Ok(names[0].clone());
        }
    }
    failure("Please select an incremental merge using --name")
}

/// Reads the incremental merge that a command is for.
pub fn read_merge_state(git: &mut Git, name: Option<&str>) -> (r: Result<MergeState, ImergeError>)
    ensures
        (final(git)@, res(r)) == old(git)@.read_merge_state(name.deep_view()),
        old(git)@.grows_to(final(git)@),
        r matches Ok(s) ==> s@.wf(),
{
    proof {
        reveal(Talk::read_merge_state);
    }
    let name = choose_merge_name(git, name)?;
    MergeState::read(git, &name)
}

fn parse_range(git: &mut Git, range: &str) -> (r: Result<(String, String), ImergeError>)
    ensures
        (final(git)@, res(r)) == old(git)@.parse_range(range@),
        old(git)@.grows_to(final(git)@),
{
    match split_range(range) {
        Some((start, sep, end)) => {
            if !same(&sep, "..") {
                return failure(
                    "Range must either be a single commit or in the form \"commit..commit\"",
                );
            }
            let start = git.rev_parse_required(&start)?;
            let end = git.rev_parse_required(&end)?;
            Ok((start, end))
        },
        None => {
            let end = git.rev_parse_required(range)?;
            let start = git.rev_parse_required(&cat2(&end, "^"))?;
            Ok((start, end))
        },
    }
}

fn is_branch_name(git: &mut Git, name: &str) -> (r: Result<bool, ImergeError>)
    ensures
        (final(git)@, res(r)) == old(git)@.is_branch_name(name@),
        old(git)@.grows_to(final(git)@),
{
    match git.check_branch_name_format(name) {
        Ok(()) => Ok(true),
        Err(ImergeError::Suspended) => Err(ImergeError::Suspended),
        Err(_) => Ok(false),
    }
}

fn branch_for(git: &mut Git, branch: &Option<String>, current: &str) -> (r: Result<
    Option<String>,
    ImergeError,
>)
    ensures
        (final(git)@, res(r)) == old(git)@.branch_for(branch.deep_view(), current@),
        old(git)@.grows_to(final(git)@),
{
    match branch {
        Some(b) => Ok(Some(b.clone())),
        None => if is_branch_name(git, current)? {
            Ok(Some(current.to_owned()))
        } else {
            Ok(None)
        },
    }
}

fn current_tip(git: &mut Git, name: &Option<String>, branch: &Option<String>) -> (r: Result<
    (String, String, String),
    ImergeError,
>)
    ensures
        (final(git)@, res(r)) == old(git)@.current_tip(name.deep_view(), branch.deep_view()),
        old(git)@.grows_to(final(git)@),
{
    match git.get_head_refname(true)? {
        Some(tip) => {
            let branch = branch_for(git, branch, &tip)?;
            let name = match name {
                Some(n) => n.clone(),
                None => tip.clone(),
            };
            let branch = match branch {
                Some(b) => b,
                None => name.clone(),
            };
            Ok((tip, name, branch))
        },
        None => {
            let tip = git.rev_parse_required("HEAD")?;
            let name = match name {
                Some(n) => n.clone(),
                None => {
                    return failure(
                        "The checked-out branch could not be used as the imerge name.\nPlease use the --name option.",
                    );
                },
            };
            let branch = match branch {
                Some(b) => b.clone(),
                None => name.clone(),
            };
            Ok((tip, name, branch))
        },
    }
}

// ---------------------------------------------------------------------
// Starting
// ---------------------------------------------------------------------

impl Talk {
    /// Sets up an incremental merge of `tip2` into the current branch.
    pub open spec fn init_imerge(self, args: InitArgsView) -> Told<MergeStateView> {
        match self.require_clean_work_tree("proceed"@) {
            (g, Err(e)) => (g, Err(e)),
            (g, Ok(_)) => match (checked_goal(args.goal), args.name) {
                (Err(e), _) => (g, Err(e)),
                (Ok(_), None) => (
                    g,
                    Err(
                        ErrorView::Failure(
                            "Please specify the --name to be used for this incremental merge"@,
                        ),
                    ),
                ),
                (Ok(_), Some(name)) => match g.get_head_refname(true) {
                    (g, Err(e)) => (g, Err(e)),
                    (g, Ok(head)) => {
                        let tip1 = match head {
                            Some(h) => h,
                            None => "HEAD"@,
                        };
                        match g.get_boundaries(tip1, args.tip2, args.first_parent) {
                            (g, Err(e)) => (g, Err(hinted(e, args.first_parent))),
                            (g, Ok(bounds)) => g.launch(
                                SetupView {
                                    name,
                                    tip1,
                                    tip2: args.tip2,
                                    goal: args.goal,
                                    goalopts: None,
                                    manual: args.manual,
                                    dedupe_patches: args.dedupe_patches,
                                    branch: args.branch,
                                },
                                bounds,
                            ),
                        }
                    },
                },
            },
        }
    }

    /// See [`cmd_init`].
    #[verifier::opaque]
    pub open spec fn cmd_init(self, args: InitArgsView) -> Told<()> {
        match self.init_imerge(args) {
            (g, Err(e)) => (g, Err(e)),
            (g, Ok(_)) => (g, Ok(())),
        }
    }

    /// See [`cmd_start`].
    #[verifier::opaque]
    pub open spec fn cmd_start(self, args: InitArgsView) -> Told<()> {
        match self.init_imerge(args) {
            (g, Err(e)) => (g, Err(e)),
            (g, Ok(s)) => g.drive(s),
        }
    }

    /// The name for a merge: the given one, or that of the other branch.
    pub open spec fn merge_name(self, args: MergeArgsView) -> Told<Seq<char>> {
        match args.name {
            Some(n) => (self, Ok(n)),
            None => match self.check_imerge_name_format(args.tip2) {
                (g, Err(e)) => (g, Err(e)),
                (g, Ok(_)) => (g, Ok(args.tip2)),
            },
        }
    }

    /// The current tip and the branch for a merge.
    pub open spec fn merge_branch(self, args: MergeArgsView) -> Told<
        (Seq<char>, Option<Seq<char>>),
    > {
        match self.get_head_refname(true) {
            (g, Err(e)) => (g, Err(e)),
            (g, Ok(head)) => {
                let (g, branch) = match head {
                    Some(h) => g.branch_for(args.branch, h),
                    None => (g, Ok(args.branch)),
                };
                let tip1 = match head {
                    Some(h) => h,
                    None => "HEAD"@,
                };
                match branch {
                    Err(e) => (g, Err(e)),
                    Ok(Some(b)) => (g, Ok((tip1, Some(b)))),
                    Ok(None) => if args.name is Some {
                        (g, Ok((tip1, args.name)))
                    } else {
                        (
                            g,
                            Err(
                                ErrorView::Failure(
                                    "HEAD is not a simple branch.  Please specify --branch for storing results."@,
                                ),
                            ),
                        )
                    },
                }
            },
        }
    }

    /// See [`cmd_merge`].
    #[verifier::opaque]
    pub open spec fn cmd_merge(self, args: MergeArgsView) -> Told<()> {
        match self.require_clean_work_tree("proceed"@) {
            (g, Err(e)) => (g, Err(e)),
            (g, Ok(_)) => match checked_goal(args.goal) {
                Err(e) => (g, Err(e)),
                Ok(_) => match g.merge_name(args) {
                    (g, Err(e)) => (g, Err(e)),
                    (g, Ok(name)) => match g.merge_branch(args) {
                        (g, Err(e)) => (g, Err(e)),
                        (g, Ok((tip1, branch))) => g.launch_and_drive(
                            SetupView {
                                name,
                                tip1,
                                tip2: args.tip2,
                                goal: args.goal,
                                goalopts: None,
                                manual: args.manual,
                                dedupe_patches: args.dedupe_patches,
                                branch,
                            },
                            args.first_parent,
                        ),
                    },
                },
            },
        }
    }

    /// See [`cmd_rebase`].
    #[verifier::opaque]
    pub open spec fn cmd_rebase(self, args: RebaseArgsView) -> Told<()> {
        match self.require_clean_work_tree("proceed"@) {
            (g, Err(e)) => (g, Err(e)),
            (g, Ok(_)) => match checked_goal(args.goal) {
                Err(e) => (g, Err(e)),
                Ok(_) => match g.current_tip(args.name, args.branch) {
                    (g, Err(e)) => (g, Err(e)),
                    (g, Ok((tip2, name, branch))) => g.launch_and_drive(
                        SetupView {
                            name,
                            tip1: args.tip1,
                            tip2,
                            goal: args.goal,
                            goalopts: None,
                            manual: args.manual,
                            dedupe_patches: args.dedupe_patches,
                            branch: Some(branch),
                        },
                        args.first_parent,
                    ),
                },
            },
        }
    }

    /// Reverts the first `n` commits, the last one first.
    pub open spec fn revert_all(self, commits: Seq<Seq<char>>, n: nat) -> Told<()>
        decreases n,
    {
        if n == 0 {
            (self, Ok(()))
        } else {
            match self.revert(commits[n - 1]) {
                (g, Err(e)) => (g, Err(e)),
                (g, Ok(_)) => g.revert_all(commits, (n - 1) as nat),
            }
        }
    }

    /// A commit on `end` that undoes the commits, the last one first.
    pub open spec fn undo(self, end: Seq<char>, commits: Seq<Seq<char>>) -> Told<Seq<char>> {
        match self.checkout(end, false) {
            (g, Err(e)) => (g, Err(e)),
            (g, Ok(_)) => match g.revert_all(commits, commits.len()) {
                (g, Err(e)) => (g, Err(e)),
                (g, Ok(_)) => g.rev_parse_required("HEAD"@),
            },
        }
    }

    /// How a drop or a revert is set up: what undoes the range of commits is to be
    /// merged into the current branch. A drop keeps where the range starts.
    pub open spec fn range_setup(self, args: RangeArgsView, goal: Seq<char>) -> Told<SetupView> {
        match self.require_clean_work_tree("proceed"@) {
            (g, Err(e)) => (g, Err(e)),
            (g, Ok(_)) => match g.parse_range(args.range) {
                (g, Err(e)) => (g, Err(e)),
                (g, Ok((start, end))) => match g.linear_ancestry(start, end, args.first_parent) {
                    (g, Err(e)) => (g, Err(hinted(e, args.first_parent))),
                    (g, Ok(commits)) => match g.current_tip(args.name, args.branch) {
                        (g, Err(e)) => (g, Err(e)),
                        (g, Ok((tip1, name, branch))) => match g.undo(end, commits) {
                            (g, Err(e)) => (g, Err(e)),
                            (g, Ok(tip2)) => (
                                g,
                                Ok(
                                    SetupView {
                                        name,
                                        tip1,
                                        tip2,
                                        goal,
                                        goalopts: if goal == "drop"@ {
                                            Some(GoalOptsView { base: Some(start) })
                                        } else {
                                            None
                                        },
                                        manual: args.manual,
                                        dedupe_patches: args.dedupe_patches,
                                        branch: Some(branch),
                                    },
                                ),
                            ),
                        },
                    },
                },
            },
        }
    }

    /// Merges the undoing of a range of commits into the current branch.
    #[verifier::opaque]
    pub open spec fn cmd_drop_or_revert(self, args: RangeArgsView, goal: Seq<char>) -> Told<()> {
        match self.range_setup(args, goal) {
            (g, Err(e)) => (g, Err(e)),
            (g, Ok(setup)) => g.launch_and_drive(setup, args.first_parent),
        }
    }

    /// The incremental merge that a drop or a revert records.
    pub open spec fn range_state(self, args: RangeArgsView, goal: Seq<char>) -> Told<
        MergeStateView,
    > {
        match self.range_setup(args, goal) {
            (g, Err(e)) => (g, Err(e)),
            (g, Ok(setup)) => match g.get_boundaries(setup.tip1, setup.tip2, args.first_parent) {
                (g, Err(e)) => (g, Err(hinted(e, args.first_parent))),
                (g, Ok(bounds)) => g.begin(setup, bounds),
            },
        }
    }
}

/// A drop or a revert saves the incremental merge that it records and goes on with
/// it.
pub proof fn law_range_state_is_recorded(g: Talk, args: RangeArgsView, goal: Seq<char>)
    ensures
        g.range_state(args, goal) matches (h, Ok(s)) ==> g.cmd_drop_or_revert(args, goal) == (
        match h.keep(s) {
            (k, Err(e)) => (k, Err(e)),
            (k, Ok(saved)) => k.drive(saved),
        }),
{
    reveal(Talk::cmd_drop_or_revert);
    reveal(Talk::launch);
}

/// A drop and a revert of the same range record the same incremental merge: the
/// same tips, the same grid and the same branch, after the same exchange. They
/// differ only in their goals, and in that the drop keeps a base for its result. So
/// does what is stored of them. Where the one fails before it records anything, so
/// does the other, in the same way.
pub proof fn law_drop_and_revert_record_the_same(g: Talk, args: RangeArgsView)
    ensures
        g.range_state(args, "drop"@).0 == g.range_state(args, "revert"@).0,
        match (g.range_state(args, "drop"@).1, g.range_state(args, "revert"@).1) {
            (Ok(dropped), Ok(reverted)) => {
                &&& dropped.goal == "drop"@
                &&& dropped.goalopts matches Some(o) && o.base is Some
                &&& reverted == (MergeStateView {
                    goal: "revert"@,
                    goalopts: None,
                    ..dropped
                })
                &&& forall|blockers: Seq<(usize, usize)>| #[trigger]
                    stored_state(reverted, blockers) == (StateDictView {
                        goal: "revert"@,
                        goalopts: None,
                        ..stored_state(dropped, blockers)
                    })
            },
            (Err(e1), Err(e2)) => e1 == e2,
            _ => false,
        },
{
    lemma_goals_differ();
}

/// The base that a drop keeps is where its range starts.
pub proof fn law_drop_keeps_the_start(g: Talk, args: RangeArgsView)
    ensures
        g.range_state(args, "drop"@).1 matches Ok(dropped) ==> ({
            let (h, clean) = g.require_clean_work_tree("proceed"@);
            &&& clean is Ok
            &&& h.parse_range(args.range).1 matches Ok((start, end)) && dropped.goalopts == Some(
                GoalOptsView { base: Some(start) },
            )
        }),
{
    lemma_goals_differ();
}

proof fn lemma_goals_differ()
    ensures
        "drop"@ != "revert"@,
        "drop"@ != "rebase"@,
        "revert"@ != "rebase"@,
{
    reveal_strlit("drop");
    reveal_strlit("revert");
    reveal_strlit("rebase");
    assert("drop"@[0] == 'd' && "revert"@[0] == 'r' && "rebase"@[0] == 'r');
    assert("revert"@[2] == 'v' && "rebase"@[2] == 'b');
}

fn init_imerge(git: &mut Git, args: &InitArgs) -> (r: Result<MergeState, ImergeError>)
    ensures
        (final(git)@, res(r)) == old(git)@.init_imerge(args.deep_view()),
        old(git)@.grows_to(final(git)@),
        r matches Ok(s) ==> s@.wf(),
{
    git.require_clean_work_tree("proceed")?;
    validate_goal(&args.goal)?;
    let name = match &args.name {
        Some(n) => n.clone(),
        None => {
            return failure("Please specify the --name to be used for this incremental merge");
        },
    };
    let tip1 = match git.get_head_refname(true)? {
        Some(h) => h,
        None => "HEAD".to_owned(),
    };
    let bounds = match git.get_boundaries(&tip1, &args.tip2, args.first_parent) {
        Ok(bounds) => bounds,
        Err(e) => {
            return Err(hint_first_parent(e, args.first_parent));
        },
    };
    let setup = Setup {
        name,
        tip1,
        tip2: args.tip2.clone(),
        goal: args.goal.clone(),
        goalopts: None,
        manual: args.manual,
        dedupe_patches: args.dedupe_patches,
        branch: copied_option(&args.branch),
    };
    launch(git, setup, bounds)
}

/// Initializes an incremental merge of a branch into the current one.
pub fn cmd_init(git: &mut Git, args: &InitArgs) -> (r: Result<(), ImergeError>)
    ensures
        (final(git)@, res(r)) == old(git)@.cmd_init(args.deep_view()),
        old(git)@.grows_to(final(git)@),
{
    proof {
        reveal(Talk::cmd_init);
    }
    init_imerge(git, args)?;
    Ok(())
}

/// Starts an incremental merge of a branch into the current one.
pub fn cmd_start(git: &mut Git, args: &InitArgs) -> (r: Result<(), ImergeError>)
    ensures
        (final(git)@, res(r)) == old(git)@.cmd_start(args.deep_view()),
        old(git)@.grows_to(final(git)@),
{
    proof {
        reveal(Talk::cmd_start);
    }
    let mut state = init_imerge(git, args)?;
    drive_to_completion_or_conflict(git, &mut state)
}

/// Starts a merge of a branch into the current one. Name and branch follow from
/// the branches unless they are given.
pub fn cmd_merge(git: &mut Git, args: &MergeArgs) -> (r: Result<(), ImergeError>)
    ensures
        (final(git)@, res(r)) == old(git)@.cmd_merge(args.deep_view()),
        old(git)@.grows_to(final(git)@),
{
    proof {
        reveal(Talk::cmd_merge);
    }
    git.require_clean_work_tree("proceed")?;
    validate_goal(&args.goal)?;
    let name = match &args.name {
        Some(n) => n.clone(),
        None => {
            git.check_imerge_name_format(&args.tip2)?;
            args.tip2.clone()
        },
    };
    let (tip1, branch) = match git.get_head_refname(true)? {
        Some(head) => {
            let branch = branch_for(git, &args.branch, &head)?;
            (head, branch)
        },
        None => ("HEAD".to_owned(), copied_option(&args.branch)),
    };
    let branch = match branch {
        Some(b) => Some(b),
        None => {
            if args.name.is_none() {
                return failure(
                    "HEAD is not a simple branch.  Please specify --branch for storing results.",
                );
            }
            copied_option(&args.name)
        },
    };
    let setup = Setup {
        name,
        tip1,
        tip2: args.tip2.clone(),
        goal: args.goal.clone(),
        goalopts: None,
        manual: args.manual,
        dedupe_patches: args.dedupe_patches,
        branch,
    };
    launch_and_drive(git, setup, args.first_parent)
}

/// Starts a rebase of the current branch.
pub fn cmd_rebase(git: &mut Git, args: &RebaseArgs) -> (r: Result<(), ImergeError>)
    ensures
        (final(git)@, res(r)) == old(git)@.cmd_rebase(args.deep_view()),
        old(git)@.grows_to(final(git)@),
{
    proof {
        reveal(Talk::cmd_rebase);
    }
    git.require_clean_work_tree("proceed")?;
    validate_goal(&args.goal)?;
    let (tip2, name, branch) = current_tip(git, &args.name, &args.branch)?;
    let setup = Setup {
        name,
        tip1: args.tip1.clone(),
        tip2,
        goal: args.goal.clone(),
        goalopts: None,
        manual: args.manual,
        dedupe_patches: args.dedupe_patches,
        branch: Some(branch),
    };
    launch_and_drive(git, setup, args.first_parent)
}

fn undo(git: &mut Git, end: &str, commits: &Vec<String>) -> (r: Result<String, ImergeError>)
    ensures
        (final(git)@, res(r)) == old(git)@.undo(end@, commits.deep_view()),
        old(git)@.grows_to(final(git)@),
{
    let ghost all = commits.deep_view();
    git.checkout(end, false)?;
    let ghost start = git@;
    let mut n: usize = commits.len();
    while n > 0
        invariant
            n <= commits.len(),
            all == commits.deep_view(),
            old(git)@.grows_to(git@),
            old(git)@.undo(end@, all) == match start.revert_all(all, all.len()) {
                (g, Err(e)) => (g, Err(e)),
                (g, Ok(_)) => g.rev_parse_required("HEAD"@),
            },
            start.revert_all(all, all.len()) == git@.revert_all(all, n as nat),
        decreases n,
    {
        n -= 1;
        assert(all[n as int] == commits[n as int]@);
        git.revert(&commits[n])?;
    }
    git.rev_parse_required("HEAD")
}

fn range_setup(git: &mut Git, args: &RangeArgs, goal: &str) -> (r: Result<Setup, ImergeError>)
    ensures
        (final(git)@, res(r)) == old(git)@.range_setup(args.deep_view(), goal@),
        old(git)@.grows_to(final(git)@),
{
    git.require_clean_work_tree("proceed")?;
    let (start, end) = parse_range(git, &args.range)?;
    let commits = match git.linear_ancestry(&start, &end, args.first_parent) {
        Ok(commits) => commits,
        Err(e) => {
            return Err(hint_first_parent(e, args.first_parent));
        },
    };
    let (tip1, name, branch) = current_tip(git, &args.name, &args.branch)?;
    let tip2 = undo(git, &end, &commits)?;
    let goalopts = if same(goal, "drop") {
        Some(GoalOpts { base: Some(start) })
    } else {
        None
    };
    Ok(
        Setup {
            name,
            tip1,
            tip2,
            goal: goal.to_owned(),
            goalopts,
            manual: args.manual,
            dedupe_patches: args.dedupe_patches,
            branch: Some(branch),
        },
    )
}

fn cmd_drop_or_revert(git: &mut Git, args: &RangeArgs, goal: &str) -> (r: Result<
    (),
    ImergeError,
>)
    ensures
        (final(git)@, res(r)) == old(git)@.cmd_drop_or_revert(args.deep_view(), goal@),
        old(git)@.grows_to(final(git)@),
{
    proof {
        reveal(Talk::cmd_drop_or_revert);
    }
    let setup = range_setup(git, args, goal)?;
    launch_and_drive(git, setup, args.first_parent)
}

/// Drops commits from the current branch.
pub fn cmd_drop(git: &mut Git, args: &RangeArgs) -> (r: Result<(), ImergeError>)
    ensures
        (final(git)@, res(r)) == old(git)@.cmd_drop_or_revert(args.deep_view(), "drop"@),
        old(git)@.grows_to(final(git)@),
{
    cmd_drop_or_revert(git, args, "drop")
}

/// Reverts commits on the current branch.
pub fn cmd_revert(git: &mut Git, args: &RangeArgs) -> (r: Result<(), ImergeError>)
    ensures
        (final(git)@, res(r)) == old(git)@.cmd_drop_or_revert(args.deep_view(), "revert"@),
        old(git)@.grows_to(final(git)@),
{
    cmd_drop_or_revert(git, args, "revert")
}

// ---------------------------------------------------------------------
// Going on
// ---------------------------------------------------------------------

impl Talk {
    /// See [`cmd_continue`].
    #[verifier::opaque]
    pub open spec fn cmd_continue(self, args: EditArgsView) -> Told<()> {
        match self.read_merge_state(args.name) {
            (g, Err(e)) => (g, Err(e)),
            (g, Ok(s)) => match g.incorporate_user_merge(s, args.edit_log_msg()) {
                (g, s, Ok(_)) => g.drive(s),
                (g, s, Err(ErrorView::NoManualMerge(_))) => g.drive(s),
                (g, s, Err(e)) => (g, Err(e)),
            },
        }
    }

    /// See [`cmd_record`].
    #[verifier::opaque]
    pub open spec fn cmd_record(self, args: EditArgsView) -> Told<()> {
        match self.read_merge_state(args.name) {
            (g, Err(e)) => (g, Err(e)),
            (g, Ok(s)) => match g.incorporate_user_merge(s, args.edit_log_msg()) {
                (g, s, Err(e)) => (g, Err(e)),
                (g, s, Ok(_)) => match g.complete_frontier(s, false) {
                    (g, s, Ok(_)) => (g.note("Merge is complete!"@), Ok(())),
                    (g, s, Err(ErrorView::FrontierBlocked { .. })) => (g, Ok(())),
                    (g, s, Err(e)) => (g, Err(e)),
                },
            },
        }
    }

    /// See [`cmd_autofill`].
    #[verifier::opaque]
    pub open spec fn cmd_autofill(self, args: NameArgsView) -> Told<()> {
        match self.require_clean_work_tree("proceed"@) {
            (g, Err(e)) => (g, Err(e)),
            (g, Ok(_)) => match g.read_merge_state(args.name) {
                (g, Err(e)) => (g, Err(e)),
                (g, Ok(s)) => match g.temporary_head("imerge: restoring"@) {
                    (g, Err(e)) => (g, Err(e)),
                    (g, Ok(head)) => match g.complete_frontier(s, false) {
                        (g, s, Err(ErrorView::Suspended)) => (g, Err(ErrorView::Suspended)),
                        (g, s, result) => match g.restore(head) {
                            (g, Err(ErrorView::Suspended)) => (g, Err(ErrorView::Suspended)),
                            (g, _) => (
                                g,
                                match result {
                                    Err(ErrorView::FrontierBlocked { msg, .. }) => Err(
                                        ErrorView::Failure(msg),
                                    ),
                                    _ => result,
                                },
                            ),
                        },
                    },
                },
            },
        }
    }

    /// The branch ref for the result of a simplification.
    pub open spec fn simplify_imerge(self, args: SimplifyArgsView) -> Told<MergeStateView> {
        match self.require_clean_work_tree("proceed"@) {
            (g, Err(e)) => (g, Err(e)),
            (g, Ok(_)) => match g.read_merge_state(args.name) {
                (g, Err(e)) => (g, Err(e)),
                (g, Ok(s)) => match is_finished(s) {
                    Err(e) => (g, Err(e)),
                    Ok(false) => (
                        g,
                        Err(
                            ErrorView::Failure(
                                "Merge "@ + s.grid.name + " is not yet complete!"@,
                            ),
                        ),
                    ),
                    Ok(true) => {
                        let refname = "refs/heads/"@ + match args.branch {
                            Some(b) => b,
                            None => s.branch,
                        };
                        match g.change_goal(s, args.goal) {
                            (g, s, Err(e)) => (g, Err(e)),
                            (g, s, Ok(_)) => match g.simplify(s, refname, args.force) {
                                (g, Err(e)) => (g, Err(e)),
                                (g, Ok(_)) => (g, Ok(s)),
                            },
                        }
                    },
                },
            },
        }
    }

    /// Changes what the incremental merge is for, if that is asked for, and saves
    /// it.
    #[verifier::opaque]
    pub open spec fn change_goal(self, s: MergeStateView, goal: Option<Seq<char>>) -> (
        Talk,
        MergeStateView,
        Result<(), ErrorView>,
    ) {
        match goal {
            None => (self, s, Ok(())),
            Some(goal) => match checked_goal(goal) {
                Err(e) => (self, s, Err(e)),
                Ok(_) => match self.set_goal(s, goal) {
                    (g, s, Err(e)) => (g, s, Err(e)),
                    (g, s, Ok(_)) => g.save_imerge(s),
                },
            },
        }
    }

    /// See [`cmd_simplify`].
    #[verifier::opaque]
    pub open spec fn cmd_simplify(self, args: SimplifyArgsView) -> Told<()> {
        match self.simplify_imerge(args) {
            (g, Err(e)) => (g, Err(e)),
            (g, Ok(_)) => (g, Ok(())),
        }
    }

    /// See [`cmd_finish`].
    #[verifier::opaque]
    pub open spec fn cmd_finish(self, args: SimplifyArgsView) -> Told<()> {
        match self.simplify_imerge(args) {
            (g, Err(e)) => (g, Err(e)),
            (g, Ok(s)) => g.remove_imerge(s.grid.name),
        }
    }

    /// See [`cmd_remove`].
    #[verifier::opaque]
    pub open spec fn cmd_remove(self, args: NameArgsView) -> Told<()> {
        match self.choose_merge_name(args.name) {
            (g, Err(e)) => (g, Err(e)),
            (g, Ok(name)) => g.remove_imerge(name),
        }
    }
}

/// Takes in the merge by the user, if there is one, and goes on.
pub fn cmd_continue(git: &mut Git, args: &EditArgs) -> (r: Result<(), ImergeError>)
    ensures
        (final(git)@, res(r)) == old(git)@.cmd_continue(args.deep_view()),
        old(git)@.grows_to(final(git)@),
{
    proof {
        reveal(Talk::cmd_continue);
    }
    let name = match &args.name {
        Some(n) => Some(n.as_str()),
        None => None,
    };
    let mut state = read_merge_state(git, name)?;
    match state.incorporate_user_merge(git, args.edit_log_msg()) {
        Ok(()) => {},
        Err(ImergeError::NoManualMerge(_)) => {},
        Err(e) => {
            return Err(e);
        },
    }
    drive_to_completion_or_conflict(git, &mut state)
}

/// Takes in the merge by the user, and the merges that follow from it without a
/// conflict.
pub fn cmd_record(git: &mut Git, args: &EditArgs) -> (r: Result<(), ImergeError>)
    ensures
        (final(git)@, res(r)) == old(git)@.cmd_record(args.deep_view()),
        old(git)@.grows_to(final(git)@),
{
    proof {
        reveal(Talk::cmd_record);
    }
    let name = match &args.name {
        Some(n) => Some(n.as_str()),
        None => None,
    };
    let mut state = read_merge_state(git, name)?;
    state.incorporate_user_merge(git, args.edit_log_msg())?;
    match state.auto_complete_frontier(git) {
        Ok(()) => {
            git.note("Merge is complete!");
            Ok(())
        },
        Err(ImergeError::FrontierBlocked { i1: _, i2: _, msg: _ }) => Ok(()),
        Err(e) => Err(e),
    }
}

/// Makes the merges that do not conflict, and checks out again what was checked
/// out before.
pub fn cmd_autofill(git: &mut Git, args: &NameArgs) -> (r: Result<(), ImergeError>)
    ensures
        (final(git)@, res(r)) == old(git)@.cmd_autofill(args.deep_view()),
        old(git)@.grows_to(final(git)@),
{
    proof {
        reveal(Talk::cmd_autofill);
    }
    git.require_clean_work_tree("proceed")?;
    let name = match &args.name {
        Some(n) => Some(n.as_str()),
        None => None,
    };
    let mut state = read_merge_state(git, name)?;
    let head = git.temporary_head("imerge: restoring")?;
    let result = state.auto_complete_frontier(git);
    if let Err(ImergeError::Suspended) = result {
        return Err(ImergeError::Suspended);
    }
    if let Err(ImergeError::Suspended) = head.restore(git) {
        return Err(ImergeError::Suspended);
    }
    match result {
        Err(ImergeError::FrontierBlocked { i1: _, i2: _, msg }) => Err(ImergeError::Failure(msg)),
        other => other,
    }
}

fn change_goal(git: &mut Git, state: &mut MergeState, goal: &Option<String>) -> (r: Result<
    (),
    ImergeError,
>)
    requires
        old(state)@.wf(),
    ensures
        (final(git)@, final(state)@, res(r)) == old(git)@.change_goal(
            old(state)@,
            goal.deep_view(),
        ),
        old(git)@.grows_to(final(git)@),
        final(state)@.wf(),
{
    proof {
        reveal(Talk::change_goal);
    }
    match goal {
        None => Ok(()),
        Some(goal) => {
            validate_goal(goal)?;
            state.set_goal(git, goal)?;
            state.save(git)
        },
    }
}

fn simplify_common(git: &mut Git, args: &SimplifyArgs) -> (r: Result<MergeState, ImergeError>)
    ensures
        (final(git)@, res(r)) == old(git)@.simplify_imerge(args.deep_view()),
        old(git)@.grows_to(final(git)@),
{
    git.require_clean_work_tree("proceed")?;
    let name = match &args.name {
        Some(n) => Some(n.as_str()),
        None => None,
    };
    let mut state = read_merge_state(git, name)?;
    let frontier = state.map_frontier()?;
    if !frontier.is_complete(&state.grid)? {
        return failure(&cat3("Merge ", &state.grid.name, " is not yet complete!"));
    }
    let branch = match &args.branch {
        Some(b) => b.clone(),
        None => state.branch.clone(),
    };
    let refname = cat2("refs/heads/", &branch);
    change_goal(git, &mut state, &args.goal)?;
    state.simplify(git, &refname, args.force)?;
    Ok(state)
}

/// Simplifies a completed incremental merge.
pub fn cmd_simplify(git: &mut Git, args: &SimplifyArgs) -> (r: Result<(), ImergeError>)
    ensures
        (final(git)@, res(r)) == old(git)@.cmd_simplify(args.deep_view()),
        old(git)@.grows_to(final(git)@),
{
    proof {
        reveal(Talk::cmd_simplify);
    }
    simplify_common(git, args)?;
    Ok(())
}

/// Simplifies a completed incremental merge and removes it.
pub fn cmd_finish(git: &mut Git, args: &SimplifyArgs) -> (r: Result<(), ImergeError>)
    ensures
        (final(git)@, res(r)) == old(git)@.cmd_finish(args.deep_view()),
        old(git)@.grows_to(final(git)@),
{
    proof {
        reveal(Talk::cmd_finish);
    }
    let state = simplify_common(git, args)?;
    MergeState::remove(git, &state.grid.name)
}

/// Removes an incremental merge.
pub fn cmd_remove(git: &mut Git, args: &NameArgs) -> (r: Result<(), ImergeError>)
    ensures
        (final(git)@, res(r)) == old(git)@.cmd_remove(args.deep_view()),
        old(git)@.grows_to(final(git)@),
{
    proof {
        reveal(Talk::cmd_remove);
    }
    let name = match &args.name {
        Some(n) => Some(n.as_str()),
        None => None,
    };
    let name = choose_merge_name(git, name)?;
    MergeState::remove(git, &name)
}

// ---------------------------------------------------------------------
// Looking
// ---------------------------------------------------------------------

impl Talk {
    /// Prints the names from place `k` on, with a star before the default.
    pub open spec fn print_names(
        self,
        names: Seq<Seq<char>>,
        default: Option<Seq<char>>,
        k: nat,
    ) -> Talk
        decreases names.len() - k,
    {
        if k >= names.len() {
            self
        } else {
            let name = names[k as int];
            self.print(
                if default == Some(name) {
                    "* "@ + name
                } else {
                    "  "@ + name
                },
            ).print_names(names, default, k + 1)
        }
    }

    /// See [`cmd_list`].
    #[verifier::opaque]
    pub open spec fn cmd_list(self) -> Told<()> {
        match self.iter_existing_imerge_names() {
            (g, Err(e)) => (g, Err(e)),
            (g, Ok(names)) => match g.get_default_imerge_name() {
                (g, Err(e)) => (g, Err(e)),
                (g, Ok(default)) => {
                    let d = if default is None && names.len() == 1 {
                        Some(names[0])
                    } else {
                        default
                    };
                    (g.print_names(names, d, 0), Ok(()))
                },
            },
        }
    }

    /// Writes the diagram of the merges, if it is wanted.
    pub open spec fn draw_commits(self, s: MergeStateView, wanted: bool, enabled: bool) -> Talk {
        if wanted {
            self.write(commits_text(s.grid, s.tip1, s.tip2, enabled) + "\n"@)
        } else {
            self
        }
    }

    /// Writes the diagram of the frontier, if it is wanted.
    pub open spec fn draw_frontier(self, s: MergeStateView, wanted: bool, enabled: bool) -> Told<
        (),
    > {
        if wanted {
            match frontier_of(s) {
                Err(e) => (self, Err(e)),
                Ok(f) => (
                    self.write(frontier_text(s.grid, f, s.tip1, s.tip2, enabled) + "\n"@),
                    Ok(()),
                ),
            }
        } else {
            (self, Ok(()))
        }
    }

    /// Writes an HTML diagram to a file, if one is wanted.
    pub open spec fn draw_html(self, s: MergeStateView, path: Option<Seq<char>>) -> Told<()> {
        match path {
            None => (self, Ok(())),
            Some(path) => match frontier_of(s) {
                Err(e) => (self, Err(e)),
                Ok(f) => match self.ask(
                    RequestView::WriteFile {
                        path,
                        contents: html_text(s.grid, f, s.grid.name, "imerge.css"@, 7),
                    },
                ) {
                    (g, Err(e)) => (g, Err(e)),
                    (g, Ok(ReplyView::Refused(e))) => (g, Err(ErrorView::Failure(e))),
                    (g, Ok(_)) => (g, Ok(())),
                },
            },
        }
    }

    /// See [`cmd_diagram`].
    #[verifier::opaque]
    pub open spec fn cmd_diagram(self, args: DiagramArgsView, terminal: bool) -> Told<()> {
        let frontier = args.frontier || !args.commits;
        let enabled = !args.no_color && (args.color || terminal);
        match self.read_merge_state(args.name) {
            (g, Err(e)) => (g, Err(e)),
            (g, Ok(s)) => match g.draw_commits(s, args.commits, enabled).draw_frontier(
                s,
                frontier,
                enabled,
            ) {
                (g, Err(e)) => (g, Err(e)),
                (g, Ok(_)) => match g.draw_html(s, args.html) {
                    (g, Err(e)) => (g, Err(e)),
                    (g, Ok(_)) => (
                        g.write(
                            if frontier {
                                "Key:\n"@ + FRONTIER_LEGEND_LINE@ + LEGEND@
                            } else {
                                "Key:\n"@ + LEGEND@
                            },
                        ),
                        Ok(()),
                    ),
                },
            },
        }
    }
}

/// Lists the incremental merges, with a star before the default.
pub fn cmd_list(git: &mut Git) -> (r: Result<(), ImergeError>)
    ensures
        (final(git)@, res(r)) == old(git)@.cmd_list(),
        old(git)@.grows_to(final(git)@),
{
    proof {
        reveal(Talk::cmd_list);
    }
    let names = git.iter_existing_imerge_names()?;
    let ghost all = names.deep_view();
    let mut default = git.get_default_imerge_name()?;
    if default.is_none() && names.len() == 1 {
        assert(all[0] == names@[0]@);
        default = Some(names[0].clone());
    }
    let ghost start = git@;
    let ghost d = default.deep_view();
    let mut k: usize = 0;
    while k < names.len()
        invariant
            k <= names.len(),
            all == names.deep_view(),
            d == default.deep_view(),
            old(git)@.grows_to(git@),
            start.print_names(all, d, 0) == git@.print_names(all, d, k as nat),
        decreases names.len() - k,
    {
        assert(all[k as int] == names[k as int]@);
        let is_default = match &default {
            Some(n) => same(n, &names[k]),
            None => false,
        };
        if is_default {
            git.print(&cat2("* ", &names[k]));
        } else {
            git.print(&cat2("  ", &names[k]));
        }
        k += 1;
    }
    Ok(())
}

fn draw_html(git: &mut Git, state: &MergeState, path: &Option<String>) -> (r: Result<
    (),
    ImergeError,
>)
    requires
        state@.wf(),
    ensures
        (final(git)@, res(r)) == old(git)@.draw_html(state@, path.deep_view()),
        old(git)@.grows_to(final(git)@),
{
    match path {
        None => Ok(()),
        Some(path) => {
            let frontier = state.map_frontier()?;
            let mut contents = "".to_owned();
            write_html(
                &mut contents,
                &state.grid,
                &frontier,
                &state.grid.name,
                "imerge.css",
                7,
            );
            proof {
                reveal_strlit("");
                let text = html_text(state@.grid, frontier@, state@.grid.name, "imerge.css"@, 7);
                assert(contents@ =~= text);
            }
            match git.ask(Request::WriteFile { path: path.clone(), contents })? {
                Reply::Refused(e) => Err(ImergeError::Failure(e)),
                _ => Ok(()),
            }
        },
    }
}

/// Draws an incremental merge. Colors are used as asked for, or else if the output
/// goes to a terminal.
pub fn cmd_diagram(git: &mut Git, args: &DiagramArgs, terminal: bool) -> (r: Result<
    (),
    ImergeError,
>)
    ensures
        (final(git)@, res(r)) == old(git)@.cmd_diagram(args.deep_view(), terminal),
        old(git)@.grows_to(final(git)@),
{
    proof {
        reveal(Talk::cmd_diagram);
    }
    let show_frontier = args.frontier || !args.commits;
    let color = !args.no_color && (args.color || terminal);
    let name = match &args.name {
        Some(n) => Some(n.as_str()),
        None => None,
    };
    let state = read_merge_state(git, name)?;
    proof {
        reveal_strlit("");
    }
    if args.commits {
        let mut out = "".to_owned();
        write_commits_diagram(&mut out, &state.grid, &state.tip1, &state.tip2, color);
        assert(out@ =~= commits_text(state@.grid, state@.tip1, state@.tip2, color));
        git.write(&cat2(&out, "\n"));
    }
    if show_frontier {
        let frontier = state.map_frontier()?;
        let mut out = "".to_owned();
        write_frontier_diagram(
            &mut out,
            &state.grid,
            &frontier,
            &state.tip1,
            &state.tip2,
            color,
        );
        assert(out@ =~= frontier_text(state@.grid, frontier@, state@.tip1, state@.tip2, color));
        git.write(&cat2(&out, "\n"));
    }
    draw_html(git, &state, &args.html)?;
    if show_frontier {
        git.write(&cat3("Key:\n", FRONTIER_LEGEND_LINE, LEGEND));
    } else {
        git.write(&cat2("Key:\n", LEGEND));
    }
    Ok(())
}

// ---------------------------------------------------------------------
// Reparenting
// ---------------------------------------------------------------------

/// What takes the place of a commit.
pub open spec fn replaced(replacements: Seq<(Seq<char>, Seq<char>)>, commit: Seq<char>) -> Seq<
    char,
> {
    match latest(replacements, commit) {
        Some(r) => r,
        None => commit,
    }
}

/// What takes the place of each parent.
pub open spec fn all_replaced(
    replacements: Seq<(Seq<char>, Seq<char>)>,
    parents: Seq<Seq<char>>,
) -> Seq<Seq<char>> {
    Seq::new(parents.len(), |k: int| replaced(replacements, parents[k]))
}

impl Talk {
    /// Makes new versions of the commits from place `k` on, each with the new
    /// versions of its parents.
    pub open spec fn reparent_all(
        self,
        commits: Seq<(Seq<char>, Seq<Seq<char>>)>,
        k: nat,
        replacements: Seq<(Seq<char>, Seq<char>)>,
    ) -> Told<Seq<(Seq<char>, Seq<char>)>>
        decreases commits.len() - k,
    {
        if k >= commits.len() {
            (self, Ok(replacements))
        } else {
            let (commit, parents) = commits[k as int];
            match self.reparent(commit, all_replaced(replacements, parents), None) {
                (g, Err(e)) => (g, Err(e)),
                (g, Ok(sha1)) => g.reparent_all(
                    commits,
                    k + 1,
                    replacements.push((commit, sha1)),
                ),
            }
        }
    }

    /// Gives `start` other parents, and makes new versions of all that comes after
    /// it up to `end`. The result is the new version of `end`.
    pub open spec fn reparent_recursively(
        self,
        start: Seq<char>,
        parents: Seq<Seq<char>>,
        end: Seq<char>,
    ) -> Told<Seq<char>> {
        match self.reparent(start, parents, None) {
            (g, Err(e)) => (g, Err(e)),
            (g, Ok(first)) => match g.rev_list_with_parents(
                seq!["--ancestry-path"@, "--topo-order"@, "--reverse"@, start + ".."@ + end],
            ) {
                (g, Err(e)) => (g, Err(e)),
                (g, Ok(commits)) => match g.reparent_all(commits, 0, seq![(start, first)]) {
                    (g, Err(e)) => (g, Err(e)),
                    (g, Ok(replacements)) => (
                        g,
                        match latest(replacements, end) {
                            Some(sha1) => Ok(sha1),
                            None => Err(
                                ErrorView::Failure(start + " is not an ancestor of "@ + end),
                            ),
                        },
                    ),
                },
            },
        }
    }

    /// The commits that the names from place `k` on stand for, after `found`.
    pub open spec fn commits_named(
        self,
        names: Seq<Seq<char>>,
        k: nat,
        found: Seq<Seq<char>>,
    ) -> Told<Seq<Seq<char>>>
        decreases names.len() - k,
    {
        if k >= names.len() {
            (self, Ok(found))
        } else {
            match self.get_commit_sha1(names[k as int]) {
                (g, Err(e)) => (g, Err(e)),
                (g, Ok(sha1)) => g.commits_named(names, k + 1, found.push(sha1)),
            }
        }
    }

    /// See [`cmd_reparent`].
    #[verifier::opaque]
    pub open spec fn cmd_reparent(self, args: ReparentArgsView) -> Told<()> {
        match self.get_commit_sha1(args.commit) {
            (g, Err(e)) => (g, Err(e)),
            (g, Ok(start)) => match g.get_commit_sha1("HEAD"@) {
                (g, Err(e)) => (g, Err(e)),
                (g, Ok(head)) => match g.commits_named(args.parents, 0, Seq::empty()) {
                    (g, Err(e)) => (g, Err(e)),
                    (g, Ok(parents)) => match g.reparent_recursively(start, parents, head) {
                        (g, Err(e)) => (g, Err(e)),
                        (g, Ok(new_head)) => (g.print(new_head), Ok(())),
                    },
                },
            },
        }
    }
}

/// What takes the place of a commit.
fn replacement(replacements: &Vec<(String, String)>, commit: &str) -> (r: String)
    ensures
        r@ == replaced(replacements.deep_view(), commit@),
{
    match latest_place(replacements, commit) {
        Some(i) => replacements[i].1.clone(),
        None => commit.to_owned(),
    }
}

fn reparent_all(
    git: &mut Git,
    commits: &Vec<(String, Vec<String>)>,
    start: &str,
    first: String,
) -> (r: Result<Vec<(String, String)>, ImergeError>)
    ensures
        (final(git)@, res(r)) == old(git)@.reparent_all(
            commits.deep_view(),
            0,
            seq![(start@, first@)],
        ),
        old(git)@.grows_to(final(git)@),
{
    let ghost all = commits.deep_view();
    let mut replacements: Vec<(String, String)> = Vec::new();
    replacements.push((start.to_owned(), first));
    assert(replacements.deep_view() =~= seq![(start@, first@)]);
    let mut k: usize = 0;
    while k < commits.len()
        invariant
            k <= commits.len(),
            all == commits.deep_view(),
            old(git)@.grows_to(git@),
            old(git)@.reparent_all(all, 0, seq![(start@, first@)]) == git@.reparent_all(
                all,
                k as nat,
                replacements.deep_view(),
            ),
        decreases commits.len() - k,
    {
        let (commit, parents) = &commits[k];
        let ghost known = replacements.deep_view();
        let ghost wanted = parents.deep_view();
        assert(all[k as int] == commits[k as int].deep_view());
        let mut new_parents: Vec<String> = Vec::new();
        let mut i: usize = 0;
        while i < parents.len()
            invariant
                i <= parents.len(),
                known == replacements.deep_view(),
                wanted == parents.deep_view(),
                new_parents.len() == i,
                forall|m: int|
                    0 <= m < i ==> (#[trigger] new_parents[m])@ == replaced(known, wanted[m]),
            decreases parents.len() - i,
        {
            assert(wanted[i as int] == parents[i as int]@);
            new_parents.push(replacement(&replacements, &parents[i]));
            i += 1;
        }
        assert(new_parents.deep_view() =~= all_replaced(known, wanted));
        let sha1 = git.reparent(commit, &new_parents, None)?;
        replacements.push((commit.clone(), sha1));
        assert(replacements.deep_view() =~= known.push((commit@, sha1@)));
        k += 1;
    }
    Ok(replacements)
}

/// Gives `start_commit` other parents, and makes new versions of all that comes
/// after it up to `end_commit`.
fn reparent_recursively(
    git: &mut Git,
    start_commit: &str,
    parents: &Vec<String>,
    end_commit: &str,
) -> (r: Result<String, ImergeError>)
    ensures
        (final(git)@, res(r)) == old(git)@.reparent_recursively(
            start_commit@,
            parents.deep_view(),
            end_commit@,
        ),
        old(git)@.grows_to(final(git)@),
{
    let first = git.reparent(start_commit, parents, None)?;
    let range = cat3(start_commit, "..", end_commit);
    let commits = git.rev_list_with_parents(
        list4("--ancestry-path", "--topo-order", "--reverse", &range),
    )?;
    let replacements = reparent_all(git, &commits, start_commit, first)?;
    match latest_place(&replacements, end_commit) {
        Some(i) => Ok(replacements[i].1.clone()),
        None => failure(&cat3(start_commit, " is not an ancestor of ", end_commit)),
    }
}

/// Gives a commit other parents, makes new versions of all that comes after it up
/// to the current commit, and prints the new version of that.
pub fn cmd_reparent(git: &mut Git, args: &ReparentArgs) -> (r: Result<(), ImergeError>)
    ensures
        (final(git)@, res(r)) == old(git)@.cmd_reparent(args.deep_view()),
        old(git)@.grows_to(final(git)@),
{
    proof {
        reveal(Talk::cmd_reparent);
    }
    let ghost names = args.parents.deep_view();
    let start = git.get_commit_sha1(&args.commit)?;
    let head = git.get_commit_sha1("HEAD")?;
    let ghost begun = git@;
    let mut parents: Vec<String> = Vec::new();
    assert(parents.deep_view() =~= Seq::empty());
    let mut k: usize = 0;
    while k < args.parents.len()
        invariant
            k <= args.parents.len(),
            names == args.parents.deep_view(),
            old(git)@.grows_to(git@),
            old(git)@.cmd_reparent(args.deep_view()) == match begun.commits_named(
                names,
                0,
                Seq::empty(),
            ) {
                (g, Err(e)) => (g, Err(e)),
                (g, Ok(parents)) => match g.reparent_recursively(start@, parents, head@) {
                    (g, Err(e)) => (g, Err(e)),
                    (g, Ok(new_head)) => (g.print(new_head), Ok(())),
                },
            },
            begun.commits_named(names, 0, Seq::empty()) == git@.commits_named(
                names,
                k as nat,
                parents.deep_view(),
            ),
        decreases args.parents.len() - k,
    {
        let ghost before = parents.deep_view();
        assert(names[k as int] == args.parents[k as int]@);
        let sha1 = git.get_commit_sha1(&args.parents[k])?;
        parents.push(sha1);
        assert(parents.deep_view() =~= before.push(sha1@));
        k += 1;
    }
    let new_head = reparent_recursively(git, &start, &parents, &head)?;
    git.print(&new_head);
    Ok(())
}

// ---------------------------------------------------------------------
// All commands
// ---------------------------------------------------------------------

impl Talk {
    /// See [`run`].
    pub open spec fn run_command(self, command: CommandView, terminal: bool) -> Told<()> {
        match command {
            CommandView::Init(args) => self.cmd_init(args),
            CommandView::Start(args) => self.cmd_start(args),
            CommandView::Merge(args) => self.cmd_merge(args),
            CommandView::Rebase(args) => self.cmd_rebase(args),
            CommandView::Drop(args) => self.cmd_drop_or_revert(args, "drop"@),
            CommandView::Revert(args) => self.cmd_drop_or_revert(args, "revert"@),
            CommandView::Continue(args) => self.cmd_continue(args),
            CommandView::Record(args) => self.cmd_record(args),
            CommandView::Autofill(args) => self.cmd_autofill(args),
            CommandView::Simplify(args) => self.cmd_simplify(args),
            CommandView::Finish(args) => self.cmd_finish(args),
            CommandView::Diagram(args) => self.cmd_diagram(args, terminal),
            CommandView::List => self.cmd_list(),
            CommandView::Remove(args) => self.cmd_remove(args),
            CommandView::Reparent(args) => self.cmd_reparent(args),
        }
    }
}

/// Runs a command as far as the replies go. `terminal` says whether standard
/// output is a terminal.
pub fn run(git: &mut Git, command: &Command, terminal: bool) -> (r: Result<(), ImergeError>)
    ensures
        (final(git)@, res(r)) == old(git)@.run_command(command.deep_view(), terminal),
        old(git)@.grows_to(final(git)@),
{
    match command {
        Command::Init(args) => cmd_init(git, args),
        Command::Start(args) => cmd_start(git, args),
        Command::Merge(args) => cmd_merge(git, args),
        Command::Rebase(args) => cmd_rebase(git, args),
        Command::Drop(args) => cmd_drop(git, args),
        Command::Revert(args) => cmd_revert(git, args),
        Command::Continue(args) => cmd_continue(git, args),
        Command::Record(args) => cmd_record(git, args),
        Command::Autofill(args) => cmd_autofill(git, args),
        Command::Simplify(args) => cmd_simplify(git, args),
        Command::Finish(args) => cmd_finish(git, args),
        Command::Diagram(args) => cmd_diagram(git, args, terminal),
        Command::List => cmd_list(git),
        Command::Remove(args) => cmd_remove(git, args),
        Command::Reparent(args) => cmd_reparent(git, args),
    }
}

} // verus!
