//! Turning a finished incremental merge into the history that it is for.
use vstd::prelude::*;

use crate::block::{Grid, GridView, Rect};
use crate::error::{failure, res, ErrorView, ImergeError};
use crate::fill::{commit_of, coordinates, shown};
use crate::git::Git;
use crate::imerge::{full_window, MergeState, MergeStateView};
use crate::known::edges_known;
use crate::strategy::first_unknown;
use crate::talk::{lemma_grows, lemma_learns_nothing, Talk, Told};
use crate::text::{
    cat3, cat4, cat5, debug_form, drop_line_feeds, list1, list2, quoted, same, without_line_feeds,
};

verus! {

broadcast use lemma_grows, lemma_learns_nothing;

// ---------------------------------------------------------------------
// Setting the resulting branch
// ---------------------------------------------------------------------

impl Talk {
    /// Points `refname` to `commit` and checks it out.
    pub open spec fn move_ref(self, refname: Seq<char>, commit: Seq<char>) -> Told<()> {
        match self.update_ref(refname, commit, "imerge: recording final merge"@, true) {
            (g, Err(e)) => (g, Err(e)),
            (g, Ok(_)) => g.checkout(refname, true),
        }
    }

    /// See [`MergeState::set_refname`].
    #[verifier::opaque]
    pub open spec fn set_refname(self, refname: Seq<char>, commit: Seq<char>, force: bool) -> Told<
        (),
    > {
        match self.get_commit_sha1(refname) {
            (g, Err(ErrorView::Suspended)) => (g, Err(ErrorView::Suspended)),
            (g, Err(_)) => g.move_ref(refname, commit),
            (g, Ok(present)) => match g.get_head_refname(false) {
                (g, Err(e)) => (g, Err(e)),
                (g, Ok(head)) => {
                    let (g, allowed) = if force {
                        (g, Ok(true))
                    } else {
                        g.is_ancestor(present, commit)
                    };
                    match allowed {
                        Err(e) => (g, Err(e)),
                        Ok(false) => (
                            g,
                            Err(
                                ErrorView::Failure(
                                    refname + " cannot be fast-forwarded to "@ + commit + "!"@,
                                ),
                            ),
                        ),
                        Ok(true) => if head == Some(refname) {
                            g.reset_hard(Some(commit))
                        } else {
                            g.move_ref(refname, commit)
                        },
                    }
                },
            },
        }
    }
}

/// Points `refname` to `commit` and checks it out.
fn move_ref(git: &mut Git, refname: &str, commit: &str) -> (r: Result<(), ImergeError>)
    ensures
        (final(git)@, res(r)) == old(git)@.move_ref(refname@, commit@),
        old(git)@.grows_to(final(git)@),
{
    git.update_ref(refname, commit, "imerge: recording final merge", true)?;
    git.checkout(refname, true)
}

// ---------------------------------------------------------------------
// Replaying commits
// ---------------------------------------------------------------------

/// The log message for a commit that is made from `orig`.
pub open spec fn rebased_message(logmsg: Seq<char>, orig: Seq<char>, with_history: bool) -> Seq<
    char,
> {
    without_line_feeds(logmsg) + (if with_history {
        "\n\n(rebased-with-history from commit "@
    } else {
        "\n\n(rebased from commit "@
    }) + orig + ")\n"@
}

/// The first place from column `i2` on in the last row that is not known.
pub open spec fn missing_in_row(grid: GridView, i2: int) -> Option<usize>
    decreases grid.len2 - i2,
{
    if i2 >= grid.len2 {
        None
    } else if !grid.known(grid.len1 - 1, i2) {
        Some(i2 as usize)
    } else {
        missing_in_row(grid, i2 + 1)
    }
}

/// The first place from row `i1` on in the last column that is not known.
pub open spec fn missing_in_column(grid: GridView, i1: int) -> Option<usize>
    decreases grid.len1 - i1,
{
    if i1 >= grid.len1 {
        None
    } else if !grid.known(i1, grid.len2 - 1) {
        Some(i1 as usize)
    } else {
        missing_in_column(grid, i1 + 1)
    }
}

/// The error for a merge that is missing.
pub open spec fn unfinished(goal: Seq<char>, i1: int, i2: int) -> ErrorView {
    ErrorView::Failure(
        "Cannot simplify to "@ + goal + " because merge "@ + coordinates(i1, i2)
            + " is not yet done"@,
    )
}

fn not_yet_done<T>(goal: &str, i1: usize, i2: usize) -> (r: Result<T, ImergeError>)
    ensures
        r matches Err(e) && e.deep_view() == unfinished(goal@, i1 as int, i2 as int),
{
    failure(
        &cat5(
            "Cannot simplify to ",
            goal,
            " because merge ",
            &shown(i1, i2),
            " is not yet done",
        ),
    )
}

impl Talk {
    /// A commit with the tree of `cell`, and with message and author of `orig`.
    #[verifier::opaque]
    pub open spec fn replayed(
        self,
        cell: Seq<char>,
        orig: Seq<char>,
        parents: Seq<Seq<char>>,
        with_history: bool,
    ) -> Told<Seq<char>> {
        match self.get_tree(cell) {
            (g, Err(e)) => (g, Err(e)),
            (g, Ok(tree)) => match g.get_log_message(orig) {
                (g, Err(e)) => (g, Err(e)),
                (g, Ok(logmsg)) => match g.get_author_info(orig) {
                    (g, Err(e)) => (g, Err(e)),
                    (g, Ok(author)) => g.commit_tree(
                        tree,
                        parents,
                        rebased_message(logmsg, orig, with_history),
                        Some(author),
                    ),
                },
            },
        }
    }

    /// Replays the commits of the second branch from place `i2` up to `end` on
    /// `commit`, with the trees of the last row. With history, each new commit
    /// has the original one as its second parent.
    pub open spec fn replay_row(
        self,
        grid: GridView,
        i2: int,
        end: int,
        commit: Seq<char>,
        with_history: bool,
    ) -> Told<Seq<char>>
        decreases end - i2,
    {
        if i2 >= end {
            (self, Ok(commit))
        } else {
            let orig = grid.commit(0, i2);
            match self.replayed(
                grid.commit(grid.len1 - 1, i2),
                orig,
                if with_history {
                    seq![commit, orig]
                } else {
                    seq![commit]
                },
                with_history,
            ) {
                (g, Err(e)) => (g, Err(e)),
                (g, Ok(next)) => g.replay_row(grid, i2 + 1, end, next, with_history),
            }
        }
    }

    /// Replays the commits of the first branch from place `i1` up to `end` on
    /// `commit`, with the trees of the last column. With history, each new commit
    /// has the original one as its first parent.
    pub open spec fn replay_column(
        self,
        grid: GridView,
        i1: int,
        end: int,
        commit: Seq<char>,
        with_history: bool,
    ) -> Told<Seq<char>>
        decreases end - i1,
    {
        if i1 >= end {
            (self, Ok(commit))
        } else {
            let orig = grid.commit(i1, 0);
            match self.replayed(
                grid.commit(i1, grid.len2 - 1),
                orig,
                if with_history {
                    seq![orig, commit]
                } else {
                    seq![commit]
                },
                with_history,
            ) {
                (g, Err(e)) => (g, Err(e)),
                (g, Ok(next)) => g.replay_column(grid, i1 + 1, end, next, with_history),
            }
        }
    }
}

fn replayed(git: &mut Git, cell: &str, orig: &str, parents: &Vec<String>, with_history: bool) -> (r:
    Result<String, ImergeError>)
    ensures
        (final(git)@, res(r)) == old(git)@.replayed(
            cell@,
            orig@,
            parents.deep_view(),
            with_history,
        ),
        old(git)@.grows_to(final(git)@),
{
    proof {
        reveal(Talk::replayed);
    }
    let tree = git.get_tree(cell)?;
    let logmsg = git.get_log_message(orig)?;
    let author = git.get_author_info(orig)?;
    let note = if with_history {
        "\n\n(rebased-with-history from commit "
    } else {
        "\n\n(rebased from commit "
    };
    let msg = cat4(&drop_line_feeds(&logmsg), note, orig, ")\n");
    git.commit_tree(&tree, parents, &msg, Some(author))
}

fn missing_row(grid: &Grid) -> (r: Option<usize>)
    requires
        grid@.wf(),
        grid@.len1 >= 1,
    ensures
        r == missing_in_row(grid@, 1),
        r is None ==> forall|k: int| 1 <= k < grid@.len2 ==> #[trigger] grid@.known(
            grid@.len1 - 1,
            k,
        ),
{
    let mut i2: usize = 1;
    while i2 < grid.len2
        invariant
            grid@.wf(),
            grid@.len1 >= 1,
            1 <= i2,
            missing_in_row(grid@, 1) == missing_in_row(grid@, i2 as int),
            forall|k: int| 1 <= k < i2 ==> #[trigger] grid@.known(grid@.len1 - 1, k),
        decreases grid.len2 - i2,
    {
        if !grid.is_known(grid.len1 - 1, i2) {
            return Some(i2);
        }
        i2 += 1;
    }
    None
}

fn missing_column(grid: &Grid) -> (r: Option<usize>)
    requires
        grid@.wf(),
        grid@.len2 >= 1,
    ensures
        r == missing_in_column(grid@, 1),
        r is None ==> forall|k: int| 1 <= k < grid@.len1 ==> #[trigger] grid@.known(
            k,
            grid@.len2 - 1,
        ),
{
    let mut i1: usize = 1;
    while i1 < grid.len1
        invariant
            grid@.wf(),
            grid@.len2 >= 1,
            1 <= i1,
            missing_in_column(grid@, 1) == missing_in_column(grid@, i1 as int),
            forall|k: int| 1 <= k < i1 ==> #[trigger] grid@.known(k, grid@.len2 - 1),
        decreases grid.len1 - i1,
    {
        if !grid.is_known(i1, grid.len2 - 1) {
            return Some(i1);
        }
        i1 += 1;
    }
    None
}

fn replay_row(git: &mut Git, grid: &Grid, end: usize, start: String, with_history: bool) -> (r:
    Result<String, ImergeError>)
    requires
        grid@.wf(),
        grid@.len1 >= 1,
        end <= grid@.len2,
        edges_known(grid@, full_window(grid@)),
        forall|k: int| 1 <= k < end ==> #[trigger] grid@.known(grid@.len1 - 1, k),
    ensures
        (final(git)@, res(r)) == old(git)@.replay_row(
            grid@,
            1,
            end as int,
            start@,
            with_history,
        ),
        old(git)@.grows_to(final(git)@),
{
    let mut commit = start;
    let mut i2: usize = 1;
    while i2 < end
        invariant
            grid@.wf(),
            grid@.len1 >= 1,
            1 <= i2,
            end <= grid@.len2,
            edges_known(grid@, full_window(grid@)),
            forall|k: int| 1 <= k < end ==> #[trigger] grid@.known(grid@.len1 - 1, k),
            old(git)@.replay_row(grid@, 1, end as int, start@, with_history) == git@.replay_row(
                grid@,
                i2 as int,
                end as int,
                commit@,
                with_history,
            ),
            old(git)@.grows_to(git@),
        decreases end - i2,
    {
        let ghost full = full_window(grid@);
        assert(grid@.known(full.origin1 as int, full.origin2 + i2));
        assert(grid@.known(grid@.len1 - 1, i2 as int));
        let orig = commit_of(grid, 0, i2);
        let cell = commit_of(grid, grid.len1 - 1, i2);
        let parents = if with_history {
            list2(&commit, &orig)
        } else {
            list1(&commit)
        };
        commit = replayed(git, &cell, &orig, &parents, with_history)?;
        i2 += 1;
    }
    Ok(commit)
}

fn replay_column(git: &mut Git, grid: &Grid, end: usize, start: String, with_history: bool) -> (r:
    Result<String, ImergeError>)
    requires
        grid@.wf(),
        grid@.len2 >= 1,
        end <= grid@.len1,
        edges_known(grid@, full_window(grid@)),
        forall|k: int| 1 <= k < end ==> #[trigger] grid@.known(k, grid@.len2 - 1),
    ensures
        (final(git)@, res(r)) == old(git)@.replay_column(
            grid@,
            1,
            end as int,
            start@,
            with_history,
        ),
        old(git)@.grows_to(final(git)@),
{
    let mut commit = start;
    let mut i1: usize = 1;
    while i1 < end
        invariant
            grid@.wf(),
            grid@.len2 >= 1,
            1 <= i1,
            end <= grid@.len1,
            edges_known(grid@, full_window(grid@)),
            forall|k: int| 1 <= k < end ==> #[trigger] grid@.known(k, grid@.len2 - 1),
            old(git)@.replay_column(grid@, 1, end as int, start@, with_history)
                == git@.replay_column(grid@, i1 as int, end as int, commit@, with_history),
            old(git)@.grows_to(git@),
        decreases end - i1,
    {
        let ghost full = full_window(grid@);
        assert(grid@.known(full.origin1 + i1, full.origin2 as int));
        assert(grid@.known(i1 as int, grid@.len2 - 1));
        let orig = commit_of(grid, i1, 0);
        let cell = commit_of(grid, i1, grid.len2 - 1);
        let parents = if with_history {
            list2(&orig, &commit)
        } else {
            list1(&commit)
        };
        commit = replayed(git, &cell, &orig, &parents, with_history)?;
        i1 += 1;
    }
    Ok(commit)
}

// ---------------------------------------------------------------------
// Paths through the grid
// ---------------------------------------------------------------------

/// A commit by its name, or the merge result of a cell, which may not be known
/// yet.
pub enum PathRef {
    Sha1(String),
    Cell(usize, usize),
}

/// The content of a [`PathRef`].
pub enum PathRefView {
    Sha1(Seq<char>),
    Cell(usize, usize),
}

impl DeepView for PathRef {
    type V = PathRefView;

    open spec fn deep_view(&self) -> PathRefView {
        match self {
            PathRef::Sha1(s) => PathRefView::Sha1(s@),
            PathRef::Cell(i1, i2) => PathRefView::Cell(*i1, *i2),
        }
    }
}

impl PathRefView {
    /// A cell that is meant has to be one of the grid.
    pub open spec fn within(self, grid: GridView) -> bool {
        self matches PathRefView::Cell(i1, i2) ==> grid.has(i1 as int, i2 as int)
    }

    /// The commit that is meant.
    pub open spec fn resolved(self, grid: GridView) -> Result<Seq<char>, ErrorView> {
        match self {
            PathRefView::Sha1(s) => Ok(s),
            PathRefView::Cell(i1, i2) => match grid.cell(i1 as int, i2 as int).sha1 {
                Some(s) => Ok(s),
                None => Err(ErrorView::MissingMerge { i1, i2 }),
            },
        }
    }
}

impl PathRef {
    fn to_sha1(&self, grid: &Grid) -> (r: Result<String, ImergeError>)
        requires
            grid@.wf(),
            self.deep_view().within(grid@),
        ensures
            res(r) == self.deep_view().resolved(grid@),
    {
        match self {
            PathRef::Sha1(s) => Ok(s.clone()),
            PathRef::Cell(i1, i2) => match &grid.get(*i1, *i2).sha1 {
                Some(s) => Ok(s.clone()),
                None => Err(ImergeError::MissingMerge { i1: *i1, i2: *i2 }),
            },
        }
    }
}

/// The commits that a path means, from place `k` on, after `found`.
pub open spec fn resolved_path(
    grid: GridView,
    path: Seq<(PathRefView, PathRefView)>,
    k: nat,
    found: Seq<(Seq<char>, Seq<char>)>,
) -> Result<Seq<(Seq<char>, Seq<char>)>, ErrorView>
    decreases path.len() - k,
{
    if k >= path.len() {
        Ok(found)
    } else {
        match (path[k as int].0.resolved(grid), path[k as int].1.resolved(grid)) {
            (Err(e), _) => Err(e),
            (_, Err(e)) => Err(e),
            (Ok(commit), Ok(metadata)) => resolved_path(
                grid,
                path,
                k + 1,
                found.push((commit, metadata)),
            ),
        }
    }
}

/// A path along the last row: the trees of its cells with the messages of the
/// second branch.
pub open spec fn row_path(grid: GridView) -> Seq<(PathRefView, PathRefView)> {
    Seq::new(
        (grid.len2 - 1) as nat,
        |k: int|
            (
                PathRefView::Cell((grid.len1 - 1) as usize, (k + 1) as usize),
                PathRefView::Cell(0, (k + 1) as usize),
            ),
    )
}

/// A path along the last column: the trees of its cells with the messages of the
/// first branch.
pub open spec fn column_path(grid: GridView) -> Seq<(PathRefView, PathRefView)> {
    Seq::new(
        (grid.len1 - 1) as nat,
        |k: int|
            (
                PathRefView::Cell((k + 1) as usize, (grid.len2 - 1) as usize),
                PathRefView::Cell((k + 1) as usize, 0),
            ),
    )
}

/// A missing merge, as the user sees it.
pub open spec fn explained(told: Told<()>, goal: Seq<char>) -> Told<()> {
    match told {
        (g, Err(ErrorView::MissingMerge { i1, i2 })) => (
            g,
            Err(unfinished(goal, i1 as int, i2 as int)),
        ),
        _ => told,
    }
}

fn explain(r: Result<(), ImergeError>, goal: &str) -> (s: Result<(), ImergeError>)
    ensures
        forall|g: Talk| (g, res(s)) == #[trigger] explained((g, res(r)), goal@),
{
    match r {
        Err(ImergeError::MissingMerge { i1, i2 }) => not_yet_done(goal, i1, i2),
        r => r,
    }
}

// ---------------------------------------------------------------------
// The goals
// ---------------------------------------------------------------------

impl Talk {
    /// The last merge result itself, if all are there.
    pub open spec fn simplify_to_full(self, s: MergeStateView, refname: Seq<char>, force: bool) -> Told<
        (),
    > {
        match first_unknown(s.grid, full_window(s.grid), 1, 1) {
            Some((i1, i2)) => (self, Err(unfinished("\"full\""@, i1 as int, i2 as int))),
            None => self.set_refname(
                refname,
                s.grid.commit(s.grid.len1 - 1, s.grid.len2 - 1),
                force,
            ),
        }
    }

    /// The second branch replayed on the first, each commit with its original as
    /// second parent.
    pub open spec fn simplify_to_rebase_with_history(
        self,
        s: MergeStateView,
        refname: Seq<char>,
        force: bool,
    ) -> Told<()> {
        match missing_in_row(s.grid, 1) {
            Some(i2) => (
                self,
                Err(unfinished("rebase-with-history"@, s.grid.len1 - 1, i2 as int)),
            ),
            None => match self.replay_row(
                s.grid,
                1,
                s.grid.len2 as int,
                s.grid.commit(s.grid.len1 - 1, 0),
                true,
            ) {
                (g, Err(e)) => (g, Err(e)),
                (g, Ok(commit)) => g.set_refname(refname, commit, force),
            },
        }
    }

    /// Both branches replayed on each other, and a merge of the two.
    pub open spec fn simplify_to_border(
        self,
        s: MergeStateView,
        refname: Seq<char>,
        with_history1: bool,
        with_history2: bool,
        force: bool,
    ) -> Told<()> {
        let last1 = s.grid.len1 - 1;
        let last2 = s.grid.len2 - 1;
        match (missing_in_row(s.grid, 1), missing_in_column(s.grid, 1)) {
            (Some(i2), _) => (self, Err(unfinished("border"@, last1, i2 as int))),
            (None, Some(i1)) => (self, Err(unfinished("border"@, i1 as int, last2))),
            (None, None) => match self.replay_row(
                s.grid,
                1,
                last2,
                s.grid.commit(last1, 0),
                with_history2,
            ) {
                (g, Err(e)) => (g, Err(e)),
                (g, Ok(commit1)) => match g.replay_column(
                    s.grid,
                    1,
                    last1,
                    s.grid.commit(0, last2),
                    with_history1,
                ) {
                    (g, Err(e)) => (g, Err(e)),
                    (g, Ok(commit2)) => match g.get_tree(s.grid.commit(last1, last2)) {
                        (g, Err(e)) => (g, Err(e)),
                        (g, Ok(tree)) => match g.commit_tree(
                            tree,
                            seq![commit1, commit2],
                            "Merge "@ + s.tip2 + " into "@ + s.tip1 + " (using imerge border)"@,
                            None,
                        ) {
                            (g, Err(e)) => (g, Err(e)),
                            (g, Ok(apex)) => g.set_refname(refname, apex, force),
                        },
                    },
                },
            },
        }
    }

    /// A chain of commits along a path. Unless forced, the last commit of the path
    /// has to be a fast-forward of `refname`.
    pub open spec fn simplify_to_path(
        self,
        s: MergeStateView,
        refname: Seq<char>,
        base: PathRefView,
        path: Seq<(PathRefView, PathRefView)>,
        force: bool,
    ) -> Told<()> {
        match base.resolved(s.grid) {
            Err(e) => (self, Err(e)),
            Ok(base) => match resolved_path(s.grid, path, 0, Seq::empty()) {
                Err(e) => (self, Err(e)),
                Ok(commits) => {
                    let apex = if commits.len() > 0 {
                        commits.last().0
                    } else {
                        base
                    };
                    let (g, allowed) = if force {
                        (self, Ok(true))
                    } else {
                        self.is_ff(refname, apex)
                    };
                    match allowed {
                        Err(e) => (g, Err(e)),
                        Ok(false) => (
                            g,
                            Err(
                                ErrorView::Failure(
                                    refname + " cannot be updated to "@ + apex
                                        + " without discarding history.\nUse --force if you are sure, or choose a different reference"@,
                                ),
                            ),
                        ),
                        Ok(true) => match g.create_commit_chain(Some(base), commits) {
                            (g, Err(e)) => (g, Err(e)),
                            (g, Ok(chain)) => g.set_refname(refname, chain, true),
                        },
                    }
                },
            },
        }
    }

    /// The second branch replayed on the first.
    pub open spec fn simplify_to_rebase(self, s: MergeStateView, refname: Seq<char>, force: bool) -> Told<
        (),
    > {
        explained(
            self.simplify_to_path(
                s,
                refname,
                PathRefView::Cell((s.grid.len1 - 1) as usize, 0),
                row_path(s.grid),
                force,
            ),
            s.goal,
        )
    }

    /// The first branch replayed on the given base.
    pub open spec fn simplify_to_drop(self, s: MergeStateView, refname: Seq<char>, force: bool) -> Told<
        (),
    > {
        match drop_base(s) {
            None => (
                self,
                Err(ErrorView::Failure("Goal \"drop\" was not initialized correctly"@)),
            ),
            Some(base) => explained(
                self.simplify_to_path(
                    s,
                    refname,
                    PathRefView::Sha1(base),
                    column_path(s.grid),
                    force,
                ),
                "rebase"@,
            ),
        }
    }

    /// One merge of the two branches, with the tree of the last merge result.
    pub open spec fn simplify_to_merge(self, s: MergeStateView, refname: Seq<char>, force: bool) -> Told<
        (),
    > {
        let last1 = s.grid.len1 - 1;
        let last2 = s.grid.len2 - 1;
        if !s.grid.known(last1, last2) {
            (self, Err(unfinished("merge"@, last1, last2)))
        } else {
            match self.get_tree(s.grid.commit(last1, last2)) {
                (g, Err(e)) => (g, Err(e)),
                (g, Ok(tree)) => match g.commit_tree(
                    tree,
                    seq![s.grid.commit(last1, 0), s.grid.commit(0, last2)],
                    "Merge "@ + s.tip2 + " into "@ + s.tip1 + " (using imerge)"@,
                    None,
                ) {
                    (g, Err(e)) => (g, Err(e)),
                    (g, Ok(sha1)) => match g.set_refname(refname, sha1, force) {
                        (g, Err(e)) => (g, Err(e)),
                        (g, Ok(_)) => g.amend(),
                    },
                },
            }
        }
    }

    /// See [`MergeState::simplify`].
    pub open spec fn simplify(self, s: MergeStateView, refname: Seq<char>, force: bool) -> Told<()> {
        if s.goal == "full"@ {
            self.simplify_to_full(s, refname, force)
        } else if s.goal == "rebase"@ {
            self.simplify_to_rebase(s, refname, force)
        } else if s.goal == "rebase-with-history"@ {
            self.simplify_to_rebase_with_history(s, refname, force)
        } else if s.goal == "border"@ {
            self.simplify_to_border(s, refname, false, false, force)
        } else if s.goal == "border-with-history"@ {
            self.simplify_to_border(s, refname, false, true, force)
        } else if s.goal == "border-with-history2"@ {
            self.simplify_to_border(s, refname, true, true, force)
        } else if s.goal == "drop"@ {
            self.simplify_to_drop(s, refname, force)
        } else if s.goal == "revert"@ {
            self.simplify_to_rebase(s, refname, force)
        } else if s.goal == "merge"@ {
            self.simplify_to_merge(s, refname, force)
        } else {
            (
                self,
                Err(
                    ErrorView::Failure(
                        "Invalid value for goal ("@ + debug_form(s.goal) + ")"@,
                    ),
                ),
            )
        }
    }
}

/// The base for the goal "drop".
pub open spec fn drop_base(s: MergeStateView) -> Option<Seq<char>> {
    match s.goalopts {
        Some(o) => o.base,
        None => None,
    }
}

impl MergeState {
    /// Points `refname` to `commit` and checks it out. Unless forced, an existing
    /// ref is only fast-forwarded.
    fn set_refname(&self, git: &mut Git, refname: &str, commit: &str, force: bool) -> (r: Result<
        (),
        ImergeError,
    >)
        ensures
            (final(git)@, res(r)) == old(git)@.set_refname(refname@, commit@, force),
            old(git)@.grows_to(final(git)@),
    {
        proof {
            reveal(Talk::set_refname);
        }
        match git.get_commit_sha1(refname) {
            Err(ImergeError::Suspended) => Err(ImergeError::Suspended),
            Err(_) => move_ref(git, refname, commit),
            Ok(present) => {
                let head = git.get_head_refname(false)?;
                if !force && !git.is_ancestor(&present, commit)? {
                    return failure(
                        &cat4(refname, " cannot be fast-forwarded to ", commit, "!"),
                    );
                }
                let on_it = match &head {
                    Some(h) => same(h, refname),
                    None => false,
                };
                if on_it {
                    git.reset_hard(Some(commit))
                } else {
                    move_ref(git, refname, commit)
                }
            },
        }
    }

    fn simplify_to_full(&self, git: &mut Git, refname: &str, force: bool) -> (r: Result<
        (),
        ImergeError,
    >)
        requires
            self@.wf(),
        ensures
            (final(git)@, res(r)) == old(git)@.simplify_to_full(self@, refname@, force),
            old(git)@.grows_to(final(git)@),
    {
        let ghost full = full_window(self@.grid);
        let mut i1: usize = 1;
        while i1 < self.grid.len1
            invariant
                self@.wf(),
                full == full_window(self@.grid),
                1 <= i1 <= self@.grid.len1,
                first_unknown(self@.grid, full, 1, 1) == first_unknown(
                    self@.grid,
                    full,
                    i1 as int,
                    1,
                ),
                i1 > 1 ==> forall|k: int|
                    1 <= k < self@.grid.len2 ==> #[trigger] self@.grid.known(i1 - 1, k),
            decreases self.grid.len1 - i1,
        {
            let mut i2: usize = 1;
            while i2 < self.grid.len2
                invariant
                    self@.wf(),
                    full == full_window(self@.grid),
                    1 <= i1 < self@.grid.len1,
                    1 <= i2,
                    first_unknown(self@.grid, full, 1, 1) == first_unknown(
                        self@.grid,
                        full,
                        i1 as int,
                        i2 as int,
                    ),
                    git@ == old(git)@,
                    forall|k: int| 1 <= k < i2 ==> #[trigger] self@.grid.known(i1 as int, k),
                decreases self.grid.len2 - i2,
            {
                if !self.grid.is_known(i1, i2) {
                    return not_yet_done("\"full\"", i1, i2);
                }
                i2 += 1;
            }
            i1 += 1;
        }
        let last1: usize = self.grid.len1 - 1;
        let last2: usize = self.grid.len2 - 1;
        proof {
            if last1 == 0 {
                assert(self@.grid.known(full.origin1 as int, full.origin2 + last2));
            } else if last2 == 0 {
                assert(self@.grid.known(full.origin1 + last1, full.origin2 as int));
            } else {
                assert(self@.grid.known(i1 - 1, last2 as int));
            }
        }
        let vertex = commit_of(&self.grid, last1, last2);
        self.set_refname(git, refname, &vertex, force)
    }

    fn simplify_to_rebase_with_history(&self, git: &mut Git, refname: &str, force: bool) -> (r:
        Result<(), ImergeError>)
        requires
            self@.wf(),
        ensures
            (final(git)@, res(r)) == old(git)@.simplify_to_rebase_with_history(
                self@,
                refname@,
                force,
            ),
            old(git)@.grows_to(final(git)@),
    {
        let ghost full = full_window(self@.grid);
        let last1: usize = self.grid.len1 - 1;
        if let Some(i2) = missing_row(&self.grid) {
            return not_yet_done("rebase-with-history", last1, i2);
        }
        assert(self@.grid.known(full.origin1 + last1, full.origin2 as int));
        let start = commit_of(&self.grid, last1, 0);
        let commit = replay_row(git, &self.grid, self.grid.len2, start, true)?;
        self.set_refname(git, refname, &commit, force)
    }

    fn simplify_to_border(
        &self,
        git: &mut Git,
        refname: &str,
        with_history1: bool,
        with_history2: bool,
        force: bool,
    ) -> (r: Result<(), ImergeError>)
        requires
            self@.wf(),
        ensures
            (final(git)@, res(r)) == old(git)@.simplify_to_border(
                self@,
                refname@,
                with_history1,
                with_history2,
                force,
            ),
            old(git)@.grows_to(final(git)@),
    {
        let ghost full = full_window(self@.grid);
        let last1: usize = self.grid.len1 - 1;
        let last2: usize = self.grid.len2 - 1;
        if let Some(i2) = missing_row(&self.grid) {
            return not_yet_done("border", last1, i2);
        }
        if let Some(i1) = missing_column(&self.grid) {
            return not_yet_done("border", i1, last2);
        }
        assert(self@.grid.known(full.origin1 + last1, full.origin2 as int));
        assert(self@.grid.known(full.origin1 as int, full.origin2 + last2));
        let start = commit_of(&self.grid, last1, 0);
        let commit1 = replay_row(git, &self.grid, last2, start, with_history2)?;
        let start = commit_of(&self.grid, 0, last2);
        let commit2 = replay_column(git, &self.grid, last1, start, with_history1)?;
        assert(self@.grid.known(last1 as int, last2 as int));
        let tree = git.get_tree(&commit_of(&self.grid, last1, last2))?;
        let msg = cat5(
            "Merge ",
            &self.tip2,
            " into ",
            &self.tip1,
            " (using imerge border)",
        );
        let apex = git.commit_tree(&tree, &list2(&commit1, &commit2), &msg, None)?;
        self.set_refname(git, refname, &apex, force)
    }

    /// Builds a chain of commits on `base` along `path`. Unless forced, the last
    /// commit of the path has to be a fast-forward of `refname`.
    fn simplify_to_path(
        &self,
        git: &mut Git,
        refname: &str,
        base: &PathRef,
        path: &Vec<(PathRef, PathRef)>,
        force: bool,
    ) -> (r: Result<(), ImergeError>)
        requires
            self@.wf(),
            base.deep_view().within(self@.grid),
            forall|k: int|
                0 <= k < path.deep_view().len() ==> (#[trigger] path.deep_view()[k]).0.within(
                    self@.grid,
                ) && path.deep_view()[k].1.within(self@.grid),
        ensures
            (final(git)@, res(r)) == old(git)@.simplify_to_path(
                self@,
                refname@,
                base.deep_view(),
                path.deep_view(),
                force,
            ),
            old(git)@.grows_to(final(git)@),
    {
        let ghost all = path.deep_view();
        let start = base.to_sha1(&self.grid)?;
        let mut commits: Vec<(String, String)> = Vec::new();
        let mut k: usize = 0;
        assert(commits.deep_view() =~= Seq::empty());
        while k < path.len()
            invariant
                k <= path.len(),
                all == path.deep_view(),
                self@.wf(),
                commits.len() == k,
                forall|k: int|
                    0 <= k < all.len() ==> (#[trigger] all[k]).0.within(self@.grid)
                        && all[k].1.within(self@.grid),
                resolved_path(self@.grid, all, 0, Seq::empty()) == resolved_path(
                    self@.grid,
                    all,
                    k as nat,
                    commits.deep_view(),
                ),
                git@ == old(git)@,
                base.deep_view().resolved(self@.grid) == Ok::<Seq<char>, ErrorView>(start@),
            decreases path.len() - k,
        {
            let ghost before = commits.deep_view();
            assert(all[k as int] == path[k as int].deep_view());
            let commit = path[k].0.to_sha1(&self.grid)?;
            let metadata = path[k].1.to_sha1(&self.grid)?;
            commits.push((commit, metadata));
            assert(commits.deep_view() =~= before.push((commit@, metadata@)));
            k += 1;
        }
        let ghost list = commits.deep_view();
        let n: usize = commits.len();
        let apex = if n > 0 {
            assert(list.last() == commits[n - 1].deep_view());
            commits[n - 1].0.clone()
        } else {
            start.clone()
        };
        if !force && !git.is_ff(refname, &apex)? {
            return failure(
                &cat4(
                    refname,
                    " cannot be updated to ",
                    &apex,
                    " without discarding history.\nUse --force if you are sure, or choose a different reference",
                ),
            );
        }
        let chain = git.create_commit_chain(Some(&start), &commits)?;
        self.set_refname(git, refname, &chain, true)
    }

    fn simplify_to_rebase(&self, git: &mut Git, refname: &str, force: bool) -> (r: Result<
        (),
        ImergeError,
    >)
        requires
            self@.wf(),
        ensures
            (final(git)@, res(r)) == old(git)@.simplify_to_rebase(self@, refname@, force),
            old(git)@.grows_to(final(git)@),
    {
        let last1: usize = self.grid.len1 - 1;
        let mut path: Vec<(PathRef, PathRef)> = Vec::new();
        let mut i2: usize = 1;
        while i2 < self.grid.len2
            invariant
                1 <= i2 <= self@.grid.len2,
                last1 == self@.grid.len1 - 1,
                path.len() == i2 - 1,
                forall|k: int|
                    0 <= k < path.len() ==> (#[trigger] path[k]).deep_view() == row_path(
                        self@.grid,
                    )[k],
            decreases self.grid.len2 - i2,
        {
            path.push((PathRef::Cell(last1, i2), PathRef::Cell(0, i2)));
            i2 += 1;
        }
        assert(path.deep_view() =~= row_path(self@.grid));
        let r = self.simplify_to_path(git, refname, &PathRef::Cell(last1, 0), &path, force);
        explain(r, &self.goal)
    }

    fn simplify_to_drop(&self, git: &mut Git, refname: &str, force: bool) -> (r: Result<
        (),
        ImergeError,
    >)
        requires
            self@.wf(),
        ensures
            (final(git)@, res(r)) == old(git)@.simplify_to_drop(self@, refname@, force),
            old(git)@.grows_to(final(git)@),
    {
        let base = match &self.goalopts {
            Some(o) => match &o.base {
                Some(base) => base.clone(),
                None => {
                    return failure("Goal \"drop\" was not initialized correctly");
                },
            },
            None => {
                return failure("Goal \"drop\" was not initialized correctly");
            },
        };
        let last2: usize = self.grid.len2 - 1;
        let mut path: Vec<(PathRef, PathRef)> = Vec::new();
        let mut i1: usize = 1;
        while i1 < self.grid.len1
            invariant
                1 <= i1 <= self@.grid.len1,
                last2 == self@.grid.len2 - 1,
                path.len() == i1 - 1,
                forall|k: int|
                    0 <= k < path.len() ==> (#[trigger] path[k]).deep_view() == column_path(
                        self@.grid,
                    )[k],
            decreases self.grid.len1 - i1,
        {
            path.push((PathRef::Cell(i1, last2), PathRef::Cell(i1, 0)));
            i1 += 1;
        }
        assert(path.deep_view() =~= column_path(self@.grid));
        let r = self.simplify_to_path(git, refname, &PathRef::Sha1(base), &path, force);
        explain(r, "rebase")
    }

    fn simplify_to_revert(&self, git: &mut Git, refname: &str, force: bool) -> (r: Result<
        (),
        ImergeError,
    >)
        requires
            self@.wf(),
        ensures
            (final(git)@, res(r)) == old(git)@.simplify_to_rebase(self@, refname@, force),
            old(git)@.grows_to(final(git)@),
    {
        self.simplify_to_rebase(git, refname, force)
    }

    fn simplify_to_merge(&self, git: &mut Git, refname: &str, force: bool) -> (r: Result<
        (),
        ImergeError,
    >)
        requires
            self@.wf(),
        ensures
            (final(git)@, res(r)) == old(git)@.simplify_to_merge(self@, refname@, force),
            old(git)@.grows_to(final(git)@),
    {
        let ghost full = full_window(self@.grid);
        let last1: usize = self.grid.len1 - 1;
        let last2: usize = self.grid.len2 - 1;
        if !self.grid.is_known(last1, last2) {
            return not_yet_done("merge", last1, last2);
        }
        let tree = git.get_tree(&commit_of(&self.grid, last1, last2))?;
        assert(self@.grid.known(full.origin1 + last1, full.origin2 as int));
        assert(self@.grid.known(full.origin1 as int, full.origin2 + last2));
        let parent1 = commit_of(&self.grid, last1, 0);
        let parent2 = commit_of(&self.grid, 0, last2);
        let msg = cat5("Merge ", &self.tip2, " into ", &self.tip1, " (using imerge)");
        let sha1 = git.commit_tree(&tree, &list2(&parent1, &parent2), &msg, None)?;
        self.set_refname(git, refname, &sha1, force)?;
        git.amend()
    }

    /// Turns the incremental merge into what it is for, and points `refname` to
    /// the result. The merges that this takes have to be there.
    pub fn simplify(&self, git: &mut Git, refname: &str, force: bool) -> (r: Result<
        (),
        ImergeError,
    >)
        requires
            self@.wf(),
        ensures
            (final(git)@, res(r)) == old(git)@.simplify(self@, refname@, force),
            old(git)@.grows_to(final(git)@),
    {
        if same(&self.goal, "full") {
            self.simplify_to_full(git, refname, force)
        } else if same(&self.goal, "rebase") {
            self.simplify_to_rebase(git, refname, force)
        } else if same(&self.goal, "rebase-with-history") {
            self.simplify_to_rebase_with_history(git, refname, force)
        } else if same(&self.goal, "border") {
            self.simplify_to_border(git, refname, false, false, force)
        } else if same(&self.goal, "border-with-history") {
            self.simplify_to_border(git, refname, false, true, force)
        } else if same(&self.goal, "border-with-history2") {
            self.simplify_to_border(git, refname, true, true, force)
        } else if same(&self.goal, "drop") {
            self.simplify_to_drop(git, refname, force)
        } else if same(&self.goal, "revert") {
            self.simplify_to_revert(git, refname, force)
        } else if same(&self.goal, "merge") {
            self.simplify_to_merge(git, refname, force)
        } else {
            failure(&cat3("Invalid value for goal (", &quoted(&self.goal), ")"))
        }
    }
}

// ---------------------------------------------------------------------
// What a simplification needs
// ---------------------------------------------------------------------

/// Whether the goal of an incremental merge needs the merge `(i1, i2)`.
pub open spec fn is_needed(s: MergeStateView, i1: int, i2: int) -> bool {
    let last1 = s.grid.len1 - 1;
    let last2 = s.grid.len2 - 1;
    let in_row = i1 == last1 && 1 <= i2 <= last2;
    let in_column = i2 == last2 && 1 <= i1 <= last1;
    if s.goal == "full"@ {
        s.grid.has_inside(i1, i2)
    } else if s.goal == "rebase"@ || s.goal == "rebase-with-history"@ {
        in_row
    } else if s.goal == "border"@ || s.goal == "border-with-history"@ || s.goal
        == "border-with-history2"@ {
        in_row || in_column
    } else if s.goal == "drop"@ {
        in_column
    } else if s.goal == "revert"@ {
        in_row
    } else if s.goal == "merge"@ {
        i1 == last1 && i2 == last2
    } else {
        false
    }
}

proof fn lemma_first_unknown(grid: GridView, window: Rect, i1: int, i2: int, k1: int, k2: int)
    requires
        window == full_window(grid),
        1 <= i1 <= k1 < grid.len1,
        1 <= k2 < grid.len2,
        1 <= i2,
        i1 == k1 ==> i2 <= k2,
        !grid.known(k1, k2),
    ensures
        first_unknown(grid, window, i1, i2) is Some,
    decreases grid.len1 - i1, grid.len2 - i2,
{
    if i2 >= grid.len2 {
        lemma_first_unknown(grid, window, i1 + 1, 1, k1, k2);
    } else if grid.known(i1, i2) {
        lemma_first_unknown(grid, window, i1, i2 + 1, k1, k2);
    }
}

proof fn lemma_missing_in_row(grid: GridView, i2: int, k: int)
    requires
        i2 <= k < grid.len2,
        !grid.known(grid.len1 - 1, k),
    ensures
        missing_in_row(grid, i2) is Some,
    decreases grid.len2 - i2,
{
    if grid.known(grid.len1 - 1, i2) {
        lemma_missing_in_row(grid, i2 + 1, k);
    }
}

proof fn lemma_missing_in_column(grid: GridView, i1: int, k: int)
    requires
        i1 <= k < grid.len1,
        !grid.known(k, grid.len2 - 1),
    ensures
        missing_in_column(grid, i1) is Some,
    decreases grid.len1 - i1,
{
    if grid.known(i1, grid.len2 - 1) {
        lemma_missing_in_column(grid, i1 + 1, k);
    }
}

proof fn lemma_path_broken(
    grid: GridView,
    path: Seq<(PathRefView, PathRefView)>,
    from: nat,
    found: Seq<(Seq<char>, Seq<char>)>,
    k: int,
)
    requires
        from <= k < path.len(),
        path[k].0.resolved(grid) is Err,
        forall|m: int|
            0 <= m < path.len() ==> (#[trigger] path[m]).0 is Cell && path[m].1 is Cell,
    ensures
        resolved_path(grid, path, from, found) matches Err(ErrorView::MissingMerge { .. }),
    decreases path.len() - from,
{
    assert(path[from as int].0 is Cell && path[from as int].1 is Cell);
    match (path[from as int].0.resolved(grid), path[from as int].1.resolved(grid)) {
        (Ok(commit), Ok(metadata)) => {
            lemma_path_broken(grid, path, from + 1, found.push((commit, metadata)), k);
        },
        _ => {},
    }
}

/// An incremental merge without all the merges that its goal needs is not
/// simplified: the attempt fails, and nothing is asked of git.
pub proof fn law_unfinished_is_refused(
    g: Talk,
    s: MergeStateView,
    refname: Seq<char>,
    force: bool,
    i1: int,
    i2: int,
)
    requires
        s.wf(),
        is_needed(s, i1, i2),
        !s.grid.known(i1, i2),
    ensures
        g.simplify(s, refname, force).0 == g,
        g.simplify(s, refname, force).1 matches Err(ErrorView::Failure(_)),
{
    let grid = s.grid;
    let full = full_window(grid);
    let last1 = grid.len1 - 1;
    let last2 = grid.len2 - 1;
    if grid.has_inside(i1, i2) {
        lemma_first_unknown(grid, full, 1, 1, i1, i2);
    }
    if i1 == last1 && 1 <= i2 <= last2 {
        lemma_missing_in_row(grid, 1, i2);
        lemma_row_path_broken(s, i2);
    }
    if i2 == last2 && 1 <= i1 <= last1 {
        lemma_missing_in_column(grid, 1, i1);
        lemma_column_path_broken(s, i1);
    }
}

proof fn lemma_row_path_broken(s: MergeStateView, i2: int)
    requires
        s.wf(),
        1 <= i2 < s.grid.len2,
        !s.grid.known(s.grid.len1 - 1, i2),
    ensures
        resolved_path(s.grid, row_path(s.grid), 0, Seq::empty()) matches Err(
            ErrorView::MissingMerge { .. },
        ),
        PathRefView::Cell((s.grid.len1 - 1) as usize, 0).resolved(s.grid) is Ok,
{
    let full = full_window(s.grid);
    assert(row_path(s.grid)[i2 - 1].0.resolved(s.grid) is Err);
    lemma_path_broken(s.grid, row_path(s.grid), 0, Seq::empty(), i2 - 1);
    assert(s.grid.known(full.origin1 + (s.grid.len1 - 1), full.origin2 as int));
}

proof fn lemma_column_path_broken(s: MergeStateView, i1: int)
    requires
        s.wf(),
        1 <= i1 < s.grid.len1,
        !s.grid.known(i1, s.grid.len2 - 1),
    ensures
        resolved_path(s.grid, column_path(s.grid), 0, Seq::empty()) matches Err(
            ErrorView::MissingMerge { .. },
        ),
{
    assert(column_path(s.grid)[i1 - 1].0.resolved(s.grid) is Err);
    lemma_path_broken(s.grid, column_path(s.grid), 0, Seq::empty(), i1 - 1);
}

// ---------------------------------------------------------------------
// Drop and revert
// ---------------------------------------------------------------------

proof fn lemma_goals_apart()
    ensures
        "drop"@ != "full"@ && "drop"@ != "rebase"@ && "drop"@ != "rebase-with-history"@,
        "drop"@ != "border"@ && "drop"@ != "border-with-history"@ && "drop"@
            != "border-with-history2"@,
        "revert"@ != "full"@ && "revert"@ != "rebase"@ && "revert"@ != "rebase-with-history"@,
        "revert"@ != "border"@ && "revert"@ != "border-with-history"@ && "revert"@
            != "border-with-history2"@ && "revert"@ != "drop"@,
{
    reveal_strlit("full");
    reveal_strlit("rebase");
    reveal_strlit("rebase-with-history");
    reveal_strlit("border");
    reveal_strlit("border-with-history");
    reveal_strlit("border-with-history2");
    reveal_strlit("drop");
    reveal_strlit("revert");
    assert("full"@[0] == 'f' && "drop"@[0] == 'd' && "border"@[0] == 'b' && "revert"@[0] == 'r');
    assert("border-with-history"@[0] == 'b' && "border-with-history2"@[0] == 'b');
    assert("rebase"@[0] == 'r' && "rebase-with-history"@[0] == 'r');
    assert("revert"@[2] == 'v' && "rebase"@[2] == 'b' && "rebase-with-history"@[2] == 'b');
}

/// A revert keeps the first branch as it is and adds to it: its result is a chain on
/// the last commit of the first branch, with one commit for each commit of the
/// second.
pub proof fn law_revert_adds_to_the_first_branch(
    g: Talk,
    s: MergeStateView,
    refname: Seq<char>,
    force: bool,
)
    requires
        s.wf(),
        s.goal == "revert"@,
    ensures
        g.simplify(s, refname, force) == explained(
            g.simplify_to_path(
                s,
                refname,
                PathRefView::Cell((s.grid.len1 - 1) as usize, 0),
                row_path(s.grid),
                force,
            ),
            "revert"@,
        ),
        row_path(s.grid).len() == s.grid.len2 - 1,
        PathRefView::Cell((s.grid.len1 - 1) as usize, 0).resolved(s.grid) == Ok::<
            Seq<char>,
            ErrorView,
        >(s.grid.commit(s.grid.len1 - 1, 0)),
{
    lemma_goals_apart();
    let full = full_window(s.grid);
    assert(s.grid.known(full.origin1 + (s.grid.len1 - 1), full.origin2 as int));
}

/// A drop starts over from the base that it keeps: its result is a chain on that
/// base, with one commit for each commit of the first branch.
pub proof fn law_drop_starts_from_its_base(
    g: Talk,
    s: MergeStateView,
    base: Seq<char>,
    refname: Seq<char>,
    force: bool,
)
    requires
        s.wf(),
        s.goal == "drop"@,
        drop_base(s) == Some(base),
    ensures
        g.simplify(s, refname, force) == explained(
            g.simplify_to_path(
                s,
                refname,
                PathRefView::Sha1(base),
                column_path(s.grid),
                force,
            ),
            "rebase"@,
        ),
        column_path(s.grid).len() == s.grid.len1 - 1,
{
    lemma_goals_apart();
}

} // verus!
