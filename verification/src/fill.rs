//! Filling cells of the grid by automatic merges.
use vstd::prelude::*;

use crate::block::{lemma_grid_grows, lemma_with_grows, Grid, GridView, MergeRecord, Rect};
use crate::error::{failure, res, ErrorView, ImergeError};
use crate::git::{AutomergeOutcome, Git, OutcomeView};
use crate::known::edges_known;
use crate::talk::{lemma_grows, lemma_learns_nothing, Talk, Told};
use crate::text::{cat3, cat4, cat5, cat6, decimal, list2, number, same};

verus! {

broadcast use lemma_grows, lemma_learns_nothing, lemma_grid_grows;

/// What an operation on a grid comes to: the exchange, the grid, and a value or
/// an error.
pub type Done<T> = (Talk, GridView, Result<T, ErrorView>);

/// Merge results for the cells of a window, by local coordinates.
pub type CellsView = Seq<(usize, usize, Seq<char>)>;

/// Coordinates as the user sees them.
pub open spec fn coordinates(a1: int, a2: int) -> Seq<char> {
    decimal(a1 as nat) + "-"@ + decimal(a2 as nat)
}

/// The log message for the automatic merge of one cell.
pub open spec fn auto_message(name: Seq<char>, a1: int, a2: int) -> Seq<char> {
    "imerge '"@ + name + "': automatic merge "@ + coordinates(a1, a2)
}

/// Coordinates as the user sees them.
pub(crate) fn shown(a1: usize, a2: usize) -> (r: String)
    ensures
        r@ == coordinates(a1 as int, a2 as int),
{
    cat3(&number(a1), "-", &number(a2))
}

/// The log message for the automatic merge of one cell.
fn message_for(name: &str, a1: usize, a2: usize) -> (r: String)
    ensures
        r@ == auto_message(name@, a1 as int, a2 as int),
{
    cat4("imerge '", name, "': automatic merge ", &shown(a1, a2))
}

/// The grid after these automatic merges were recorded for cells of `rect`.
pub open spec fn recorded(grid: GridView, rect: Rect, merges: CellsView) -> GridView
    decreases merges.len(),
{
    if merges.len() == 0 {
        grid
    } else {
        let before = recorded(grid, rect, merges.drop_last());
        let (n1, n2, sha1) = merges.last();
        let a1 = rect.origin1 + n1;
        let a2 = rect.origin2 + n2;
        before.with(a1, a2, before.cell(a1, a2).merged(sha1, MergeRecord::NEW_AUTO))
    }
}

/// Every cell on the lower and on the right edge of `rect` has a merge result.
pub open spec fn outline_known(grid: GridView, rect: Rect) -> bool {
    &&& forall|i: int|
        0 <= i < rect.len1 ==> #[trigger] grid.known(
            rect.origin1 + i,
            rect.origin2 + rect.len2 - 1,
        )
    &&& forall|i: int|
        0 <= i < rect.len2 ==> #[trigger] grid.known(
            rect.origin1 + rect.len1 - 1,
            rect.origin2 + i,
        )
}

impl Talk {
    /// Whether the two branch commits that meet in the cell `(a1, a2)` make the
    /// same change, as far as the grid asks for that to be looked at.
    pub open spec fn same_patch(self, grid: GridView, a1: int, a2: int) -> Told<bool> {
        match (grid.cell(a1, 0).sha1, grid.cell(0, a2).sha1) {
            (Some(c1), Some(c2)) => if !grid.dedupe_patches {
                (self, Ok(false))
            } else {
                match self.patch_id(c1) {
                    (g, Err(e)) => (g, Err(e)),
                    (g, Ok(None)) => (g, Ok(false)),
                    (g, Ok(Some(id1))) => match g.patch_id(c2) {
                        (g, Err(e)) => (g, Err(e)),
                        (g, Ok(id2)) => (g, Ok(id2 == Some(id1))),
                    },
                }
            },
            _ => (self, Ok(false)),
        }
    }

    /// An automatic merge for the cell `(a1, a2)`. In a `single` merge each side
    /// brings just one branch commit. If such a merge conflicts although both
    /// commits make the same change, it is made again with one side preferred.
    #[verifier::opaque]
    pub open spec fn merge_cell(
        self,
        grid: GridView,
        commit1: Seq<char>,
        commit2: Seq<char>,
        msg: Option<Seq<char>>,
        a1: int,
        a2: int,
        single: bool,
    ) -> Told<OutcomeView> {
        match self.automerge(commit1, commit2, msg) {
            (g, Err(e)) => (g, Err(e)),
            (g, Ok(OutcomeView::Success(sha1))) => (g, Ok(OutcomeView::Success(sha1))),
            (g, Ok(OutcomeView::Conflict)) => if !single {
                (g, Ok(OutcomeView::Conflict))
            } else {
                match g.same_patch(grid, a1, a2) {
                    (g, Err(e)) => (g, Err(e)),
                    (g, Ok(true)) => g.automerge_prefer_ours(commit1, commit2, msg),
                    (g, Ok(false)) => (g, Ok(OutcomeView::Conflict)),
                }
            },
        }
    }

    /// Whether the cell at `(n1, n2)` of `rect` can be merged: it is known, or the
    /// merge of the commits on the edges of `rect` succeeds.
    pub open spec fn probe(self, grid: GridView, rect: Rect, n1: int, n2: int) -> Told<bool> {
        let a1 = rect.origin1 + n1;
        let a2 = rect.origin2 + n2;
        if grid.known(a1, a2) {
            (self, Ok(true))
        } else {
            match self.tell("Attempting automerge of "@ + coordinates(a1, a2) + "..."@).merge_cell(
                grid,
                grid.commit(a1, rect.origin2 as int),
                grid.commit(rect.origin1 as int, a2),
                None,
                a1,
                a2,
                n1 == 1 && n2 == 1,
            ) {
                (g, Err(e)) => (g, Err(e)),
                (g, Ok(OutcomeView::Success(_))) => (g.note("success."@), Ok(true)),
                (g, Ok(OutcomeView::Conflict)) => (g.note("failure."@), Ok(false)),
            }
        }
    }

    /// See [`Rect::is_mergeable`].
    pub open spec fn is_mergeable(self, grid: GridView, rect: Rect, i1: int, i2: int) -> Told<
        bool,
    > {
        match rect.local(i1, i2) {
            Err(e) => (self, Err(e)),
            Ok((n1, n2)) => self.probe(grid, rect, n1 as int, n2 as int),
        }
    }

    /// Fills the cell `at` by a merge of the cells above it and to its left, or
    /// marks it as blocked. A cell that is blocked already is left alone.
    pub open spec fn fill_cell(
        self,
        grid: GridView,
        at: (usize, usize),
        above: (usize, usize),
        left: (usize, usize),
    ) -> Done<bool> {
        let a1 = at.0 as int;
        let a2 = at.1 as int;
        if grid.blocked(a1, a2) {
            (self, grid, Ok(false))
        } else {
            match self.tell("Attempting to merge "@ + coordinates(a1, a2) + "..."@).merge_cell(
                grid,
                grid.commit(left.0 as int, left.1 as int),
                grid.commit(above.0 as int, above.1 as int),
                Some(auto_message(grid.name, a1, a2)),
                a1,
                a2,
                above.0 < at.0 && left.1 < at.1,
            ) {
                (g, Err(e)) => (g, grid, Err(e)),
                (g, Ok(OutcomeView::Conflict)) => (
                    g.note("conflict."@),
                    grid.with(a1, a2, grid.cell(a1, a2).marked(true)),
                    Ok(false),
                ),
                (g, Ok(OutcomeView::Success(sha1))) => (
                    g.note("success."@),
                    grid.with(a1, a2, grid.cell(a1, a2).merged(sha1, MergeRecord::NEW_AUTO)),
                    Ok(true),
                ),
            }
        }
    }

    /// See [`Rect::auto_fill_micromerge`].
    pub open spec fn auto_fill_micromerge(
        self,
        grid: GridView,
        rect: Rect,
        i1: int,
        i2: int,
    ) -> Done<bool> {
        match rect.absolute(i1, i2) {
            Err(e) => (self, grid, Err(e)),
            Ok(at) => {
                let g = self.tell(
                    "Attempting to merge "@ + coordinates(at.0 as int, at.1 as int) + "..."@,
                );
                if grid.blocked(at.0 as int, at.1 as int) {
                    (self, grid, Ok(false))
                } else {
                    match (rect.absolute(i1 - 1, i2), rect.absolute(i1, i2 - 1)) {
                        (Err(e), _) => (g, grid, Err(e)),
                        (_, Err(e)) => (g, grid, Err(e)),
                        (Ok(above), Ok(left)) => self.fill_cell(grid, at, above, left),
                    }
                }
            },
        }
    }

    /// The merge result for one cell on the outline of `rect`, and whether it is
    /// new.
    #[verifier::opaque]
    pub open spec fn outline_cell(
        self,
        grid: GridView,
        rect: Rect,
        n1: usize,
        commit1: Seq<char>,
        n2: usize,
        commit2: Seq<char>,
        way: Seq<char>,
        single: bool,
    ) -> Told<(Seq<char>, bool)> {
        let a1 = rect.origin1 + n1;
        let a2 = rect.origin2 + n2;
        match grid.cell(a1, a2).sha1 {
            Some(sha1) => (self, Ok((sha1, false))),
            None => match self.tell("Autofilling "@ + coordinates(a1, a2) + way).merge_cell(
                grid,
                commit1,
                commit2,
                Some(auto_message(grid.name, a1, a2)),
                a1,
                a2,
                single,
            ) {
                (g, Err(e)) => (g, Err(e)),
                (g, Ok(OutcomeView::Conflict)) => (
                    g.note("unexpected conflict.  Backtracking..."@),
                    Err(
                        ErrorView::UnexpectedMergeFailure {
                            i1: n1,
                            i2: n2,
                            msg: "automatic merge of "@ + commit1 + " and "@ + commit2
                                + " failed"@,
                        },
                    ),
                ),
                (g, Ok(OutcomeView::Success(sha1))) => (g.note("success."@), Ok((sha1, true))),
            },
        }
    }

    /// Merges along the lower edge of `rect`, from row `n1` on, up to the corner.
    pub open spec fn outline_lower(
        self,
        grid: GridView,
        rect: Rect,
        n1: usize,
        left: Seq<char>,
        merges: CellsView,
    ) -> Told<(Seq<char>, CellsView)>
        decreases rect.len1 - n1,
    {
        let n2 = (rect.len2 - 1) as usize;
        if n1 + 1 >= rect.len1 {
            (self, Ok((left, merges)))
        } else {
            match self.outline_cell(
                grid,
                rect,
                n1,
                grid.commit(rect.origin1 + n1, rect.origin2 as int),
                n2,
                left,
                "..."@,
                n2 == 1,
            ) {
                (g, Err(e)) => (g, Err(e)),
                (g, Ok((sha1, new))) => g.outline_lower(
                    grid,
                    rect,
                    (n1 + 1) as usize,
                    sha1,
                    added(merges, n1, n2, sha1, new),
                ),
            }
        }
    }

    /// Merges along the right edge of `rect`, from column `n2` on, up to the
    /// corner.
    pub open spec fn outline_right(
        self,
        grid: GridView,
        rect: Rect,
        n2: usize,
        above: Seq<char>,
        merges: CellsView,
    ) -> Told<(Seq<char>, CellsView)>
        decreases rect.len2 - n2,
    {
        let n1 = (rect.len1 - 1) as usize;
        if n2 + 1 >= rect.len2 {
            (self, Ok((above, merges)))
        } else {
            match self.outline_cell(
                grid,
                rect,
                n1,
                above,
                n2,
                grid.commit(rect.origin1 as int, rect.origin2 + n2),
                "..."@,
                n1 == 1,
            ) {
                (g, Err(e)) => (g, Err(e)),
                (g, Ok((sha1, new))) => g.outline_right(
                    grid,
                    rect,
                    (n2 + 1) as usize,
                    sha1,
                    added(merges, n1, n2, sha1, new),
                ),
            }
        }
    }

    /// The corner of `rect` where both edges are longer than one step: it is
    /// merged from either side, and the two trees have to be the same.
    #[verifier::opaque]
    pub open spec fn outline_vertex(
        self,
        grid: GridView,
        rect: Rect,
        above: Seq<char>,
        left: Seq<char>,
    ) -> Told<Seq<char>> {
        let n1 = (rect.len1 - 1) as usize;
        let n2 = (rect.len2 - 1) as usize;
        let a1 = rect.origin1 + n1;
        let a2 = rect.origin2 + n2;
        let c1 = grid.commit(a1, rect.origin2 as int);
        let c2 = grid.commit(rect.origin1 as int, a2);
        match self.outline_cell(grid, rect, n1, c1, n2, left, " (first way)..."@, false) {
            (g, Err(e)) => (g, Err(e)),
            (g, Ok((v1, _))) => match g.outline_cell(
                grid,
                rect,
                n1,
                above,
                n2,
                c2,
                " (second way)..."@,
                false,
            ) {
                (g, Err(e)) => (g, Err(e)),
                (g, Ok((v2, _))) => match g.get_tree(v1) {
                    (g, Err(e)) => (g, Err(e)),
                    (g, Ok(t1)) => match g.get_tree(v2) {
                        (g, Err(e)) => (g, Err(e)),
                        (g, Ok(t2)) => if t1 == t2 {
                            g.note(
                                "The two ways of autofilling "@ + coordinates(a1, a2) + " agree."@,
                            ).reparent(v1, seq![above, left], None)
                        } else {
                            (
                                g.note(
                                    "The two ways of autofilling "@ + coordinates(a1, a2)
                                        + " do not agree.  Backtracking..."@,
                                ),
                                Err(
                                    ErrorView::UnexpectedMergeFailure {
                                        i1: n1,
                                        i2: n2,
                                        msg: "Inconsistent vertex merges"@,
                                    },
                                ),
                            )
                        },
                    },
                },
            },
        }
    }

    /// The last step of an outline: the corner of `rect`.
    pub open spec fn outline_corner(
        self,
        grid: GridView,
        rect: Rect,
        above: Seq<char>,
        left: Seq<char>,
        merges: CellsView,
    ) -> Told<CellsView> {
        let n1 = (rect.len1 - 1) as usize;
        let n2 = (rect.len2 - 1) as usize;
        if n1 > 1 && n2 > 1 {
            match self.outline_vertex(grid, rect, above, left) {
                (g, Err(e)) => (g, Err(e)),
                (g, Ok(sha1)) => (g, Ok(merges.push((n1, n2, sha1)))),
            }
        } else {
            match self.outline_cell(grid, rect, n1, above, n2, left, "..."@, true) {
                (g, Err(e)) => (g, Err(e)),
                (g, Ok((sha1, new))) => (g, Ok(added(merges, n1, n2, sha1, new))),
            }
        }
    }

    /// The merge results that complete the outline of `rect`.
    pub open spec fn outline(self, grid: GridView, rect: Rect) -> Told<CellsView> {
        let last1 = rect.origin1 + rect.len1 - 1;
        let last2 = rect.origin2 + rect.len2 - 1;
        match self.outline_lower(
            grid,
            rect,
            1,
            grid.commit(rect.origin1 as int, last2),
            Seq::empty(),
        ) {
            (g, Err(e)) => (g, Err(e)),
            (g, Ok((left, merges))) => match g.outline_right(
                grid,
                rect,
                1,
                grid.commit(last1, rect.origin2 as int),
                merges,
            ) {
                (g, Err(e)) => (g, Err(e)),
                (g, Ok((above, merges))) => g.outline_corner(grid, rect, above, left, merges),
            },
        }
    }

    /// See [`Rect::auto_outline`].
    pub open spec fn auto_outline(self, grid: GridView, rect: Rect) -> Done<()> {
        match self.outline(grid, rect) {
            (g, Err(e)) => (g, grid, Err(e)),
            (g, Ok(merges)) => (
                g.note(
                    "Recording autofilled block ["@ + decimal(rect.origin1 as nat) + ":"@
                        + decimal((rect.origin1 + rect.len1) as nat) + ","@ + decimal(
                        rect.origin2 as nat,
                    ) + ":"@ + decimal((rect.origin2 + rect.len2) as nat) + "]."@,
                ),
                recorded(grid, rect, merges),
                Ok(()),
            ),
        }
    }
}

/// The list of merge results with one more, if it is new.
pub open spec fn added(
    merges: CellsView,
    n1: usize,
    n2: usize,
    sha1: Seq<char>,
    new: bool,
) -> CellsView {
    if new {
        merges.push((n1, n2, sha1))
    } else {
        merges
    }
}

/// The merge result of a cell that has one.
pub(crate) fn commit_of(grid: &Grid, a1: usize, a2: usize) -> (r: String)
    requires
        grid@.wf(),
        grid@.has(a1 as int, a2 as int),
        grid@.known(a1 as int, a2 as int),
    ensures
        r@ == grid@.commit(a1 as int, a2 as int),
{
    match &grid.get(a1, a2).sha1 {
        Some(sha1) => sha1.clone(),
        None => "".to_owned(),
    }
}

fn same_patch(git: &mut Git, grid: &Grid, a1: usize, a2: usize) -> (r: Result<bool, ImergeError>)
    requires
        grid@.wf(),
        grid@.has(a1 as int, a2 as int),
    ensures
        (final(git)@, res(r)) == old(git)@.same_patch(grid@, a1 as int, a2 as int),
        old(git)@.grows_to(final(git)@),
{
    if !grid.dedupe_patches {
        return Ok(false);
    }
    match (&grid.get(a1, 0).sha1, &grid.get(0, a2).sha1) {
        (Some(c1), Some(c2)) => {
            match git.patch_id(c1)? {
                None => Ok(false),
                Some(id1) => match git.patch_id(c2)? {
                    None => Ok(false),
                    Some(id2) => Ok(same(&id1, &id2)),
                },
            }
        },
        _ => Ok(false),
    }
}

fn merge_cell(
    git: &mut Git,
    grid: &Grid,
    commit1: &str,
    commit2: &str,
    msg: Option<&str>,
    at: (usize, usize),
    single: bool,
) -> (r: Result<AutomergeOutcome, ImergeError>)
    requires
        grid@.wf(),
        grid@.has(at.0 as int, at.1 as int),
    ensures
        (final(git)@, res(r)) == old(git)@.merge_cell(
            grid@,
            commit1@,
            commit2@,
            msg.deep_view(),
            at.0 as int,
            at.1 as int,
            single,
        ),
        old(git)@.grows_to(final(git)@),
        r is Ok ==> final(git)@.remaining() < old(git)@.remaining(),
        r matches Err(e) ==> e is Failure || e is Suspended,
{
    proof {
        reveal(Talk::merge_cell);
    }
    match git.automerge(commit1, commit2, msg)? {
        AutomergeOutcome::Success(sha1) => Ok(AutomergeOutcome::Success(sha1)),
        AutomergeOutcome::Conflict => {
            if single && same_patch(git, grid, at.0, at.1)? {
                git.automerge_prefer_ours(commit1, commit2, msg)
            } else {
                Ok(AutomergeOutcome::Conflict)
            }
        },
    }
}

/// An unexpected conflict is reported for a cell inside `rect`, off its first row
/// and column, and replies were used up to find it.
pub open spec fn fails_inside<T>(
    r: Result<T, ImergeError>,
    rect: Rect,
    before: Talk,
    after: Talk,
) -> bool {
    r matches Err(ImergeError::UnexpectedMergeFailure { i1, i2, .. }) ==> {
        &&& 1 <= i1 < rect.len1
        &&& 1 <= i2 < rect.len2
        &&& after.remaining() < before.remaining()
    }
}

/// The merge result for one cell on the outline of `rect`, and whether it is new.
fn outline_cell(
    git: &mut Git,
    grid: &Grid,
    rect: Rect,
    n1: usize,
    commit1: &str,
    n2: usize,
    commit2: &str,
    way: &str,
    single: bool,
) -> (r: Result<(String, bool), ImergeError>)
    requires
        grid@.wf(),
        rect.within(grid@),
        n1 < rect.len1,
        n2 < rect.len2,
    ensures
        (final(git)@, res(r)) == old(git)@.outline_cell(
            grid@,
            rect,
            n1,
            commit1@,
            n2,
            commit2@,
            way@,
            single,
        ),
        old(git)@.grows_to(final(git)@),
        edges_known(grid@, rect) ==> fails_inside(r, rect, old(git)@, final(git)@),
        r matches Err(e) ==> e is Failure || e is Suspended || e is UnexpectedMergeFailure,
{
    proof {
        reveal(Talk::outline_cell);
    }
    let a1: usize = rect.origin1 + n1;
    let a2: usize = rect.origin2 + n2;
    if let Some(sha1) = &grid.get(a1, a2).sha1 {
        return Ok((sha1.clone(), false));
    }
    assert(edges_known(grid@, rect) ==> n1 > 0 && n2 > 0) by {
        if edges_known(grid@, rect) {
            assert(grid@.known(rect.origin1 + n1, rect.origin2 as int));
            assert(grid@.known(rect.origin1 as int, rect.origin2 + n2));
        }
    }
    git.tell(&cat3("Autofilling ", &shown(a1, a2), way));
    let msg = message_for(&grid.name, a1, a2);
    match merge_cell(git, grid, commit1, commit2, Some(&msg), (a1, a2), single)? {
        AutomergeOutcome::Conflict => {
            git.note("unexpected conflict.  Backtracking...");
            Err(
                ImergeError::UnexpectedMergeFailure {
                    i1: n1,
                    i2: n2,
                    msg: cat5("automatic merge of ", commit1, " and ", commit2, " failed"),
                },
            )
        },
        AutomergeOutcome::Success(sha1) => {
            git.note("success.");
            Ok((sha1, true))
        },
    }
}

/// Fills the cell `at` by a merge of the cells above it and to its left.
pub(crate) fn fill_cell(
    git: &mut Git,
    grid: &mut Grid,
    at: (usize, usize),
    above: (usize, usize),
    left: (usize, usize),
) -> (r: Result<bool, ImergeError>)
    requires
        old(grid)@.wf(),
        old(grid)@.has(at.0 as int, at.1 as int),
        old(grid)@.has(above.0 as int, above.1 as int),
        old(grid)@.has(left.0 as int, left.1 as int),
        old(grid)@.known(above.0 as int, above.1 as int),
        old(grid)@.known(left.0 as int, left.1 as int),
    ensures
        (final(git)@, final(grid)@, res(r)) == old(git)@.fill_cell(old(grid)@, at, above, left),
        old(git)@.grows_to(final(git)@),
        old(grid)@.grows_to(final(grid)@),
        r is Err ==> final(grid)@ == old(grid)@,
        r matches Ok(true) && old(grid)@.sound() ==> final(grid)@.known(at.0 as int, at.1 as int),
        r matches Err(e) ==> e is Failure || e is Suspended,
{
    let (a1, a2) = at;
    if grid.is_blocked(a1, a2) {
        return Ok(false);
    }
    git.tell(&cat3("Attempting to merge ", &shown(a1, a2), "..."));
    let msg = message_for(&grid.name, a1, a2);
    let commit2 = commit_of(grid, above.0, above.1);
    let commit1 = commit_of(grid, left.0, left.1);
    let single = above.0 < a1 && left.1 < a2;
    match merge_cell(git, grid, &commit1, &commit2, Some(&msg), at, single)? {
        AutomergeOutcome::Conflict => {
            git.note("conflict.");
            proof {
                lemma_with_grows(grid@, a1 as int, a2 as int, Seq::empty());
            }
            grid.get_mut(a1, a2).record_blocked(true);
            Ok(false)
        },
        AutomergeOutcome::Success(sha1) => {
            git.note("success.");
            proof {
                lemma_with_grows(grid@, a1 as int, a2 as int, sha1@);
            }
            grid.get_mut(a1, a2).record_merge(&sha1, MergeRecord::NEW_AUTO);
            Ok(true)
        },
    }
}

impl Rect {
    pub(crate) fn probe(&self, git: &mut Git, grid: &Grid, n1: usize, n2: usize) -> (r: Result<
        bool,
        ImergeError,
    >)
        requires
            grid@.wf(),
            self.within(grid@),
            n1 < self.len1,
            n2 < self.len2,
            grid@.known(self.origin1 + n1, self.origin2 + n2) || (grid@.known(
                self.origin1 + n1,
                self.origin2 as int,
            ) && grid@.known(self.origin1 as int, self.origin2 + n2)),
        ensures
            (final(git)@, res(r)) == old(git)@.probe(grid@, *self, n1 as int, n2 as int),
            old(git)@.grows_to(final(git)@),
            r matches Ok(false) ==> final(git)@.remaining() < old(git)@.remaining(),
            r matches Err(e) ==> e is Failure || e is Suspended,
    {
        let a1: usize = self.origin1 + n1;
        let a2: usize = self.origin2 + n2;
        if grid.is_known(a1, a2) {
            return Ok(true);
        }
        git.tell(&cat3("Attempting automerge of ", &shown(a1, a2), "..."));
        let c1 = commit_of(grid, a1, self.origin2);
        let c2 = commit_of(grid, self.origin1, a2);
        match merge_cell(git, grid, &c1, &c2, None, (a1, a2), n1 == 1 && n2 == 1)? {
            AutomergeOutcome::Success(_) => {
                git.note("success.");
                Ok(true)
            },
            AutomergeOutcome::Conflict => {
                git.note("failure.");
                Ok(false)
            },
        }
    }

    /// Whether the cell at these local indexes can be merged automatically: it is
    /// known, or a merge of the two edge commits that lead to it succeeds. The
    /// result of that merge is not kept.
    pub fn is_mergeable(&self, git: &mut Git, grid: &Grid, i1: isize, i2: isize) -> (r: Result<
        bool,
        ImergeError,
    >)
        requires
            grid@.wf(),
            self.within(grid@),
            self.local(i1 as int, i2 as int) matches Ok((n1, n2)) ==> grid@.known(
                self.origin1 + n1,
                self.origin2 + n2,
            ) || (grid@.known(self.origin1 + n1, self.origin2 as int) && grid@.known(
                self.origin1 as int,
                self.origin2 + n2,
            )),
        ensures
            (final(git)@, res(r)) == old(git)@.is_mergeable(grid@, *self, i1 as int, i2 as int),
            old(git)@.grows_to(final(git)@),
    {
        let (n1, n2) = self.normalize(i1, i2)?;
        self.probe(git, grid, n1, n2)
    }

    /// Tries to fill the cell at these local indexes, whose neighbours above and
    /// to the left have merge results, and says whether it succeeded. A conflict
    /// marks the cell as blocked; a cell that is blocked already is left alone.
    pub fn auto_fill_micromerge(&self, git: &mut Git, grid: &mut Grid, i1: isize, i2: isize) -> (r:
        Result<bool, ImergeError>)
        requires
            old(grid)@.wf(),
            self.within(old(grid)@),
            i1 > isize::MIN,
            i2 > isize::MIN,
            self.absolute(i1 - 1, i2 as int) matches Ok((a1, a2)) ==> old(grid)@.known(
                a1 as int,
                a2 as int,
            ),
            self.absolute(i1 as int, i2 - 1) matches Ok((a1, a2)) ==> old(grid)@.known(
                a1 as int,
                a2 as int,
            ),
        ensures
            (final(git)@, final(grid)@, res(r)) == old(git)@.auto_fill_micromerge(
                old(grid)@,
                *self,
                i1 as int,
                i2 as int,
            ),
            old(git)@.grows_to(final(git)@),
            old(grid)@.grows_to(final(grid)@),
            r is Err ==> final(grid)@ == old(grid)@,
            r matches Ok(true) ==> (self.absolute(i1 as int, i2 as int) matches Ok((a1, a2)) && (
            old(grid)@.sound() ==> final(grid)@.known(a1 as int, a2 as int))),
    {
        let at = self.abs(i1, i2)?;
        if grid.is_blocked(at.0, at.1) {
            return Ok(false);
        }
        match (self.abs(i1 - 1, i2), self.abs(i1, i2 - 1)) {
            (Ok(above), Ok(left)) => fill_cell(git, grid, at, above, left),
            (Err(e), _) => {
                git.tell(&cat3("Attempting to merge ", &shown(at.0, at.1), "..."));
                Err(e)
            },
            (_, Err(e)) => {
                git.tell(&cat3("Attempting to merge ", &shown(at.0, at.1), "..."));
                Err(e)
            },
        }
    }

    fn outline_lower(&self, git: &mut Git, grid: &Grid, start: String) -> (r: Result<
        (String, Vec<(usize, usize, String)>),
        ImergeError,
    >)
        requires
            grid@.wf(),
            self.within(grid@),
            self.len1 >= 1,
            self.len2 >= 1,
            edges_known(grid@, *self),
        ensures
            (final(git)@, res(r)) == old(git)@.outline_lower(
                grid@,
                *self,
                1,
                start@,
                Seq::empty(),
            ),
            old(git)@.grows_to(final(git)@),
            fails_inside(r, *self, old(git)@, final(git)@),
            r matches Err(e) ==> e is Failure || e is Suspended || e is UnexpectedMergeFailure,
    {
        let mut left = start;
        let mut merges: Vec<(usize, usize, String)> = Vec::new();
        let n2: usize = self.len2 - 1;
        let mut n1: usize = 1;
        assert(merges.deep_view() =~= Seq::empty());
        while n1 < self.len1 - 1
            invariant
                grid@.wf(),
                self.within(grid@),
                self.len1 >= 1,
                self.len2 >= 1,
                n2 == self.len2 - 1,
                1 <= n1,
                n1 <= self.len1,
                edges_known(grid@, *self),
                old(git)@.outline_lower(grid@, *self, 1, start@, Seq::empty())
                    == git@.outline_lower(grid@, *self, n1, left@, merges.deep_view()),
                old(git)@.grows_to(git@),
                git@.remaining() <= old(git)@.remaining(),
            decreases self.len1 - n1,
        {
            let ghost before = merges.deep_view();
            assert(grid@.known(self.origin1 + n1, self.origin2 as int));
            let c1 = commit_of(grid, self.origin1 + n1, self.origin2);
            let (sha1, new) = outline_cell(
                git,
                grid,
                *self,
                n1,
                &c1,
                n2,
                &left,
                "...",
                n2 == 1,
            )?;
            if new {
                merges.push((n1, n2, sha1.clone()));
            }
            assert(merges.deep_view() =~= added(before, n1, n2, sha1@, new));
            left = sha1;
            n1 += 1;
        }
        Ok((left, merges))
    }

    fn outline_right(
        &self,
        git: &mut Git,
        grid: &Grid,
        start: String,
        merges: Vec<(usize, usize, String)>,
    ) -> (r: Result<(String, Vec<(usize, usize, String)>), ImergeError>)
        requires
            grid@.wf(),
            self.within(grid@),
            self.len1 >= 1,
            self.len2 >= 1,
            edges_known(grid@, *self),
        ensures
            (final(git)@, res(r)) == old(git)@.outline_right(
                grid@,
                *self,
                1,
                start@,
                merges.deep_view(),
            ),
            old(git)@.grows_to(final(git)@),
            fails_inside(r, *self, old(git)@, final(git)@),
            r matches Err(e) ==> e is Failure || e is Suspended || e is UnexpectedMergeFailure,
    {
        let ghost first = merges.deep_view();
        let mut above = start;
        let mut list = merges;
        let n1: usize = self.len1 - 1;
        let mut n2: usize = 1;
        while n2 < self.len2 - 1
            invariant
                grid@.wf(),
                self.within(grid@),
                self.len1 >= 1,
                self.len2 >= 1,
                n1 == self.len1 - 1,
                1 <= n2,
                n2 <= self.len2,
                first == merges.deep_view(),
                edges_known(grid@, *self),
                old(git)@.outline_right(grid@, *self, 1, start@, first)
                    == git@.outline_right(grid@, *self, n2, above@, list.deep_view()),
                old(git)@.grows_to(git@),
                git@.remaining() <= old(git)@.remaining(),
            decreases self.len2 - n2,
        {
            let ghost before = list.deep_view();
            assert(grid@.known(self.origin1 as int, self.origin2 + n2));
            let c2 = commit_of(grid, self.origin1, self.origin2 + n2);
            let (sha1, new) = outline_cell(
                git,
                grid,
                *self,
                n1,
                &above,
                n2,
                &c2,
                "...",
                n1 == 1,
            )?;
            if new {
                list.push((n1, n2, sha1.clone()));
            }
            assert(list.deep_view() =~= added(before, n1, n2, sha1@, new));
            above = sha1;
            n2 += 1;
        }
        Ok((above, list))
    }

    fn outline_vertex(&self, git: &mut Git, grid: &Grid, above: &str, left: &str) -> (r: Result<
        String,
        ImergeError,
    >)
        requires
            grid@.wf(),
            self.within(grid@),
            self.len1 >= 2,
            self.len2 >= 2,
            edges_known(grid@, *self),
        ensures
            (final(git)@, res(r)) == old(git)@.outline_vertex(grid@, *self, above@, left@),
            old(git)@.grows_to(final(git)@),
            fails_inside(r, *self, old(git)@, final(git)@),
            r matches Err(e) ==> e is Failure || e is Suspended || e is UnexpectedMergeFailure,
    {
        proof {
            reveal(Talk::outline_vertex);
        }
        let n1: usize = self.len1 - 1;
        let n2: usize = self.len2 - 1;
        let a1: usize = self.origin1 + n1;
        let a2: usize = self.origin2 + n2;
        assert(grid@.known(self.origin1 + n1, self.origin2 as int));
        assert(grid@.known(self.origin1 as int, self.origin2 + n2));
        let c1 = commit_of(grid, a1, self.origin2);
        let c2 = commit_of(grid, self.origin1, a2);
        let (v1, _) = outline_cell(
            git,
            grid,
            *self,
            n1,
            &c1,
            n2,
            left,
            " (first way)...",
            false,
        )?;
        let (v2, _) = outline_cell(
            git,
            grid,
            *self,
            n1,
            above,
            n2,
            &c2,
            " (second way)...",
            false,
        )?;
        let t1 = git.get_tree(&v1)?;
        let t2 = git.get_tree(&v2)?;
        if same(&t1, &t2) {
            git.note(&cat3("The two ways of autofilling ", &shown(a1, a2), " agree."));
            git.reparent(&v1, &list2(above, left), None)
        } else {
            git.note(
                &cat3(
                    "The two ways of autofilling ",
                    &shown(a1, a2),
                    " do not agree.  Backtracking...",
                ),
            );
            Err(
                ImergeError::UnexpectedMergeFailure {
                    i1: n1,
                    i2: n2,
                    msg: "Inconsistent vertex merges".to_owned(),
                },
            )
        }
    }

    fn outline_corner(
        &self,
        git: &mut Git,
        grid: &Grid,
        above: &str,
        left: &str,
        merges: Vec<(usize, usize, String)>,
    ) -> (r: Result<Vec<(usize, usize, String)>, ImergeError>)
        requires
            grid@.wf(),
            self.within(grid@),
            self.len1 >= 1,
            self.len2 >= 1,
            edges_known(grid@, *self),
        ensures
            (final(git)@, res(r)) == old(git)@.outline_corner(
                grid@,
                *self,
                above@,
                left@,
                merges.deep_view(),
            ),
            old(git)@.grows_to(final(git)@),
            fails_inside(r, *self, old(git)@, final(git)@),
            r matches Err(e) ==> e is Failure || e is Suspended || e is UnexpectedMergeFailure,
    {
        let n1: usize = self.len1 - 1;
        let n2: usize = self.len2 - 1;
        let mut merges = merges;
        let ghost before = merges.deep_view();
        if n1 > 1 && n2 > 1 {
            let sha1 = self.outline_vertex(git, grid, above, left)?;
            merges.push((n1, n2, sha1));
            assert(merges.deep_view() =~= before.push((n1, n2, sha1@)));
        } else {
            let (sha1, new) = outline_cell(
                git,
                grid,
                *self,
                n1,
                above,
                n2,
                left,
                "...",
                true,
            )?;
            if new {
                merges.push((n1, n2, sha1));
            }
            assert(merges.deep_view() =~= added(before, n1, n2, sha1@, new));
        }
        Ok(merges)
    }

    fn outline(&self, git: &mut Git, grid: &Grid) -> (r: Result<
        Vec<(usize, usize, String)>,
        ImergeError,
    >)
        requires
            grid@.wf(),
            self.within(grid@),
            self.len1 >= 1,
            self.len2 >= 1,
            edges_known(grid@, *self),
        ensures
            (final(git)@, res(r)) == old(git)@.outline(grid@, *self),
            old(git)@.grows_to(final(git)@),
            fails_inside(r, *self, old(git)@, final(git)@),
            r matches Err(e) ==> e is Failure || e is Suspended || e is UnexpectedMergeFailure,
    {
        let n1: usize = self.len1 - 1;
        let n2: usize = self.len2 - 1;
        assert(grid@.known(self.origin1 + n1, self.origin2 as int));
        assert(grid@.known(self.origin1 as int, self.origin2 + n2));
        let start = commit_of(grid, self.origin1, self.origin2 + n2);
        let (left, merges) = self.outline_lower(git, grid, start)?;
        let start = commit_of(grid, self.origin1 + n1, self.origin2);
        let (above, merges) = self.outline_right(git, grid, start, merges)?;
        self.outline_corner(git, grid, &above, &left, merges)
    }
}

impl Rect {
    /// Completes the outline of the window: merges along its lower and its right
    /// edge, and in the corner. Where the corner can be reached two ways, both
    /// have to give the same tree. Either all new results are recorded, or, after
    /// a conflict, none; the conflict is reported with local coordinates.
    pub fn auto_outline(&self, git: &mut Git, grid: &mut Grid) -> (r: Result<(), ImergeError>)
        requires
            old(grid)@.wf(),
            self.within(old(grid)@),
            self.len1 >= 1,
            self.len2 >= 1,
            edges_known(old(grid)@, *self),
        ensures
            (final(git)@, final(grid)@, res(r)) == old(git)@.auto_outline(old(grid)@, *self),
            old(git)@.grows_to(final(git)@),
            old(grid)@.grows_to(final(grid)@),
            r is Err ==> final(grid)@ == old(grid)@,
            r is Ok && old(grid)@.sound() ==> outline_known(final(grid)@, *self),
            fails_inside(r, *self, old(git)@, final(git)@),
            r matches Err(e) ==> e is Failure || e is Suspended || e is UnexpectedMergeFailure,
    {
        let merges = self.outline(git, grid)?;
        let ghost all = merges.deep_view();
        let text = cat4(
            "Recording autofilled block [",
            &number(self.origin1),
            ":",
            &number(self.origin1 + self.len1),
        );
        git.note(
            &cat6(
                &text,
                ",",
                &number(self.origin2),
                ":",
                &number(self.origin2 + self.len2),
                "].",
            ),
        );
        proof {
            law_outline_is_complete(old(git)@, grid@, *self);
        }
        let mut k: usize = 0;
        assert(all.take(0) =~= Seq::empty());
        while k < merges.len()
            invariant
                k <= merges.len(),
                all == merges.deep_view(),
                in_range(all, *self),
                old(grid)@.wf(),
                self.within(old(grid)@),
                grid@ == recorded(old(grid)@, *self, all.take(k as int)),
                grid@.wf(),
                grid@.len1 == old(grid)@.len1,
                grid@.len2 == old(grid)@.len2,
            decreases merges.len() - k,
        {
            let (n1, n2, sha1) = &merges[k];
            proof {
                assert(all[k as int] == (*n1, *n2, sha1@));
                assert(all.take(k + 1).drop_last() =~= all.take(k as int));
                assert(all.take(k + 1).last() == all[k as int]);
            }
            grid.get_mut(self.origin1 + *n1, self.origin2 + *n2).record_merge(
                sha1,
                MergeRecord::NEW_AUTO,
            );
            k += 1;
        }
        assert(all.take(k as int) =~= all);
        Ok(())
    }
}

/// All merge results are for cells of `rect`.
pub open spec fn in_range(merges: CellsView, rect: Rect) -> bool {
    forall|k: int|
        0 <= k < merges.len() ==> (#[trigger] merges[k]).0 < rect.len1 && merges[k].1 < rect.len2
}

/// Whether there is a merge result for the cell `(n1, n2)` of the window.
spec fn supplies(merges: CellsView, n1: int, n2: int) -> bool {
    exists|k: int| 0 <= k < merges.len() && (#[trigger] merges[k]).0 == n1 && merges[k].1 == n2
}

/// Whether the cell `(n1, n2)` of `rect` is known or will be.
spec fn reached(grid: GridView, rect: Rect, merges: CellsView, n1: int, n2: int) -> bool {
    grid.known(rect.origin1 + n1, rect.origin2 + n2) || supplies(merges, n1, n2)
}

/// `later` is a longer list of merge results.
spec fn prolongs(merges: CellsView, later: CellsView) -> bool {
    merges.len() <= later.len() && forall|k: int|
        0 <= k < merges.len() ==> #[trigger] later[k] == merges[k]
}

proof fn lemma_supplies(merges: CellsView, later: CellsView, n1: int, n2: int)
    requires
        prolongs(merges, later),
        supplies(merges, n1, n2),
    ensures
        supplies(later, n1, n2),
{
    let k = choose|k: int|
        0 <= k < merges.len() && (#[trigger] merges[k]).0 == n1 && merges[k].1 == n2;
    assert(later[k] == merges[k]);
}

proof fn lemma_added(
    g: Talk,
    grid: GridView,
    rect: Rect,
    n1: usize,
    commit1: Seq<char>,
    n2: usize,
    commit2: Seq<char>,
    way: Seq<char>,
    single: bool,
    merges: CellsView,
)
    requires
        n1 < rect.len1,
        n2 < rect.len2,
        in_range(merges, rect),
    ensures
        g.outline_cell(grid, rect, n1, commit1, n2, commit2, way, single).1 matches Ok((sha1, new))
            ==> {
            let later = added(merges, n1, n2, sha1, new);
            &&& in_range(later, rect)
            &&& prolongs(merges, later)
            &&& reached(grid, rect, later, n1 as int, n2 as int)
        },
{
    reveal(Talk::outline_cell);
    if let Ok((sha1, new)) = g.outline_cell(
        grid,
        rect,
        n1,
        commit1,
        n2,
        commit2,
        way,
        single,
    ).1 {
        let later = added(merges, n1, n2, sha1, new);
        if new {
            assert(later[merges.len() as int] == (n1, n2, sha1));
            assert(supplies(later, n1 as int, n2 as int));
        }
    }
}

proof fn lemma_lower(
    g: Talk,
    grid: GridView,
    rect: Rect,
    n1: usize,
    left: Seq<char>,
    merges: CellsView,
)
    requires
        rect.len1 >= 1,
        rect.len2 >= 1,
        in_range(merges, rect),
    ensures
        g.outline_lower(grid, rect, n1, left, merges).1 matches Ok((_, later)) ==> {
            &&& in_range(later, rect)
            &&& prolongs(merges, later)
            &&& forall|k: int|
                n1 <= k < rect.len1 - 1 ==> #[trigger] reached(
                    grid,
                    rect,
                    later,
                    k,
                    rect.len2 - 1,
                )
        },
    decreases rect.len1 - n1,
{
    if n1 + 1 < rect.len1 {
        let n2 = (rect.len2 - 1) as usize;
        let c1 = grid.commit(rect.origin1 + n1, rect.origin2 as int);
        lemma_added(g, grid, rect, n1, c1, n2, left, "..."@, n2 == 1, merges);
        let (g2, step) = g.outline_cell(grid, rect, n1, c1, n2, left, "..."@, n2 == 1);
        if let Ok((sha1, new)) = step {
            let more = added(merges, n1, n2, sha1, new);
            lemma_lower(g2, grid, rect, (n1 + 1) as usize, sha1, more);
            if let Ok((_, later)) = g.outline_lower(grid, rect, n1, left, merges).1 {
                assert(reached(grid, rect, later, n1 as int, n2 as int)) by {
                    if supplies(more, n1 as int, n2 as int) {
                        lemma_supplies(more, later, n1 as int, n2 as int);
                    }
                }
                assert forall|k: int| 0 <= k < merges.len() implies #[trigger] later[k]
                    == merges[k] by {
                    assert(more[k] == merges[k]);
                }
            }
        }
    }
}

proof fn lemma_right(
    g: Talk,
    grid: GridView,
    rect: Rect,
    n2: usize,
    above: Seq<char>,
    merges: CellsView,
)
    requires
        rect.len1 >= 1,
        rect.len2 >= 1,
        in_range(merges, rect),
    ensures
        g.outline_right(grid, rect, n2, above, merges).1 matches Ok((_, later)) ==> {
            &&& in_range(later, rect)
            &&& prolongs(merges, later)
            &&& forall|k: int|
                n2 <= k < rect.len2 - 1 ==> #[trigger] reached(
                    grid,
                    rect,
                    later,
                    rect.len1 - 1,
                    k,
                )
        },
    decreases rect.len2 - n2,
{
    if n2 + 1 < rect.len2 {
        let n1 = (rect.len1 - 1) as usize;
        let c2 = grid.commit(rect.origin1 as int, rect.origin2 + n2);
        lemma_added(g, grid, rect, n1, above, n2, c2, "..."@, n1 == 1, merges);
        let (g2, step) = g.outline_cell(grid, rect, n1, above, n2, c2, "..."@, n1 == 1);
        if let Ok((sha1, new)) = step {
            let more = added(merges, n1, n2, sha1, new);
            lemma_right(g2, grid, rect, (n2 + 1) as usize, sha1, more);
            if let Ok((_, later)) = g.outline_right(grid, rect, n2, above, merges).1 {
                assert(reached(grid, rect, later, n1 as int, n2 as int)) by {
                    if supplies(more, n1 as int, n2 as int) {
                        lemma_supplies(more, later, n1 as int, n2 as int);
                    }
                }
                assert forall|k: int| 0 <= k < merges.len() implies #[trigger] later[k]
                    == merges[k] by {
                    assert(more[k] == merges[k]);
                }
            }
        }
    }
}

proof fn lemma_corner(
    g: Talk,
    grid: GridView,
    rect: Rect,
    above: Seq<char>,
    left: Seq<char>,
    merges: CellsView,
)
    requires
        rect.len1 >= 1,
        rect.len2 >= 1,
        in_range(merges, rect),
    ensures
        g.outline_corner(grid, rect, above, left, merges).1 matches Ok(later) ==> {
            &&& in_range(later, rect)
            &&& prolongs(merges, later)
            &&& reached(grid, rect, later, rect.len1 - 1, rect.len2 - 1)
        },
{
    let n1 = (rect.len1 - 1) as usize;
    let n2 = (rect.len2 - 1) as usize;
    if n1 > 1 && n2 > 1 {
        if let Ok(sha1) = g.outline_vertex(grid, rect, above, left).1 {
            let later = merges.push((n1, n2, sha1));
            assert(later[merges.len() as int] == (n1, n2, sha1));
            assert(supplies(later, n1 as int, n2 as int));
        }
    } else {
        lemma_added(g, grid, rect, n1, above, n2, left, "..."@, true, merges);
    }
}

proof fn lemma_recorded(grid: GridView, rect: Rect, merges: CellsView)
    requires
        grid.wf(),
        rect.within(grid),
        in_range(merges, rect),
    ensures
        recorded(grid, rect, merges).wf(),
        grid.grows_to(recorded(grid, rect, merges)),
        grid.sound() ==> forall|n1: int, n2: int|
            supplies(merges, n1, n2) ==> #[trigger] recorded(grid, rect, merges).known(
                rect.origin1 + n1,
                rect.origin2 + n2,
            ),
    decreases merges.len(),
{
    if merges.len() > 0 {
        let front = merges.drop_last();
        let (m1, m2, sha1) = merges.last();
        let a1 = rect.origin1 + m1;
        let a2 = rect.origin2 + m2;
        assert(merges[merges.len() - 1] == merges.last());
        assert(in_range(front, rect)) by {
            assert forall|k: int| 0 <= k < front.len() implies (#[trigger] front[k]).0 < rect.len1
                && front[k].1 < rect.len2 by {
                assert(front[k] == merges[k]);
            }
        }
        lemma_recorded(grid, rect, front);
        let before = recorded(grid, rect, front);
        lemma_with_grows(before, a1, a2, sha1);
        let after = recorded(grid, rect, merges);
        assert forall|n1: int, n2: int|
            grid.sound() && supplies(merges, n1, n2) implies #[trigger] after.known(
            rect.origin1 + n1,
            rect.origin2 + n2,
        ) by {
            let k = choose|k: int|
                0 <= k < merges.len() && (#[trigger] merges[k]).0 == n1 && merges[k].1 == n2;
            if k < front.len() {
                assert(front[k] == merges[k]);
                assert(supplies(front, n1, n2));
                assert(before.known(rect.origin1 + n1, rect.origin2 + n2));
                assert(after.cell(rect.origin1 + n1, rect.origin2 + n2).known());
            }
        }
    }
}

/// A completed outline leaves no gap: once the merge results that complete the
/// outline of a window are recorded, every cell on its lower and on its right
/// edge is known. Nothing known is lost, and nothing manual is replaced.
pub proof fn law_outline_is_complete(g: Talk, grid: GridView, rect: Rect)
    requires
        grid.wf(),
        rect.within(grid),
        rect.len1 >= 1,
        rect.len2 >= 1,
        edges_known(grid, rect),
    ensures
        grid.grows_to(g.auto_outline(grid, rect).1),
        g.auto_outline(grid, rect).2 is Ok && grid.sound() ==> outline_known(
            g.auto_outline(grid, rect).1,
            rect,
        ),
        g.auto_outline(grid, rect).2 is Err ==> g.auto_outline(grid, rect).1 == grid,
        g.outline(grid, rect).1 matches Ok(merges) ==> in_range(merges, rect),
{
    let last1 = rect.origin1 + rect.len1 - 1;
    let last2 = rect.origin2 + rect.len2 - 1;
    let start = grid.commit(rect.origin1 as int, last2);
    let (g1, r1) = g.outline_lower(grid, rect, 1, start, Seq::empty());
    lemma_lower(g, grid, rect, 1, start, Seq::empty());
    if let Ok((left, m1)) = r1 {
        let start2 = grid.commit(last1, rect.origin2 as int);
        let (g2, r2) = g1.outline_right(grid, rect, 1, start2, m1);
        lemma_right(g1, grid, rect, 1, start2, m1);
        if let Ok((above, m2)) = r2 {
            lemma_corner(g2, grid, rect, above, left, m2);
            if let Ok(m3) = g2.outline_corner(grid, rect, above, left, m2).1 {
                lemma_recorded(grid, rect, m3);
                let after = recorded(grid, rect, m3);
                if grid.sound() {
                    assert forall|i: int| 0 <= i < rect.len1 implies #[trigger] after.known(
                        rect.origin1 + i,
                        last2,
                    ) by {
                        if i == 0 {
                            assert(grid.known(rect.origin1 as int, rect.origin2 + (rect.len2 - 1)));
                        } else if i < rect.len1 - 1 {
                            assert(reached(grid, rect, m1, i, rect.len2 - 1));
                            if supplies(m1, i, rect.len2 - 1) {
                                lemma_supplies(m1, m2, i, rect.len2 - 1);
                                lemma_supplies(m2, m3, i, rect.len2 - 1);
                            }
                        }
                        assert(reached(grid, rect, m3, i, rect.len2 - 1));
                        assert(rect.origin2 + (rect.len2 - 1) == last2);
                        lemma_reached(grid, rect, m3, i, rect.len2 - 1);
                    }
                    assert forall|i: int| 0 <= i < rect.len2 implies #[trigger] after.known(
                        last1,
                        rect.origin2 + i,
                    ) by {
                        if i == 0 {
                            assert(grid.known(rect.origin1 + (rect.len1 - 1), rect.origin2 as int));
                        } else if i < rect.len2 - 1 {
                            assert(reached(grid, rect, m2, rect.len1 - 1, i));
                            if supplies(m2, rect.len1 - 1, i) {
                                lemma_supplies(m2, m3, rect.len1 - 1, i);
                            }
                        }
                        assert(reached(grid, rect, m3, rect.len1 - 1, i));
                        assert(rect.origin1 + (rect.len1 - 1) == last1);
                        lemma_reached(grid, rect, m3, rect.len1 - 1, i);
                    }
                }
            }
        }
    }
}

proof fn lemma_reached(grid: GridView, rect: Rect, merges: CellsView, n1: int, n2: int)
    requires
        grid.wf(),
        grid.sound(),
        rect.within(grid),
        in_range(merges, rect),
        0 <= n1 < rect.len1,
        0 <= n2 < rect.len2,
        reached(grid, rect, merges, n1, n2),
    ensures
        recorded(grid, rect, merges).known(rect.origin1 + n1, rect.origin2 + n2),
{
    lemma_recorded(grid, rect, merges);
    let after = recorded(grid, rect, merges);
    if !supplies(merges, n1, n2) {
        assert(after.cell(rect.origin1 + n1, rect.origin2 + n2).known());
    }
}

} // verus!
