//! Working on an incremental merge: saving it, pushing its frontier forward, and
//! taking in the merges that the user makes.
use vstd::prelude::*;

use crate::block::{
    law_records_stay_consistent, lemma_grid_grows, Grid, GridView, MergeRecord, RecordView, Rect,
};
use crate::error::{failure, res, ErrorView, ImergeError};
use crate::expand::lemma_edges_stay;
use crate::fill::{coordinates, shown};
use crate::git::Git;
use crate::imerge::{
    check_no_merges, full_window, is_ready, lemma_stays_manual, lemma_stays_ready, scratch,
    scratch_refname, MergeState, MergeStateView,
};
use crate::known::{
    known_frontier, law_frontier_depends_on_entries, law_known_frontier_is_outlined,
    map_known_frontier, may_enter, same_entries,
};
use crate::state::{
    copied_goalopts, is_allowed_goal, is_goal, STATE_VERSION, StateDict, StateDictView,
};
use crate::store::law_save_keeps_the_cell;
use crate::strategy::{
    conflict_text, is_open, manual_text, neighbours_known, Frontier, FrontierView,
};
use crate::talk::{lemma_grows, lemma_learns_nothing, Talk, Told};
use crate::text::{cat2, cat3, cat4, cat5, cat7, debug_form, decimal, list2, number, quoted, same};

verus! {

broadcast use lemma_grows, lemma_learns_nothing, lemma_grid_grows;

/// What an operation on an incremental merge comes to: the exchange, the
/// incremental merge, and a value or an error.
pub type Worked<T> = (Talk, MergeStateView, Result<T, ErrorView>);

impl MergeStateView {
    /// The incremental merge with another grid.
    pub open spec fn with_grid(self, grid: GridView) -> MergeStateView {
        MergeStateView { grid, ..self }
    }
}

// ---------------------------------------------------------------------
// Saving
// ---------------------------------------------------------------------

/// The version of the state's format, as it is stored.
pub open spec fn version_text() -> Seq<char> {
    decimal(STATE_VERSION.0 as nat) + "."@ + decimal(STATE_VERSION.1 as nat) + "."@ + decimal(
        STATE_VERSION.2 as nat,
    )
}

/// What is stored of an incremental merge besides its commits.
pub open spec fn stored_state(s: MergeStateView, blockers: Seq<(usize, usize)>) -> StateDictView {
    StateDictView {
        version: version_text(),
        blockers,
        tip1: Some(s.tip1),
        tip2: Some(s.tip2),
        goal: s.goal,
        goalopts: s.goalopts,
        manual: s.manual,
        dedupe_patches: s.grid.dedupe_patches,
        branch: Some(s.branch),
    }
}

impl Talk {
    /// Saves one cell, if it has a merge result.
    pub open spec fn save_at(self, grid: GridView, i1: usize, i2: usize) -> (
        Talk,
        GridView,
        Result<(), ErrorView>,
    ) {
        let cell = grid.cell(i1 as int, i2 as int);
        if cell.known() {
            let (g, saved, r) = self.save_cell(cell, grid.name, i1, i2);
            (g, grid.with(i1 as int, i2 as int, saved), r)
        } else {
            (self, grid, Ok(()))
        }
    }

    /// Saves the cells from `(i1, i2)` on, column by column, and collects the
    /// blocked ones.
    pub open spec fn save_cells(
        self,
        grid: GridView,
        i1: usize,
        i2: usize,
        blockers: Seq<(usize, usize)>,
    ) -> (Talk, GridView, Result<Seq<(usize, usize)>, ErrorView>)
        decreases grid.len2 - i2, grid.len1 - i1,
    {
        if i2 >= grid.len2 {
            (self, grid, Ok(blockers))
        } else if i1 >= grid.len1 {
            self.save_cells(grid, 0, (i2 + 1) as usize, blockers)
        } else {
            match self.save_at(grid, i1, i2) {
                (g, grid, Err(e)) => (g, grid, Err(e)),
                (g, grid, Ok(_)) => g.save_cells(
                    grid,
                    (i1 + 1) as usize,
                    i2,
                    if grid.blocked(i1 as int, i2 as int) {
                        blockers.push((i1, i2))
                    } else {
                        blockers
                    },
                ),
            }
        }
    }

    /// See [`MergeState::save`].
    #[verifier::opaque]
    pub open spec fn save_imerge(self, s: MergeStateView) -> Worked<()> {
        match self.save_cells(s.grid, 0, 0, Seq::empty()) {
            (g, grid, Err(e)) => (g, s.with_grid(grid), Err(e)),
            (g, grid, Ok(blockers)) => {
                let (g, r) = g.write_imerge_state_dict(s.grid.name, stored_state(s, blockers));
                (g, s.with_grid(grid), r)
            },
        }
    }
}

/// `later` has the same merge results and marks as `grid`; only what is saved of
/// them may differ.
pub open spec fn same_results(grid: GridView, later: GridView) -> bool {
    &&& later.name == grid.name
    &&& later.len1 == grid.len1
    &&& later.len2 == grid.len2
    &&& later.dedupe_patches == grid.dedupe_patches
    &&& forall|i1: int, i2: int|
        grid.has(i1, i2) ==> same_result(grid.cell(i1, i2), #[trigger] later.cell(i1, i2))
}

/// Two cells hold the same merge result and mark.
pub open spec fn same_result(a: RecordView, b: RecordView) -> bool {
    a.sha1 == b.sha1 && a.blocked() == b.blocked() && a.manual() == b.manual()
}

pub(crate) proof fn lemma_save_at(g: Talk, grid: GridView, i1: usize, i2: usize)
    requires
        is_ready(grid),
        grid.has(i1 as int, i2 as int),
    ensures
        is_ready(g.save_at(grid, i1, i2).1),
        same_results(grid, g.save_at(grid, i1, i2).1),
{
    let cell = grid.cell(i1 as int, i2 as int);
    assert(cell.consistent());
    let (_, saved, _) = g.save_cell(cell, grid.name, i1, i2);
    law_save_keeps_the_cell(g, cell, grid.name, i1, i2);
    lemma_stays_ready(grid, i1 as int, i2 as int, saved);
    let later = grid.with(i1 as int, i2 as int, saved);
    assert(grid.cells[i1 as int].len() == grid.len2);
    assert forall|j1: int, j2: int| grid.has(j1, j2) implies same_result(
        grid.cell(j1, j2),
        #[trigger] later.cell(j1, j2),
    ) by {
        assert(grid.cells[j1].len() == grid.len2);
    }
}

proof fn lemma_same_results(a: GridView, b: GridView, c: GridView)
    requires
        same_results(a, b),
        same_results(b, c),
    ensures
        same_results(a, c),
{
    assert forall|i1: int, i2: int| a.has(i1, i2) implies same_result(
        a.cell(i1, i2),
        #[trigger] c.cell(i1, i2),
    ) by {
        assert(same_result(a.cell(i1, i2), b.cell(i1, i2)));
    }
}

/// Whether saving comes to `(j1, j2)` before it comes to `(i1, i2)`.
spec fn comes_first(j1: int, j2: int, i1: int, i2: int) -> bool {
    j2 < i2 || (j2 == i2 && j1 < i1)
}

/// `blockers` are the blocked cells that come before `(i1, i2)`.
spec fn lists_before(grid: GridView, blockers: Seq<(usize, usize)>, i1: int, i2: int) -> bool {
    &&& forall|j1: usize, j2: usize|
        #![trigger blockers.contains((j1, j2))]
        grid.has(j1 as int, j2 as int) ==> (blockers.contains((j1, j2)) <==> comes_first(
            j1 as int,
            j2 as int,
            i1,
            i2,
        ) && grid.blocked(j1 as int, j2 as int))
    &&& forall|k: int|
        0 <= k < blockers.len() ==> grid.has(
            (#[trigger] blockers[k]).0 as int,
            blockers[k].1 as int,
        )
}

/// Everything about the cell is saved, and nothing automatic is left beside a
/// manual merge.
pub open spec fn settled(r: RecordView) -> bool {
    &&& r.flags & MergeRecord::NEW == 0
    &&& r.manual() ==> r.flags & MergeRecord::AUTO == 0
}

/// The cells that come before `(i1, i2)` have nothing that is not saved.
spec fn saved_before(grid: GridView, i1: int, i2: int) -> bool {
    forall|j1: int, j2: int|
        grid.has(j1, j2) && comes_first(j1, j2, i1, i2) && grid.known(j1, j2) ==> settled(
            #[trigger] grid.cell(j1, j2),
        )
}

/// `blockers` are the blocked cells of the grid.
pub open spec fn lists_blockers(grid: GridView, blockers: Seq<(usize, usize)>) -> bool {
    &&& forall|j1: usize, j2: usize|
        #![trigger blockers.contains((j1, j2))]
        grid.has(j1 as int, j2 as int) ==> (blockers.contains((j1, j2)) <==> grid.blocked(
            j1 as int,
            j2 as int,
        ))
    &&& forall|k: int|
        0 <= k < blockers.len() ==> grid.has(
            (#[trigger] blockers[k]).0 as int,
            blockers[k].1 as int,
        )
}

/// No merge result of the grid is unsaved.
pub open spec fn is_saved(grid: GridView) -> bool {
    forall|j1: int, j2: int|
        grid.has(j1, j2) && grid.known(j1, j2) ==> settled(#[trigger] grid.cell(j1, j2))
}

proof fn lemma_save_cells(
    g: Talk,
    grid: GridView,
    i1: usize,
    i2: usize,
    blockers: Seq<(usize, usize)>,
)
    requires
        is_ready(grid),
        i1 <= grid.len1,
        lists_before(grid, blockers, i1 as int, i2 as int),
        saved_before(grid, i1 as int, i2 as int),
    ensures
        is_ready(g.save_cells(grid, i1, i2, blockers).1),
        same_results(grid, g.save_cells(grid, i1, i2, blockers).1),
        g.save_cells(grid, i1, i2, blockers).2 matches Ok(all) ==> lists_blockers(
            g.save_cells(grid, i1, i2, blockers).1,
            all,
        ) && is_saved(g.save_cells(grid, i1, i2, blockers).1),
    decreases grid.len2 - i2, grid.len1 - i1,
{
    if i2 >= grid.len2 {
        assert(lists_blockers(grid, blockers)) by {
            assert forall|j1: usize, j2: usize|
                #![trigger blockers.contains((j1, j2))]
                grid.has(j1 as int, j2 as int) implies (blockers.contains((j1, j2))
                <==> grid.blocked(j1 as int, j2 as int)) by {
                assert(comes_first(j1 as int, j2 as int, i1 as int, i2 as int));
            }
        }
        assert(is_saved(grid)) by {
            assert forall|j1: int, j2: int| grid.has(j1, j2) && grid.known(j1, j2) implies settled(
                #[trigger] grid.cell(j1, j2),
            ) by {
                assert(comes_first(j1, j2, i1 as int, i2 as int));
            }
        }
    } else if i1 >= grid.len1 {
        assert(lists_before(grid, blockers, 0, i2 + 1)) by {
            assert forall|j1: usize, j2: usize|
                #![trigger blockers.contains((j1, j2))]
                grid.has(j1 as int, j2 as int) implies (blockers.contains((j1, j2))
                <==> comes_first(j1 as int, j2 as int, 0, i2 + 1) && grid.blocked(
                j1 as int,
                j2 as int,
            )) by {
                assert(comes_first(j1 as int, j2 as int, 0, i2 + 1) == comes_first(
                    j1 as int,
                    j2 as int,
                    i1 as int,
                    i2 as int,
                ));
            }
        }
        lemma_save_cells(g, grid, 0, (i2 + 1) as usize, blockers);
    } else {
        let (g2, grid2, r) = g.save_at(grid, i1, i2);
        lemma_save_at(g, grid, i1, i2);
        if r is Ok {
            let cell = grid.cell(i1 as int, i2 as int);
            law_save_keeps_the_cell(g, cell, grid.name, i1, i2);
            assert(grid.cells[i1 as int].len() == grid.len2);
            let more = if grid2.blocked(i1 as int, i2 as int) {
                blockers.push((i1, i2))
            } else {
                blockers
            };
            assert forall|j1: int, j2: int|
                grid.has(j1, j2) && (j1 != i1 || j2 != i2) implies #[trigger] grid2.cell(j1, j2)
                == grid.cell(j1, j2) by {
                assert(grid.cells[j1].len() == grid.len2);
            }
            assert(lists_before(grid2, more, i1 + 1, i2 as int)) by {
                assert forall|j1: usize, j2: usize|
                    #![trigger more.contains((j1, j2))]
                    grid2.has(j1 as int, j2 as int) implies (more.contains((j1, j2))
                    <==> comes_first(j1 as int, j2 as int, i1 + 1, i2 as int) && grid2.blocked(
                    j1 as int,
                    j2 as int,
                )) by {
                    assert(blockers.contains((j1, j2)) <==> comes_first(
                        j1 as int,
                        j2 as int,
                        i1 as int,
                        i2 as int,
                    ) && grid.blocked(j1 as int, j2 as int));
                    lemma_pushed(blockers, (i1, i2), (j1, j2));
                    if j1 != i1 || j2 != i2 {
                        assert(grid2.cell(j1 as int, j2 as int) == grid.cell(
                            j1 as int,
                            j2 as int,
                        ));
                    }
                }
                assert forall|k: int| 0 <= k < more.len() implies grid2.has(
                    (#[trigger] more[k]).0 as int,
                    more[k].1 as int,
                ) by {
                    if k < blockers.len() {
                        assert(blockers[k] == more[k]);
                    }
                }
            }
            assert(saved_before(grid2, i1 + 1, i2 as int)) by {
                assert forall|j1: int, j2: int|
                    grid2.has(j1, j2) && comes_first(j1, j2, i1 + 1, i2 as int) && grid2.known(
                        j1,
                        j2,
                    ) implies settled(#[trigger] grid2.cell(j1, j2)) by {
                    if j1 != i1 || j2 != i2 {
                        assert(grid2.cell(j1, j2) == grid.cell(j1, j2));
                        assert(settled(grid.cell(j1, j2)));
                    }
                }
            }
            lemma_save_cells(g2, grid2, (i1 + 1) as usize, i2, more);
            lemma_same_results(
                grid,
                grid2,
                g2.save_cells(grid2, (i1 + 1) as usize, i2, more).1,
            );
        }
    }
}

proof fn lemma_pushed(list: Seq<(usize, usize)>, x: (usize, usize), y: (usize, usize))
    ensures
        list.push(x).contains(y) <==> list.contains(y) || x == y,
{
    if list.contains(y) {
        let k = choose|k: int| 0 <= k < list.len() && list[k] == y;
        assert(list.push(x)[k] == y);
    }
    assert(list.push(x)[list.len() as int] == x);
    if list.push(x).contains(y) && x != y {
        let k = choose|k: int| 0 <= k < list.push(x).len() && list.push(x)[k] == y;
        assert(list[k] == y);
    }
}

/// Saving changes no merge result and no mark. Once it has succeeded nothing is
/// unsaved, and the stored state names exactly the blocked cells.
pub proof fn law_save_is_complete(g: Talk, s: MergeStateView)
    requires
        s.wf(),
    ensures
        ({
            let (_, grid, r) = g.save_cells(s.grid, 0, 0, Seq::empty());
            &&& is_ready(grid)
            &&& same_results(s.grid, grid)
            &&& r matches Ok(blockers) ==> is_saved(grid) && lists_blockers(grid, blockers)
                && lists_blockers(s.grid, blockers)
        }),
{
    let none = Seq::<(usize, usize)>::empty();
    assert(lists_before(s.grid, none, 0, 0)) by {
        assert forall|j1: usize, j2: usize| #![trigger none.contains((j1, j2))] !none.contains(
            (j1, j2),
        ) by {}
    }
    assert(saved_before(s.grid, 0, 0));
    lemma_save_cells(g, s.grid, 0, 0, none);
    let (_, grid, r) = g.save_cells(s.grid, 0, 0, none);
    if let Ok(blockers) = r {
        assert forall|j1: usize, j2: usize|
            #![trigger blockers.contains((j1, j2))]
            s.grid.has(j1 as int, j2 as int) implies (blockers.contains((j1, j2))
            <==> s.grid.blocked(j1 as int, j2 as int)) by {
            assert(same_result(
                s.grid.cell(j1 as int, j2 as int),
                grid.cell(j1 as int, j2 as int),
            ));
        }
    }
}

fn save_cells(git: &mut Git, grid: &mut Grid) -> (r: Result<Vec<(usize, usize)>, ImergeError>)
    requires
        is_ready(old(grid)@),
    ensures
        (final(git)@, final(grid)@, res(r)) == old(git)@.save_cells(
            old(grid)@,
            0,
            0,
            Seq::empty(),
        ),
        old(git)@.grows_to(final(git)@),
        is_ready(final(grid)@),
        same_results(old(grid)@, final(grid)@),
        r matches Err(e) ==> e is Failure || e is Suspended,
{
    let name = grid.name.clone();
    let mut blockers: Vec<(usize, usize)> = Vec::new();
    let mut i2: usize = 0;
    let ghost whole = old(git)@.save_cells(old(grid)@, 0, 0, Seq::empty());
    assert(blockers.deep_view() =~= Seq::empty());
    while i2 < grid.len2
        invariant
            is_ready(grid@),
            same_results(old(grid)@, grid@),
            name@ == grid@.name,
            whole == old(git)@.save_cells(old(grid)@, 0, 0, Seq::empty()),
            whole == git@.save_cells(grid@, 0, i2, blockers.deep_view()),
            old(git)@.grows_to(git@),
        decreases grid@.len2 - i2,
    {
        let mut i1: usize = 0;
        while i1 < grid.len1
            invariant
                is_ready(grid@),
                same_results(old(grid)@, grid@),
                name@ == grid@.name,
                i2 < grid@.len2,
                i1 <= grid@.len1,
                whole == old(git)@.save_cells(old(grid)@, 0, 0, Seq::empty()),
                whole == git@.save_cells(grid@, i1, i2, blockers.deep_view()),
                old(git)@.grows_to(git@),
            decreases grid@.len1 - i1,
        {
            let ghost g0 = git@;
            let ghost before = grid@;
            let ghost marks = blockers.deep_view();
            proof {
                lemma_save_at(g0, before, i1, i2);
                lemma_same_results(old(grid)@, before, g0.save_at(before, i1, i2).1);
            }
            if grid.is_known(i1, i2) {
                grid.get_mut(i1, i2).save(git, &name, i1, i2)?;
            }
            assert((git@, grid@, Ok::<(), ErrorView>(())) == g0.save_at(before, i1, i2));
            if grid.is_blocked(i1, i2) {
                blockers.push((i1, i2));
                assert(blockers.deep_view() =~= marks.push((i1, i2)));
            }
            i1 += 1;
        }
        i2 += 1;
    }
    Ok(blockers)
}

impl MergeState {
    /// Saves the incremental merge: its new merge results to refs, and its state.
    pub fn save(&mut self, git: &mut Git) -> (r: Result<(), ImergeError>)
        requires
            old(self)@.wf(),
        ensures
            (final(git)@, final(self)@, res(r)) == old(git)@.save_imerge(old(self)@),
            old(git)@.grows_to(final(git)@),
            final(self)@.wf(),
            final(self)@ == old(self)@.with_grid(final(self)@.grid),
            same_results(old(self)@.grid, final(self)@.grid),
            r is Ok ==> is_saved(final(self)@.grid),
            r is Ok ==> final(git)@.remaining() < old(git)@.remaining(),
            r matches Err(e) ==> e is Failure || e is Suspended,
    {
        proof {
            law_save_is_complete(git@, self@);
            reveal(Talk::save_imerge);
        }
        let blockers = save_cells(git, &mut self.grid)?;
        let version = cat5(
            &number(STATE_VERSION.0 as usize),
            ".",
            &number(STATE_VERSION.1 as usize),
            ".",
            &number(STATE_VERSION.2 as usize),
        );
        let state = StateDict {
            version,
            blockers,
            tip1: Some(self.tip1.clone()),
            tip2: Some(self.tip2.clone()),
            goal: self.goal.clone(),
            goalopts: copied_goalopts(&self.goalopts),
            manual: self.manual,
            dedupe_patches: self.grid.dedupe_patches,
            branch: Some(self.branch.clone()),
        };
        let name = self.grid.name.clone();
        git.write_imerge_state_dict(&name, state)
    }
}

// ---------------------------------------------------------------------
// The frontier
// ---------------------------------------------------------------------

/// The frontier of an incremental merge, from what is known in its grid.
pub open spec fn frontier_of(s: MergeStateView) -> Result<FrontierView, ErrorView> {
    let full = full_window(s.grid);
    if s.manual {
        Ok(FrontierView::Manual(full))
    } else if s.goal == "full"@ {
        Ok(FrontierView::Full(full))
    } else {
        match known_frontier(s.grid, full) {
            Err(e) => Err(e),
            Ok((top, blocks)) => Ok(FrontierView::Blockwise { top, blocks }),
        }
    }
}

/// What the user is told about the merge `(i1, i2)` where nothing could be merged
/// automatically.
pub open spec fn stuck_text(i1: usize, i2: usize) -> Seq<char> {
    "No progress was possible; suggest manual merge of "@ + coordinates(i1 as int, i2 as int)
}

impl Talk {
    /// How many times the frontier is pushed forward with success, from `s` on,
    /// until a step or a save fails.
    pub open spec fn steps_made(self, s: MergeStateView) -> nat
        decreases self.remaining(),
    {
        match frontier_of(s) {
            Err(_) => 0,
            Ok(frontier) => {
                let (g, grid, result) = frontier.auto_expand(self, s.grid);
                if result is Err {
                    0
                } else {
                    1 + match g.save_imerge(s.with_grid(grid)) {
                        (h, t, Ok(_)) => if h.remaining() < self.remaining() {
                            h.steps_made(t)
                        } else {
                            0
                        },
                        _ => 0,
                    }
                }
            },
        }
    }

    /// Pushes the frontier forward step by step and saves after each step. If the
    /// first step already needs the user, the message says that no progress was
    /// possible.
    pub open spec fn complete_frontier(self, s: MergeStateView, progress: bool) -> Worked<()>
        decreases self.remaining(),
    {
        match frontier_of(s) {
            Err(e) => (self, s, Err(e)),
            Ok(frontier) => {
                let (g, grid, result) = frontier.auto_expand(self, s.grid);
                if result == Err::<(), ErrorView>(ErrorView::Suspended) {
                    (g, s.with_grid(grid), result)
                } else {
                    match g.save_imerge(s.with_grid(grid)) {
                        (g, s, Err(e)) => (g, s, Err(e)),
                        (g, s, Ok(_)) => match result {
                            Ok(_) => if g.remaining() < self.remaining() {
                                g.complete_frontier(s, true)
                            } else {
                                (g, s, Ok(()))
                            },
                            Err(ErrorView::BlockComplete) => (g, s, Ok(())),
                            Err(ErrorView::FrontierBlocked { i1, i2, msg }) => (
                                g,
                                s,
                                Err(
                                    ErrorView::FrontierBlocked {
                                        i1,
                                        i2,
                                        msg: if progress {
                                            msg
                                        } else {
                                            stuck_text(i1, i2)
                                        },
                                    },
                                ),
                            ),
                            Err(e) => (g, s, Err(e)),
                        },
                    }
                }
            },
        }
    }
}

/// Whether nothing is left to do in an incremental merge.
pub open spec fn is_finished(s: MergeStateView) -> Result<bool, ErrorView> {
    match frontier_of(s) {
        Err(e) => Err(e),
        Ok(f) => f.is_complete(s.grid),
    }
}

/// The three texts that ask for a merge are told apart by how they begin.
proof fn lemma_texts_differ(i1: usize, i2: usize)
    ensures
        stuck_text(i1, i2) != conflict_text(i1, i2),
        stuck_text(i1, i2) != manual_text(i1, i2),
{
    reveal_strlit("No progress was possible; suggest manual merge of ");
    reveal_strlit("Conflict; suggest manual merge of ");
    reveal_strlit("Manual merges requested; please merge ");
    assert(stuck_text(i1, i2)[0] == 'N');
    assert(conflict_text(i1, i2)[0] == 'C');
    assert(manual_text(i1, i2)[0] == 'M');
}

/// Where the frontier of `before` is complete in the grid of `expanded`, an
/// incremental merge with the same results is finished.
proof fn lemma_finished(before: MergeStateView, expanded: MergeStateView, after: MergeStateView)
    requires
        before.wf(),
        expanded == before.with_grid(expanded.grid),
        after == before.with_grid(after.grid),
        same_results(expanded.grid, after.grid),
        expanded.grid.len1 == before.grid.len1,
        expanded.grid.len2 == before.grid.len2,
        frontier_of(before) matches Ok(f) && f.is_complete(expanded.grid) == Ok::<bool, ErrorView>(
            true,
        ) && (f is Blockwise ==> expanded.grid == before.grid),
    ensures
        is_finished(after) == Ok::<bool, ErrorView>(true),
{
    let full = full_window(before.grid);
    let last1 = full.len1 - 1;
    let last2 = full.len2 - 1;
    assert(same_result(expanded.grid.cell(last1, last2), after.grid.cell(last1, last2)));
    if !before.manual && before.goal != "full"@ {
        assert(same_entries(before.grid, after.grid, full)) by {
            assert forall|i1: int, i2: int|
                0 <= i1 < full.len1 && 0 <= i2 < full.len2 implies #[trigger] may_enter(
                before.grid,
                full,
                i1,
                i2,
            ) == may_enter(after.grid, full, i1, i2) by {
                assert(same_result(before.grid.cell(i1, i2), after.grid.cell(i1, i2)));
            }
        }
        law_frontier_depends_on_entries(before.grid, after.grid, full);
    }
}

/// A grid that grows stays ready.
pub(crate) proof fn lemma_grown_ready(grid: GridView, later: GridView)
    requires
        is_ready(grid),
        grid.grows_to(later),
    ensures
        is_ready(later),
{
    lemma_edges_stay(grid, later, full_window(grid));
    assert forall|i: int| 0 <= i < later.len1 implies (#[trigger] later.cell(i, 0)).manual() by {
        assert(grid.cell(i, 0).manual());
    }
    assert forall|i: int| 0 <= i < later.len2 implies (#[trigger] later.cell(0, i)).manual() by {
        assert(grid.cell(0, i).manual());
    }
}

impl MergeState {
    /// The frontier of the incremental merge, from what is known in its grid.
    pub fn map_frontier(&self) -> (r: Result<Frontier, ImergeError>)
        requires
            self@.wf(),
        ensures
            res(r) == frontier_of(self@),
            r matches Ok(f) ==> f@.valid(self@.grid),
    {
        let full = Rect::full(self.grid.len1, self.grid.len2);
        if self.manual {
            Ok(Frontier::Manual(full))
        } else if same(&self.goal, "full") {
            Ok(Frontier::Full(full))
        } else {
            proof {
                law_known_frontier_is_outlined(self@.grid, full);
            }
            let (top, blocks) = map_known_frontier(&self.grid, full)?;
            assert(blocks.deep_view() =~= blocks@);
            Ok(Frontier::Blockwise { top, blocks })
        }
    }

    /// Merges automatically as far as possible, and saves after every step so
    /// that no progress is lost. That a merge needs the user is an error; its
    /// message says that no progress was possible exactly if no step succeeded.
    pub fn auto_complete_frontier(&mut self, git: &mut Git) -> (r: Result<(), ImergeError>)
        requires
            old(self)@.wf(),
        ensures
            (final(git)@, final(self)@, res(r)) == old(git)@.complete_frontier(old(self)@, false),
            old(git)@.grows_to(final(git)@),
            final(self)@.wf(),
            r is Ok ==> is_finished(final(self)@) == Ok::<bool, ErrorView>(true),
            r matches Err(ImergeError::FrontierBlocked { i1, i2, msg }) ==> {
                &&& msg@ == stuck_text(i1, i2) <==> old(git)@.steps_made(old(self)@) == 0
                &&& msg@ == stuck_text(i1, i2) || msg@ == conflict_text(i1, i2) || msg@
                    == manual_text(i1, i2)
            },
            r matches Err(ImergeError::FrontierBlocked { i1, i2, .. }) ==> is_open(
                final(self)@.grid,
                i1 as int,
                i2 as int,
            ) && neighbours_known(final(self)@.grid, i1 as int, i2 as int),
            r is Ok ==> is_saved(final(self)@.grid),
            r matches Err(ImergeError::FrontierBlocked { .. }) ==> is_saved(final(self)@.grid),
    {
        let mut progress = false;
        let ghost mut made: nat = 0;
        loop
            invariant
                self@.wf(),
                progress <==> made > 0,
                old(git)@.steps_made(old(self)@) == made + git@.steps_made(self@),
                old(git)@.grows_to(git@),
                old(git)@.complete_frontier(old(self)@, false) == git@.complete_frontier(
                    self@,
                    progress,
                ),
            decreases git@.remaining(),
        {
            let ghost g0 = git@;
            let ghost s0 = self@;
            let frontier = self.map_frontier()?;
            let result = frontier.auto_expand(git, &mut self.grid);
            proof {
                lemma_grown_ready(s0.grid, self@.grid);
            }
            let ghost s1 = self@;
            if let Err(ImergeError::Suspended) = result {
                return result;
            }
            self.save(git)?;
            match result {
                Ok(()) => {
                    progress = true;
                    proof {
                        made = made + 1;
                    }
                },
                Err(ImergeError::BlockComplete) => {
                    proof {
                        lemma_finished(s0, s1, self@);
                    }
                    return Ok(());
                },
                Err(ImergeError::FrontierBlocked { i1, i2, msg }) => {
                    assert(same_result(
                        s1.grid.cell(i1 as int, i2 as int),
                        self@.grid.cell(i1 as int, i2 as int),
                    ));
                    assert(same_result(
                        s1.grid.cell(i1 - 1, i2 as int),
                        self@.grid.cell(i1 - 1, i2 as int),
                    ));
                    assert(same_result(
                        s1.grid.cell(i1 as int, i2 - 1),
                        self@.grid.cell(i1 as int, i2 - 1),
                    ));
                    proof {
                        lemma_texts_differ(i1, i2);
                    }
                    let msg = if progress {
                        msg
                    } else {
                        cat2(
                            "No progress was possible; suggest manual merge of ",
                            &shown(i1, i2),
                        )
                    };
                    return Err(ImergeError::FrontierBlocked { i1, i2, msg });
                },
                Err(e) => {
                    return Err(e);
                },
            }
        }
    }
}

// ---------------------------------------------------------------------
// Merges by the user
// ---------------------------------------------------------------------

/// The first cell from `(i1, i2)` on, column by column, with this merge result.
pub open spec fn index_of(grid: GridView, commit: Seq<char>, i1: int, i2: int) -> Option<
    (usize, usize),
>
    decreases grid.len2 - i2, grid.len1 - i1,
{
    if i2 >= grid.len2 {
        None
    } else if i1 >= grid.len1 {
        index_of(grid, commit, 0, i2 + 1)
    } else if grid.cell(i1, i2).sha1 == Some(commit) {
        Some((i1 as usize, i2 as usize))
    } else {
        index_of(grid, commit, i1 + 1, i2)
    }
}

/// The error for a manual merge that cannot be used.
pub open spec fn unusable(commit: Seq<char>, msg: Seq<char>) -> ErrorView {
    ErrorView::ManualMergeUnusable { commit, msg }
}

/// The cell that a merge of these two parents belongs to, and whether the parents
/// stand in the wrong order. The parents have to be merge results of cells that
/// touch at a corner.
pub open spec fn merge_place(grid: GridView, commit: Seq<char>, parents: Seq<Seq<char>>) -> Result<
    (usize, usize, bool),
    ErrorView,
> {
    if parents.len() < 2 {
        Err(unusable(commit, "it is not a merge"@))
    } else if parents.len() > 2 {
        Err(unusable(commit, "it is an octopus merge"@))
    } else {
        match (index_of(grid, parents[0], 0, 0), index_of(grid, parents[1], 0, 0)) {
            (Some(first), Some(second)) => {
                let swapped = first.0 < second.0;
                let (low, high) = if swapped {
                    (second, first)
                } else {
                    (first, second)
                };
                if low.0 == high.0 + 1 && low.1 + 1 == high.1 {
                    Ok((low.0, high.1, swapped))
                } else {
                    Err(unusable(commit, "it is not a pairwise merge of adjacent parents"@))
                }
            },
            _ => Err(unusable(commit, "its parents are not known merge commits"@)),
        }
    }
}

/// The text for a scratch ref that is in the way.
pub open spec fn scratch_in_the_way(refname: Seq<char>) -> Seq<char> {
    "The scratch reference, "@ + refname
        + ", already exists but is not\nchecked out.  If it points to a merge commit that you would like\nto use, please check it out using\n\n    git checkout "@
        + refname
        + "\n\nand then try to continue again.  If it points to a commit that is\nunneeded, then please delete the reference using\n\n    git update-ref -d "@
        + refname + "\n\nand then continue."@
}

/// An error that does not matter: only waiting for a reply goes on.
pub open spec fn forgiven(told: Told<()>) -> Told<()> {
    match told {
        (g, Err(ErrorView::Suspended)) => (g, Err(ErrorView::Suspended)),
        (g, _) => (g, Ok(())),
    }
}

/// Drops an error that does not matter. Only waiting for a reply goes on.
fn forgive(r: Result<(), ImergeError>) -> (s: Result<(), ImergeError>)
    ensures
        forall|g: Talk| (g, res(s)) == #[trigger] forgiven((g, res(r))),
{
    match r {
        Err(ImergeError::Suspended) => Err(ImergeError::Suspended),
        _ => Ok(()),
    }
}

impl Talk {
    /// See [`MergeState::request_user_merge`].
    pub open spec fn request_user_merge(self, s: MergeStateView, i1: usize, i2: usize) -> Told<()> {
        let name = s.grid.name;
        let shown = coordinates(i1 as int, i2 as int);
        let refname = scratch(name);
        match (s.grid.cell(i1 as int, i2 - 1).sha1, s.grid.cell(i1 - 1, i2 as int).sha1) {
            (Some(above), Some(left)) => match self.update_ref(
                refname,
                above,
                "imerge '"@ + name + "': Prepare merge "@ + shown,
                true,
            ) {
                (g, Err(e)) => (g, Err(e)),
                (g, Ok(_)) => match g.checkout(refname, false) {
                    (g, Err(e)) => (g, Err(e)),
                    (g, Ok(_)) => match forgiven(
                        g.manualmerge(left, "imerge '"@ + name + "': manual merge "@ + shown),
                    ) {
                        (g, Err(e)) => (g, Err(e)),
                        (g, Ok(_)) => match g.note(
                            "\nOriginal first commit:"@,
                        ).summarize_commit(s.grid.commit(i1 as int, 0)) {
                            (g, Err(e)) => (g, Err(e)),
                            (g, Ok(_)) => match g.note(
                                "\nOriginal second commit:"@,
                            ).summarize_commit(s.grid.commit(0, i2 as int)) {
                                (g, Err(e)) => (g, Err(e)),
                                (g, Ok(_)) => (
                                    g.note(
                                        "\nThere was a conflict merging commit "@ + shown
                                            + ", shown above.\nPlease resolve the conflict, commit the result, then type\n\n    git-imerge continue\n"@,
                                    ),
                                    Ok(()),
                                ),
                            },
                        },
                    },
                },
            },
            _ => (
                self,
                Err(ErrorView::Failure("The parents of merge "@ + shown + " are not ready"@)),
            ),
        }
    }

    /// The commit itself, or one like it with its two parents in the other order.
    pub open spec fn ordered(self, commit: Seq<char>, parents: Seq<Seq<char>>, swapped: bool) -> Told<
        Seq<char>,
    > {
        if swapped {
            self.reparent(commit, seq![parents[1], parents[0]], None)
        } else {
            (self, Ok(commit))
        }
    }

    /// See [`MergeState::incorporate_manual_merge`].
    pub open spec fn incorporate_manual_merge(self, s: MergeStateView, commit: Seq<char>) -> Worked<
        (usize, usize),
    > {
        match self.get_commit_parents(commit) {
            (g, Err(e)) => (g, s, Err(e)),
            (g, Ok(parents)) => match merge_place(s.grid, commit, parents) {
                Err(e) => (g, s, Err(e)),
                Ok((i1, i2, swapped)) => match g.ordered(commit, parents, swapped) {
                    (g, Err(e)) => (g, s, Err(e)),
                    (g, Ok(sha1)) => (
                        g,
                        s.with_grid(
                            s.grid.with(
                                i1 as int,
                                i2 as int,
                                s.grid.cell(i1 as int, i2 as int).merged(
                                    sha1,
                                    MergeRecord::NEW_MANUAL,
                                ),
                            ),
                        ),
                        Ok((i1, i2)),
                    ),
                },
            },
        }
    }

    /// The commit on the scratch ref, which has to be checked out.
    pub open spec fn scratch_commit(self, s: MergeStateView) -> Told<Seq<char>> {
        let refname = scratch(s.grid.name);
        match self.get_commit_sha1(refname) {
            (g, Err(ErrorView::Suspended)) => (g, Err(ErrorView::Suspended)),
            (g, Err(_)) => (
                g,
                Err(ErrorView::NoManualMerge("Reference "@ + refname + " does not exist."@)),
            ),
            (g, Ok(commit)) => match g.get_head_refname(false) {
                (g, Err(e)) => (g, Err(e)),
                (g, Ok(None)) => (
                    g,
                    Err(ErrorView::NoManualMerge("HEAD is currently detached."@)),
                ),
                (g, Ok(Some(head))) => if head == refname {
                    (g, Ok(commit))
                } else if index_of(s.grid, commit, 0, 0) is None {
                    (g, Err(ErrorView::Failure(scratch_in_the_way(refname))))
                } else {
                    match g.delete_ref(
                        refname,
                        "imerge '"@ + s.grid.name + "': Remove obsolete scratch reference"@,
                    ) {
                        (g, Err(e)) => (g, Err(e)),
                        (g, Ok(_)) => (
                            g.note(
                                refname + " did not point to a new merge; it has been deleted."@,
                            ),
                            Err(
                                ErrorView::NoManualMerge(
                                    "Reference "@ + refname + " was not checked out."@,
                                ),
                            ),
                        ),
                    }
                },
            },
        }
    }

    /// The commit that the user has made on the scratch ref. If the user left a
    /// resolved merge uncommitted, it is committed.
    pub open spec fn user_commit(self, s: MergeStateView, edit_log_msg: Option<bool>) -> Told<
        Seq<char>,
    > {
        match self.scratch_commit(s) {
            (g, Err(e)) => (g, Err(e)),
            (g, Ok(commit)) => match g.commit_user_merge(edit_log_msg) {
                (g, Err(e)) => (g, Err(e)),
                (g, Ok(made)) => {
                    let (g, found) = if made {
                        g.get_commit_sha1("HEAD"@)
                    } else {
                        (g, Ok(commit))
                    };
                    match found {
                        Err(e) => (g, Err(e)),
                        Ok(commit) => match g.require_clean_work_tree("proceed"@) {
                            (g, Err(e)) => (g, Err(e)),
                            (g, Ok(_)) => (g, Ok(commit)),
                        },
                    }
                },
            },
        }
    }

    /// Leaves and deletes the scratch ref.
    pub open spec fn drop_scratch(self, name: Seq<char>) -> Told<()> {
        match self.detach("Detach HEAD from "@ + scratch(name)) {
            (g, Err(e)) => (g, Err(e)),
            (g, Ok(_)) => g.delete_ref(
                scratch(name),
                "imerge '"@ + name + "': remove scratch reference"@,
            ),
        }
    }

    /// See [`MergeState::incorporate_user_merge`].
    #[verifier::opaque]
    pub open spec fn incorporate_user_merge(
        self,
        s: MergeStateView,
        edit_log_msg: Option<bool>,
    ) -> Worked<()> {
        match self.user_commit(s, edit_log_msg) {
            (g, Err(e)) => (g, s, Err(e)),
            (g, Ok(commit)) => match g.incorporate_manual_merge(s, commit) {
                (g, s, Err(e)) => (g, s, Err(e)),
                (g, s, Ok((i1, i2))) => match g.drop_scratch(s.grid.name) {
                    (g, Err(e)) => (g, s, Err(e)),
                    (g, Ok(_)) => match frontier_of(s) {
                        Err(e) => (g, s, Err(e)),
                        Ok(frontier) => g.settle(
                            s,
                            frontier.unblocks(s.grid, i1, i2),
                            i1,
                            i2,
                        ),
                    },
                },
            },
        }
    }

    /// Takes the mark off the cell that the user has merged, if it had blocked
    /// the frontier, and saves.
    pub open spec fn settle(
        self,
        s: MergeStateView,
        unblocked: Result<(usize, usize), ErrorView>,
        i1: usize,
        i2: usize,
    ) -> Worked<()> {
        match unblocked {
            Err(e) => match self.save_imerge(s) {
                (g, s, Err(e2)) => (g, s, Err(e2)),
                (g, s, Ok(_)) => (g, s, Err(e)),
            },
            Ok((a1, a2)) => self.note(
                "Merge has been recorded for merge "@ + coordinates(i1 as int, i2 as int) + "."@,
            ).save_imerge(
                s.with_grid(
                    s.grid.with(
                        a1 as int,
                        a2 as int,
                        s.grid.cell(a1 as int, a2 as int).marked(false),
                    ),
                ),
            ),
        }
    }

    /// See [`MergeState::set_goal`].
    pub open spec fn set_goal(self, s: MergeStateView, goal: Seq<char>) -> Worked<()> {
        if !is_goal(goal) {
            (
                self,
                s,
                Err(ErrorView::Failure(debug_form(goal) + " is not an allowed goal"@)),
            )
        } else {
            let (g, checked) = if goal == "rebase"@ {
                self.check_no_merges(second_branch(s.grid))
            } else {
                (self, Ok(()))
            };
            match checked {
                Err(e) => (g, s, Err(e)),
                Ok(_) => (g, MergeStateView { goal, ..s }, Ok(())),
            }
        }
    }

    /// Leaves the scratch ref, if it is checked out.
    pub open spec fn leave_scratch(self, name: Seq<char>) -> Told<()> {
        match self.get_head_refname(false) {
            (g, Err(e)) => (g, Err(e)),
            (g, Ok(head)) => if head == Some(scratch(name)) {
                match forgiven(g.abort_merge()) {
                    (g, Err(e)) => (g, Err(e)),
                    (g, Ok(_)) => g.detach("Detach HEAD from "@ + scratch(name)),
                }
            } else {
                (g, Ok(()))
            },
        }
    }

    /// See [`MergeState::remove`].
    pub open spec fn remove_imerge(self, name: Seq<char>) -> Told<()> {
        match self.leave_scratch(name) {
            (g, Err(e)) => (g, Err(e)),
            (g, Ok(_)) => match forgiven(
                g.delete_ref(scratch(name), "imerge "@ + name + ": remove scratch reference"@),
            ) {
                (g, Err(e)) => (g, Err(e)),
                (g, Ok(_)) => match g.delete_imerge_refs(name) {
                    (g, Err(e)) => (g, Err(e)),
                    (g, Ok(_)) => match g.get_default_imerge_name() {
                        (g, Err(e)) => (g, Err(e)),
                        (g, Ok(default)) => if default == Some(name) {
                            g.set_default_imerge_name(None)
                        } else {
                            (g, Ok(()))
                        },
                    },
                },
            },
        }
    }
}

/// The commits of the second branch.
pub open spec fn second_branch(grid: GridView) -> Seq<Seq<char>> {
    Seq::new((grid.len2 - 1) as nat, |i: int| grid.commit(0, i + 1))
}

/// The cell found is one of the grid.
proof fn lemma_index_of(grid: GridView, commit: Seq<char>, i1: int, i2: int)
    requires
        0 <= i1,
        0 <= i2,
    ensures
        index_of(grid, commit, i1, i2) matches Some((a1, a2)) ==> grid.has(a1 as int, a2 as int)
            && grid.cell(a1 as int, a2 as int).sha1 == Some(commit),
    decreases grid.len2 - i2, grid.len1 - i1,
{
    if i2 < grid.len2 {
        if i1 >= grid.len1 {
            lemma_index_of(grid, commit, 0, i2 + 1);
        } else if grid.cell(i1, i2).sha1 != Some(commit) {
            lemma_index_of(grid, commit, i1 + 1, i2);
        }
    }
}

/// The cell of a merge by the user lies off the edges of the grid, and its
/// parents are the merge results above it and to its left.
pub proof fn law_merge_place(grid: GridView, commit: Seq<char>, parents: Seq<Seq<char>>)
    ensures
        merge_place(grid, commit, parents) matches Ok((i1, i2, swapped)) ==> {
            let above = if swapped {
                parents[1]
            } else {
                parents[0]
            };
            let left = if swapped {
                parents[0]
            } else {
                parents[1]
            };
            &&& 1 <= i1 < grid.len1
            &&& 1 <= i2 < grid.len2
            &&& grid.cell(i1 as int, i2 - 1).sha1 == Some(above)
            &&& grid.cell(i1 - 1, i2 as int).sha1 == Some(left)
        },
{
    if parents.len() == 2 {
        lemma_index_of(grid, parents[0], 0, 0);
        lemma_index_of(grid, parents[1], 0, 0);
    }
}

impl MergeState {
    /// The first cell, column by column, whose merge result is `commit`.
    pub fn find_index(&self, commit: &str) -> (r: Result<(usize, usize), ImergeError>)
        requires
            self@.grid.wf(),
        ensures
            res(r) == (match index_of(self@.grid, commit@, 0, 0) {
                Some(at) => Ok(at),
                None => Err(ErrorView::CommitNotFound(commit@)),
            }),
    {
        let mut i2: usize = 0;
        while i2 < self.grid.len2
            invariant
                self@.grid.wf(),
                index_of(self@.grid, commit@, 0, 0) == index_of(
                    self@.grid,
                    commit@,
                    0,
                    i2 as int,
                ),
            decreases self.grid.len2 - i2,
        {
            let mut i1: usize = 0;
            while i1 < self.grid.len1
                invariant
                    self@.grid.wf(),
                    i2 < self.grid.len2,
                    index_of(self@.grid, commit@, 0, 0) == index_of(
                        self@.grid,
                        commit@,
                        i1 as int,
                        i2 as int,
                    ),
                decreases self.grid.len1 - i1,
            {
                if let Some(sha1) = &self.grid.get(i1, i2).sha1 {
                    if same(sha1, commit) {
                        return Ok((i1, i2));
                    }
                }
                i1 += 1;
            }
            i2 += 1;
        }
        Err(ImergeError::CommitNotFound(commit.to_owned()))
    }

    /// Prepares the work tree for the user to make the merge `(i1, i2)`. The
    /// merges above it and to its left have to be known.
    pub fn request_user_merge(&self, git: &mut Git, i1: usize, i2: usize) -> (r: Result<
        (),
        ImergeError,
    >)
        requires
            self@.wf(),
            1 <= i1 < self@.grid.len1,
            1 <= i2 < self@.grid.len2,
        ensures
            (final(git)@, res(r)) == old(git)@.request_user_merge(self@, i1, i2),
            old(git)@.grows_to(final(git)@),
    {
        let at = shown(i1, i2);
        let (above, left) = match (
            &self.grid.get(i1, i2 - 1).sha1,
            &self.grid.get(i1 - 1, i2).sha1,
        ) {
            (Some(above), Some(left)) => (above.clone(), left.clone()),
            _ => {
                return failure(&cat3("The parents of merge ", &at, " are not ready"));
            },
        };
        let refname = scratch_refname(&self.grid.name);
        let msg = cat4("imerge '", &self.grid.name, "': Prepare merge ", &at);
        git.update_ref(&refname, &above, &msg, true)?;
        git.checkout(&refname, false)?;
        let msg = cat4("imerge '", &self.grid.name, "': manual merge ", &at);
        forgive(git.manualmerge(&left, &msg))?;
        let ghost full = full_window(self@.grid);
        assert(self@.grid.known(full.origin1 + i1, full.origin2 as int));
        assert(self@.grid.known(full.origin1 as int, full.origin2 + i2));
        git.note("\nOriginal first commit:");
        git.summarize_commit(&crate::fill::commit_of(&self.grid, i1, 0))?;
        git.note("\nOriginal second commit:");
        git.summarize_commit(&crate::fill::commit_of(&self.grid, 0, i2))?;
        git.note(
            &cat3(
                "\nThere was a conflict merging commit ",
                &at,
                ", shown above.\nPlease resolve the conflict, commit the result, then type\n\n    git-imerge continue\n",
            ),
        );
        Ok(())
    }

    /// The cell that a merge of these parents belongs to.
    fn merge_place(&self, commit: &str, parents: &Vec<String>) -> (r: Result<
        (usize, usize, bool),
        ImergeError,
    >)
        requires
            self@.grid.wf(),
        ensures
            res(r) == merge_place(self@.grid, commit@, parents.deep_view()),
    {
        let ghost p = parents.deep_view();
        if parents.len() < 2 {
            return Err(
                ImergeError::ManualMergeUnusable {
                    commit: commit.to_owned(),
                    msg: "it is not a merge".to_owned(),
                },
            );
        }
        if parents.len() > 2 {
            return Err(
                ImergeError::ManualMergeUnusable {
                    commit: commit.to_owned(),
                    msg: "it is an octopus merge".to_owned(),
                },
            );
        }
        assert(p[0] == parents[0]@ && p[1] == parents[1]@);
        let (first, second) = match (
            self.find_index(&parents[0]),
            self.find_index(&parents[1]),
        ) {
            (Ok(first), Ok(second)) => (first, second),
            _ => {
                return Err(
                    ImergeError::ManualMergeUnusable {
                        commit: commit.to_owned(),
                        msg: "its parents are not known merge commits".to_owned(),
                    },
                );
            },
        };
        let swapped = first.0 < second.0;
        let (low, high) = if swapped {
            (second, first)
        } else {
            (first, second)
        };
        proof {
            lemma_index_of(self@.grid, p[0], 0, 0);
            lemma_index_of(self@.grid, p[1], 0, 0);
        }
        if low.0 == high.0 + 1 && low.1 + 1 == high.1 {
            Ok((low.0, high.1, swapped))
        } else {
            Err(
                ImergeError::ManualMergeUnusable {
                    commit: commit.to_owned(),
                    msg: "it is not a pairwise merge of adjacent parents".to_owned(),
                },
            )
        }
    }

    /// Records a merge that the user has made. Its two parents have to be merge
    /// results of cells that touch at a corner; if they stand in the wrong order,
    /// a commit with the right order takes its place.
    pub fn incorporate_manual_merge(&mut self, git: &mut Git, commit: &str) -> (r: Result<
        (usize, usize),
        ImergeError,
    >)
        requires
            old(self)@.wf(),
        ensures
            (final(git)@, final(self)@, res(r)) == old(git)@.incorporate_manual_merge(
                old(self)@,
                commit@,
            ),
            old(git)@.grows_to(final(git)@),
            final(self)@.wf(),
            r matches Ok((i1, i2)) ==> final(self)@.grid.has(i1 as int, i2 as int) && final(
                self)@.grid.cell(i1 as int, i2 as int).manual(),
    {
        let parents = git.get_commit_parents(commit)?;
        let ghost p = parents.deep_view();
        let (i1, i2, swapped) = self.merge_place(commit, &parents)?;
        let sha1 = if swapped {
            assert(p[0] == parents[0]@ && p[1] == parents[1]@);
            git.reparent(commit, &list2(&parents[1], &parents[0]), None)?
        } else {
            commit.to_owned()
        };
        proof {
            law_merge_place(self@.grid, commit@, p);
            let cell = self@.grid.cell(i1 as int, i2 as int);
            let f = cell.flags;
            assert(cell.consistent());
            law_records_stay_consistent(cell, sha1@, MergeRecord::NEW_MANUAL, false);
            lemma_stays_manual(cell, sha1@, MergeRecord::NEW_MANUAL, false);
            lemma_stays_ready(
                self@.grid,
                i1 as int,
                i2 as int,
                cell.merged(sha1@, MergeRecord::NEW_MANUAL),
            );
            assert(self@.grid.cells[i1 as int].len() == self@.grid.len2);
            assert(((f | 8) & 0xfd) & 0x0c != 0) by (bit_vector);
        }
        self.grid.get_mut(i1, i2).record_merge(&sha1, MergeRecord::NEW_MANUAL);
        Ok((i1, i2))
    }

    /// The commit on the scratch ref.
    fn scratch_commit(&self, git: &mut Git) -> (r: Result<String, ImergeError>)
        requires
            self@.grid.wf(),
        ensures
            (final(git)@, res(r)) == old(git)@.scratch_commit(self@),
            old(git)@.grows_to(final(git)@),
    {
        let refname = scratch_refname(&self.grid.name);
        let commit = match git.get_commit_sha1(&refname) {
            Ok(commit) => commit,
            Err(ImergeError::Suspended) => {
                return Err(ImergeError::Suspended);
            },
            Err(_) => {
                return Err(
                    ImergeError::NoManualMerge(
                        cat3("Reference ", &refname, " does not exist."),
                    ),
                );
            },
        };
        match git.get_head_refname(false)? {
            None => Err(ImergeError::NoManualMerge("HEAD is currently detached.".to_owned())),
            Some(head) => {
                if same(&head, &refname) {
                    return Ok(commit);
                }
                if self.find_index(&commit).is_err() {
                    return failure(
                        &cat7(
                            "The scratch reference, ",
                            &refname,
                            ", already exists but is not\nchecked out.  If it points to a merge commit that you would like\nto use, please check it out using\n\n    git checkout ",
                            &refname,
                            "\n\nand then try to continue again.  If it points to a commit that is\nunneeded, then please delete the reference using\n\n    git update-ref -d ",
                            &refname,
                            "\n\nand then continue.",
                        ),
                    );
                }
                let msg = cat3(
                    "imerge '",
                    &self.grid.name,
                    "': Remove obsolete scratch reference",
                );
                git.delete_ref(&refname, &msg)?;
                git.note(
                    &cat2(&refname, " did not point to a new merge; it has been deleted."),
                );
                Err(
                    ImergeError::NoManualMerge(
                        cat3("Reference ", &refname, " was not checked out."),
                    ),
                )
            },
        }
    }

    /// The commit that the user has made on the scratch ref.
    fn user_commit(&self, git: &mut Git, edit_log_msg: Option<bool>) -> (r: Result<
        String,
        ImergeError,
    >)
        requires
            self@.grid.wf(),
        ensures
            (final(git)@, res(r)) == old(git)@.user_commit(self@, edit_log_msg),
            old(git)@.grows_to(final(git)@),
    {
        let mut commit = self.scratch_commit(git)?;
        if git.commit_user_merge(edit_log_msg)? {
            commit = git.get_commit_sha1("HEAD")?;
        }
        git.require_clean_work_tree("proceed")?;
        Ok(commit)
    }

    /// Leaves and deletes the scratch ref.
    fn drop_scratch(&self, git: &mut Git) -> (r: Result<(), ImergeError>)
        ensures
            (final(git)@, res(r)) == old(git)@.drop_scratch(self@.grid.name),
            old(git)@.grows_to(final(git)@),
    {
        let refname = scratch_refname(&self.grid.name);
        git.detach(&cat2("Detach HEAD from ", &refname))?;
        let msg = cat3("imerge '", &self.grid.name, "': remove scratch reference");
        git.delete_ref(&refname, &msg)
    }

    /// Takes the mark off the cell that the user has merged, and saves.
    fn settle(&mut self, git: &mut Git, frontier: &Frontier, i1: usize, i2: usize) -> (r: Result<
        (),
        ImergeError,
    >)
        requires
            old(self)@.wf(),
            frontier@.placed(old(self)@.grid),
        ensures
            (final(git)@, final(self)@, res(r)) == old(git)@.settle(
                old(self)@,
                frontier@.unblocks(old(self)@.grid, i1, i2),
                i1,
                i2,
            ),
            old(git)@.grows_to(final(git)@),
            final(self)@.wf(),
    {
        let ghost before = self@.grid;
        let result = frontier.incorporate_merge(&mut self.grid, i1, i2);
        proof {
            if let Ok((a1, a2)) = frontier@.unblocks(before, i1, i2) {
                crate::strategy::lemma_unblocks(frontier@, before, i1, i2);
                let cell = before.cell(a1 as int, a2 as int);
                assert(cell.consistent());
                law_records_stay_consistent(cell, Seq::empty(), MergeRecord::NEW_AUTO, false);
                lemma_stays_manual(cell, Seq::empty(), MergeRecord::NEW_AUTO, false);
                lemma_stays_ready(before, a1 as int, a2 as int, cell.marked(false));
            }
        }
        if result.is_ok() {
            git.note(&cat3("Merge has been recorded for merge ", &shown(i1, i2), "."));
        }
        self.save(git)?;
        result
    }

    /// Takes in the merge that the user was asked for, if it has been made.
    pub fn incorporate_user_merge(&mut self, git: &mut Git, edit_log_msg: Option<bool>) -> (r:
        Result<(), ImergeError>)
        requires
            old(self)@.wf(),
        ensures
            (final(git)@, final(self)@, res(r)) == old(git)@.incorporate_user_merge(
                old(self)@,
                edit_log_msg,
            ),
            old(git)@.grows_to(final(git)@),
            final(self)@.wf(),
    {
        proof {
            reveal(Talk::incorporate_user_merge);
        }
        let commit = self.user_commit(git, edit_log_msg)?;
        let (i1, i2) = self.incorporate_manual_merge(git, &commit)?;
        self.drop_scratch(git)?;
        let frontier = self.map_frontier()?;
        self.settle(git, &frontier, i1, i2)
    }

    /// Sets what the incremental merge is for. A branch with merge commits cannot
    /// be rebased.
    pub fn set_goal(&mut self, git: &mut Git, goal: &str) -> (r: Result<(), ImergeError>)
        requires
            old(self)@.wf(),
        ensures
            (final(git)@, final(self)@, res(r)) == old(git)@.set_goal(old(self)@, goal@),
            old(git)@.grows_to(final(git)@),
            final(self)@.wf(),
    {
        if !is_allowed_goal(goal) {
            return failure(&cat2(&quoted(goal), " is not an allowed goal"));
        }
        if same(goal, "rebase") {
            let mut commits: Vec<String> = Vec::new();
            let mut i2: usize = 1;
            while i2 < self.grid.len2
                invariant
                    1 <= i2 <= self@.grid.len2,
                    self@.wf(),
                    commits.len() == i2 - 1,
                    forall|k: int|
                        0 <= k < commits.len() ==> (#[trigger] commits[k])@ == self@.grid.commit(
                            0,
                            k + 1,
                        ),
                decreases self.grid.len2 - i2,
            {
                let ghost full = full_window(self@.grid);
                assert(self@.grid.known(full.origin1 as int, full.origin2 + i2));
                commits.push(crate::fill::commit_of(&self.grid, 0, i2));
                i2 += 1;
            }
            assert(commits.deep_view() =~= second_branch(self@.grid));
            check_no_merges(git, &commits)?;
        }
        self.goal = goal.to_owned();
        Ok(())
    }

    /// Removes the incremental merge `name` with all of its refs.
    pub fn remove(git: &mut Git, name: &str) -> (r: Result<(), ImergeError>)
        ensures
            (final(git)@, res(r)) == old(git)@.remove_imerge(name@),
            old(git)@.grows_to(final(git)@),
    {
        let refname = scratch_refname(name);
        let on_scratch = match git.get_head_refname(false)? {
            Some(head) => same(&head, &refname),
            None => false,
        };
        if on_scratch {
            forgive(git.abort_merge())?;
            git.detach(&cat2("Detach HEAD from ", &refname))?;
        }
        forgive(git.delete_ref(&refname, &cat3("imerge ", name, ": remove scratch reference")))?;
        git.delete_imerge_refs(name)?;
        match git.get_default_imerge_name()? {
            Some(default) => if same(&default, name) {
                git.set_default_imerge_name(None)
            } else {
                Ok(())
            },
            None => Ok(()),
        }
    }
}

} // verus!
