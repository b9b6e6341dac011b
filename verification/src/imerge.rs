//! One incremental merge: its grid, where it comes from and what it is for.
use vstd::prelude::*;

use crate::block::{
    is_source, law_records_stay_consistent, lemma_grid_grows, Grid, GridView, MergeRecord,
    RecordView, Rect,
};
use crate::error::{failure, res, ErrorView, ImergeError};
use crate::fill::{coordinates, shown};
use crate::git::Git;
use crate::known::edges_known;
use crate::state::{
    copied_goalopts, is_allowed_goal, is_goal, GoalOpts, GoalOptsView, StateDict, StateDictView,
};
use crate::store::{place_of, MergesView};
use crate::talk::{lemma_grows, lemma_learns_nothing, Talk, Told};
use crate::text::{cat2, cat3, cat7, debug_form, decimal, join, joined, number, quoted, same};

verus! {

broadcast use lemma_grows, lemma_learns_nothing, lemma_grid_grows;

/// The ref on which the user makes manual merges.
pub open spec fn scratch(name: Seq<char>) -> Seq<char> {
    "refs/heads/imerge/"@ + name
}

/// The ref on which the user makes manual merges.
pub fn scratch_refname(name: &str) -> (r: String)
    ensures
        r@ == scratch(name@),
{
    cat2("refs/heads/imerge/", name)
}

/// An incremental merge.
pub struct MergeState {
    pub grid: Grid,
    pub tip1: String,
    pub tip2: String,
    pub goal: String,
    pub goalopts: Option<GoalOpts>,
    pub manual: bool,
    pub branch: String,
}

/// The content of a [`MergeState`].
#[verifier::ext_equal]
pub struct MergeStateView {
    pub grid: GridView,
    pub tip1: Seq<char>,
    pub tip2: Seq<char>,
    pub goal: Seq<char>,
    pub goalopts: Option<GoalOptsView>,
    pub manual: bool,
    pub branch: Seq<char>,
}

impl DeepView for MergeState {
    type V = MergeStateView;

    open spec fn deep_view(&self) -> MergeStateView {
        MergeStateView {
            grid: self.grid@,
            tip1: self.tip1@,
            tip2: self.tip2@,
            goal: self.goal@,
            goalopts: self.goalopts.deep_view(),
            manual: self.manual,
            branch: self.branch@,
        }
    }
}

impl View for MergeState {
    type V = MergeStateView;

    open spec fn view(&self) -> MergeStateView {
        self.deep_view()
    }
}

/// The window that is all of a grid.
pub open spec fn full_window(grid: GridView) -> Rect {
    Rect { origin1: 0, origin2: 0, len1: grid.len1, len2: grid.len2 }
}

/// The commits of both branches are recorded as manual.
pub open spec fn edges_manual(grid: GridView) -> bool {
    &&& forall|i: int| 0 <= i < grid.len1 ==> (#[trigger] grid.cell(i, 0)).manual()
    &&& forall|i: int| 0 <= i < grid.len2 ==> (#[trigger] grid.cell(0, i)).manual()
}

/// The grid has a first cell, every cell is sound, and the commits of both
/// branches are known and recorded as manual.
pub open spec fn is_ready(grid: GridView) -> bool {
    &&& grid.wf()
    &&& grid.sound()
    &&& grid.len1 >= 1
    &&& grid.len2 >= 1
    &&& edges_known(grid, full_window(grid))
    &&& edges_manual(grid)
}

impl MergeStateView {
    /// The grid is ready for merging, and the result has a branch to go to.
    pub open spec fn wf(self) -> bool {
        is_ready(self.grid) && (self.branch.len() > 0 || self.grid.name.len() == 0)
    }
}

/// Whether `source` is one of the two manual sources.
pub open spec fn is_manual_source(source: u8) -> bool {
    source == MergeRecord::SAVED_MANUAL || source == MergeRecord::NEW_MANUAL
}

/// What a cell holds when only the commits of the branches are there.
pub open spec fn edge_cell(
    base: Seq<char>,
    commits1: Seq<Seq<char>>,
    commits2: Seq<Seq<char>>,
    source: u8,
    i1: int,
    i2: int,
) -> RecordView {
    if i1 == 0 && i2 == 0 {
        RecordView::unknown().merged(base, source)
    } else if i2 == 0 {
        RecordView::unknown().merged(commits1[i1 - 1], source)
    } else if i1 == 0 {
        RecordView::unknown().merged(commits2[i2 - 1], source)
    } else {
        RecordView::unknown()
    }
}

/// A grid with nothing but the commits of the branches.
pub open spec fn edge_grid(
    name: Seq<char>,
    base: Seq<char>,
    commits1: Seq<Seq<char>>,
    commits2: Seq<Seq<char>>,
    source: u8,
    dedupe_patches: bool,
) -> GridView {
    GridView {
        name,
        len1: (commits1.len() + 1) as usize,
        len2: (commits2.len() + 1) as usize,
        dedupe_patches,
        cells: Seq::new(
            commits1.len() + 1,
            |i1: int|
                Seq::new(
                    commits2.len() + 1,
                    |i2: int| edge_cell(base, commits1, commits2, source, i1, i2),
                ),
        ),
    }
}

/// The branch for the result: by default it has the name of the incremental
/// merge.
pub open spec fn branch_or(branch: Seq<char>, name: Seq<char>) -> Seq<char> {
    if branch.len() == 0 {
        name
    } else {
        branch
    }
}

/// The lengths of both branches can be written down with one more commit.
pub open spec fn fits_grid(commits1: Seq<Seq<char>>, commits2: Seq<Seq<char>>) -> bool {
    commits1.len() < usize::MAX && commits2.len() < usize::MAX
}

/// A grid with nothing but the commits of the branches is ready for merging.
pub proof fn law_edge_grid_is_ready(
    name: Seq<char>,
    base: Seq<char>,
    commits1: Seq<Seq<char>>,
    commits2: Seq<Seq<char>>,
    source: u8,
    dedupe_patches: bool,
)
    requires
        fits_grid(commits1, commits2),
        is_manual_source(source),
    ensures
        is_ready(edge_grid(name, base, commits1, commits2, source, dedupe_patches)),
{
    let grid = edge_grid(name, base, commits1, commits2, source, dedupe_patches);
    assert forall|i1: int, i2: int| grid.has(i1, i2) implies (#[trigger] grid.cell(
        i1,
        i2,
    )).consistent() && (i1 == 0 || i2 == 0 ==> grid.known(i1, i2) && grid.cell(
        i1,
        i2,
    ).manual()) by {
        assert(grid.cell(i1, i2) == edge_cell(base, commits1, commits2, source, i1, i2));
        let u = RecordView::unknown();
        assert(0u8 & 0x0f == 0 && (0u8 | 4) & 0x0c != 0 && ((0u8 | 8) & 0xfd) & 0x0c != 0)
            by (bit_vector);
        law_records_stay_consistent(u, base, source, false);
        law_records_stay_consistent(u, commits1[i1 - 1], source, false);
        law_records_stay_consistent(u, commits2[i2 - 1], source, false);
    }
    assert forall|i: int| 0 <= i < grid.len1 implies #[trigger] grid.known(0 + i, 0) by {
        assert(grid.cell(i, 0).consistent());
    }
    assert forall|i: int| 0 <= i < grid.len2 implies #[trigger] grid.known(0, 0 + i) by {
        assert(grid.cell(0, i).consistent());
    }
    assert forall|i: int| 0 <= i < grid.len1 implies (#[trigger] grid.cell(i, 0)).manual() by {
        assert(grid.cell(i, 0).consistent());
    }
    assert forall|i: int| 0 <= i < grid.len2 implies (#[trigger] grid.cell(0, i)).manual() by {
        assert(grid.cell(0, i).consistent());
    }
}

/// The commits that have more than one parent, from place `i` on, after `bad`.
pub open spec fn merge_commits(g: Talk, commits: Seq<Seq<char>>, i: nat, bad: Seq<Seq<char>>) -> Told<
    Seq<Seq<char>>,
>
    decreases commits.len() - i,
{
    if i >= commits.len() {
        (g, Ok(bad))
    } else {
        match g.get_commit_parents(commits[i as int]) {
            (g, Err(e)) => (g, Err(e)),
            (g, Ok(parents)) => if parents.len() > 1 {
                merge_commits(g, commits, i + 1, bad.push(commits[i as int]))
            } else {
                merge_commits(g, commits, i + 1, bad)
            },
        }
    }
}

impl Talk {
    /// Fails if one of the commits has more than one parent.
    pub open spec fn check_no_merges(self, commits: Seq<Seq<char>>) -> Told<()> {
        match merge_commits(self, commits, 0, Seq::empty()) {
            (g, Err(e)) => (g, Err(e)),
            (g, Ok(bad)) => if bad.len() == 0 {
                (g, Ok(()))
            } else {
                (
                    g,
                    Err(
                        ErrorView::Failure(
                            "The following commits on the to-be-rebased branch are merge commits:\n    "@
                                + joined(bad, "\n    "@)
                                + "\n--goal='rebase' is not yet supported for branches that include merges.\n"@,
                        ),
                    ),
                )
            },
        }
    }

    /// The branch for the result, if its name is a good one.
    pub open spec fn chosen_branch(self, name: Seq<char>, branch: Option<Seq<char>>) -> Told<
        Seq<char>,
    > {
        match branch {
            Some(b) => if b.len() == 0 {
                (self, Ok(name))
            } else {
                match self.check_branch_name_format(b) {
                    (g, Err(e)) => (g, Err(e)),
                    (g, Ok(_)) => (g, Ok(b)),
                }
            },
            None => (self, Ok(name)),
        }
    }

    /// See [`MergeState::initialize`].
    pub open spec fn initialize(
        self,
        name: Seq<char>,
        base: Seq<char>,
        tips: (Seq<char>, Seq<char>),
        commits: (Seq<Seq<char>>, Seq<Seq<char>>),
        goal: Seq<char>,
        goalopts: Option<GoalOptsView>,
        manual: bool,
        dedupe_patches: bool,
        branch: Option<Seq<char>>,
    ) -> Told<MergeStateView> {
        match self.verify_imerge_name_available(name) {
            (g, Err(e)) => (g, Err(e)),
            (g, Ok(_)) => match g.chosen_branch(name, branch) {
                (g, Err(e)) => (g, Err(e)),
                (g, Ok(branch)) => {
                    let (g, checked) = if goal == "rebase"@ {
                        g.check_no_merges(commits.1)
                    } else {
                        (g, Ok(()))
                    };
                    match checked {
                        Err(e) => (g, Err(e)),
                        Ok(_) => if !fits_grid(commits.0, commits.1) {
                            (g, Err(ErrorView::Failure("The branches are too long."@)))
                        } else {
                            (
                                g,
                                Ok(
                                    MergeStateView {
                                        grid: edge_grid(
                                            name,
                                            base,
                                            commits.0,
                                            commits.1,
                                            MergeRecord::NEW_MANUAL,
                                            dedupe_patches,
                                        ),
                                        tip1: tips.0,
                                        tip2: tips.1,
                                        goal,
                                        goalopts,
                                        manual,
                                        branch: branch_or(branch, name),
                                    },
                                ),
                            )
                        },
                    }
                },
            },
        }
    }
}

/// Fails if one of the commits has more than one parent.
pub(crate) fn check_no_merges(git: &mut Git, commits: &Vec<String>) -> (r: Result<(), ImergeError>)
    ensures
        (final(git)@, res(r)) == old(git)@.check_no_merges(commits.deep_view()),
        old(git)@.grows_to(final(git)@),
{
    let ghost all = commits.deep_view();
    let mut bad: Vec<String> = Vec::new();
    let mut i: usize = 0;
    assert(bad.deep_view() =~= Seq::empty());
    while i < commits.len()
        invariant
            i <= commits.len(),
            all == commits.deep_view(),
            merge_commits(old(git)@, all, 0, Seq::empty()) == merge_commits(
                git@,
                all,
                i as nat,
                bad.deep_view(),
            ),
            old(git)@.grows_to(git@),
        decreases commits.len() - i,
    {
        let ghost before = bad.deep_view();
        assert(all[i as int] == commits[i as int]@);
        if git.get_commit_parents(&commits[i])?.len() > 1 {
            bad.push(commits[i].clone());
            assert(bad.deep_view() =~= before.push(all[i as int]));
        }
        i += 1;
    }
    if bad.len() > 0 {
        let shown = join(&bad, "\n    ");
        return failure(
            &cat3(
                "The following commits on the to-be-rebased branch are merge commits:\n    ",
                &shown,
                "\n--goal='rebase' is not yet supported for branches that include merges.\n",
            ),
        );
    }
    Ok(())
}

/// The cells that are filled after the first `n1` and `n2` commits were recorded.
spec fn is_partly_filled(
    grid: GridView,
    full: GridView,
    n1: int,
    n2: int,
) -> bool {
    &&& grid.wf()
    &&& grid.name == full.name
    &&& grid.len1 == full.len1
    &&& grid.len2 == full.len2
    &&& grid.dedupe_patches == full.dedupe_patches
    &&& forall|i1: int, i2: int|
        grid.has(i1, i2) ==> #[trigger] grid.cell(i1, i2) == if (i2 == 0 && i1 <= n1) || (i1 == 0
            && i2 <= n2) {
            full.cell(i1, i2)
        } else {
            RecordView::unknown()
        }
}

/// Records one more commit of a branch.
fn fill_edge(
    grid: &mut Grid,
    i1: usize,
    i2: usize,
    sha1: &str,
    source: u8,
    Ghost(full): Ghost<GridView>,
    Ghost(from): Ghost<(int, int)>,
    Ghost(to): Ghost<(int, int)>,
)
    requires
        is_partly_filled(old(grid)@, full, from.0, from.1),
        full.wf(),
        is_source(source),
        full.has(i1 as int, i2 as int),
        old(grid)@.cell(i1 as int, i2 as int) == RecordView::unknown(),
        full.cell(i1 as int, i2 as int) == RecordView::unknown().merged(sha1@, source),
        forall|j1: int, j2: int|
            #![trigger full.cell(j1, j2)]
            full.has(j1, j2) ==> (((j2 == 0 && j1 <= to.0) || (j1 == 0 && j2 <= to.1)) <==> (((j2
                == 0 && j1 <= from.0) || (j1 == 0 && j2 <= from.1)) || (j1 == i1 && j2 == i2))),
    ensures
        is_partly_filled(final(grid)@, full, to.0, to.1),
{
    let ghost before = grid@;
    assert(before.cells[i1 as int].len() == before.len2);
    grid.get_mut(i1, i2).record_merge(sha1, source);
    assert forall|j1: int, j2: int| grid@.has(j1, j2) implies #[trigger] grid@.cell(j1, j2) == if (
    j2 == 0 && j1 <= to.0) || (j1 == 0 && j2 <= to.1) {
        full.cell(j1, j2)
    } else {
        RecordView::unknown()
    } by {
        assert(before.cells[j1].len() == before.len2);
        let f = full.cell(j1, j2);
        let b = before.cell(j1, j2);
    }
}

impl MergeState {
    /// The name of the incremental merge.
    pub fn name(&self) -> (r: &str)
        ensures
            r@ == self@.grid.name,
    {
        self.grid.name.as_str()
    }

    fn new(
        name: &str,
        merge_base: &str,
        tip1: &str,
        commits1: &Vec<String>,
        tip2: &str,
        commits2: &Vec<String>,
        source: u8,
        goal: &str,
        goalopts: Option<GoalOpts>,
        manual: bool,
        dedupe_patches: bool,
        branch: String,
    ) -> (r: MergeState)
        requires
            fits_grid(commits1.deep_view(), commits2.deep_view()),
            is_manual_source(source),
        ensures
            r@ == (MergeStateView {
                grid: edge_grid(
                    name@,
                    merge_base@,
                    commits1.deep_view(),
                    commits2.deep_view(),
                    source,
                    dedupe_patches,
                ),
                tip1: tip1@,
                tip2: tip2@,
                goal: goal@,
                goalopts: goalopts.deep_view(),
                manual,
                branch: branch_or(branch@, name@),
            }),
            r@.wf(),
    {
        let ghost c1 = commits1.deep_view();
        let ghost c2 = commits2.deep_view();
        let ghost full = edge_grid(name@, merge_base@, c1, c2, source, dedupe_patches);
        proof {
            law_edge_grid_is_ready(name@, merge_base@, c1, c2, source, dedupe_patches);
        }
        let mut grid = Grid::new(name, commits1.len() + 1, commits2.len() + 1);
        grid.dedupe_patches = dedupe_patches;
        assert(grid@.cells == Seq::new(
            (c1.len() + 1) as nat,
            |i: int| Seq::new((c2.len() + 1) as nat, |j: int| RecordView::unknown()),
        ));
        assert(is_partly_filled(grid@, full, -1, -1));
        fill_edge(
            &mut grid,
            0,
            0,
            merge_base,
            source,
            Ghost(full),
            Ghost((-1, -1)),
            Ghost((0, 0)),
        );
        let mut i: usize = 0;
        while i < commits1.len()
            invariant
                i <= commits1.len() < usize::MAX,
                c1 == commits1.deep_view(),
                full == edge_grid(name@, merge_base@, c1, c2, source, dedupe_patches),
                full.wf(),
                full.len2 >= 1,
                full.len1 == c1.len() + 1,
                is_source(source),
                is_partly_filled(grid@, full, i as int, 0),
            decreases commits1.len() - i,
        {
            assert(c1[i as int] == commits1[i as int]@);
            assert(full.cell(i + 1, 0) == edge_cell(merge_base@, c1, c2, source, i + 1, 0));
            assert(grid@.cell(i + 1, 0) == RecordView::unknown());
            fill_edge(
                &mut grid,
                i + 1,
                0,
                &commits1[i],
                source,
                Ghost(full),
                Ghost((i as int, 0)),
                Ghost((i + 1, 0)),
            );
            i += 1;
        }
        let n1: usize = commits1.len();
        i = 0;
        while i < commits2.len()
            invariant
                i <= commits2.len() < usize::MAX,
                n1 == c1.len(),
                c2 == commits2.deep_view(),
                full == edge_grid(name@, merge_base@, c1, c2, source, dedupe_patches),
                full.wf(),
                full.len1 >= 1,
                full.len2 == c2.len() + 1,
                is_source(source),
                is_partly_filled(grid@, full, n1 as int, i as int),
            decreases commits2.len() - i,
        {
            assert(c2[i as int] == commits2[i as int]@);
            assert(full.cell(0, i + 1) == edge_cell(merge_base@, c1, c2, source, 0, i + 1));
            assert(grid@.cell(0, i + 1) == RecordView::unknown());
            fill_edge(
                &mut grid,
                0,
                i + 1,
                &commits2[i],
                source,
                Ghost(full),
                Ghost((n1 as int, i as int)),
                Ghost((n1 as int, i + 1)),
            );
            i += 1;
        }
        assert(grid@ =~= full) by {
            assert forall|i1: int| 0 <= i1 < grid@.len1 implies grid@.cells[i1]
                =~= full.cells[i1] by {
                assert(grid@.cells[i1].len() == grid@.len2);
                assert forall|i2: int| 0 <= i2 < grid@.len2 implies grid@.cells[i1][i2]
                    == full.cells[i1][i2] by {
                    assert(grid@.cell(i1, i2) == full.cell(i1, i2)) by {
                        assert(full.cell(i1, i2) == edge_cell(
                            merge_base@,
                            c1,
                            c2,
                            source,
                            i1,
                            i2,
                        ));
                    }
                }
            }
            assert(grid@.cells =~= full.cells);
        }
        let branch = if branch.unicode_len() == 0 {
            name.to_owned()
        } else {
            branch
        };
        MergeState {
            grid,
            tip1: tip1.to_owned(),
            tip2: tip2.to_owned(),
            goal: goal.to_owned(),
            goalopts,
            manual,
            branch,
        }
    }

    /// Starts an incremental merge. Its name has to be free, and a branch with
    /// merge commits cannot be rebased. Nothing is stored yet.
    pub fn initialize(
        git: &mut Git,
        name: &str,
        merge_base: &str,
        tip1: &str,
        commits1: &Vec<String>,
        tip2: &str,
        commits2: &Vec<String>,
        goal: &str,
        goalopts: Option<GoalOpts>,
        manual: bool,
        dedupe_patches: bool,
        branch: Option<&str>,
    ) -> (r: Result<MergeState, ImergeError>)
        ensures
            (final(git)@, res(r)) == old(git)@.initialize(
                name@,
                merge_base@,
                (tip1@, tip2@),
                (commits1.deep_view(), commits2.deep_view()),
                goal@,
                goalopts.deep_view(),
                manual,
                dedupe_patches,
                branch.deep_view(),
            ),
            old(git)@.grows_to(final(git)@),
            r matches Ok(state) ==> state@.wf(),
    {
        git.verify_imerge_name_available(name)?;
        let branch = match branch {
            Some(b) => if b.unicode_len() == 0 {
                name.to_owned()
            } else {
                git.check_branch_name_format(b)?;
                b.to_owned()
            },
            None => name.to_owned(),
        };
        if same(goal, "rebase") {
            check_no_merges(git, commits2)?;
        }
        if commits1.len() == usize::MAX || commits2.len() == usize::MAX {
            return failure("The branches are too long.");
        }
        Ok(
            MergeState::new(
                name,
                merge_base,
                tip1,
                commits1,
                tip2,
                commits2,
                MergeRecord::NEW_MANUAL,
                goal,
                goalopts,
                manual,
                dedupe_patches,
                branch,
            ),
        )
    }
}

// ---------------------------------------------------------------------
// Reading
// ---------------------------------------------------------------------

/// The bit for a source that was read from a ref's name.
pub open spec fn source_bit(source: Seq<char>) -> Option<u8> {
    if source == "auto"@ {
        Some(MergeRecord::SAVED_AUTO)
    } else if source == "manual"@ {
        Some(MergeRecord::SAVED_MANUAL)
    } else {
        None
    }
}

/// The first entry from place `k` on whose source is not known.
pub open spec fn strange_source(merges: MergesView, k: nat) -> Option<Seq<char>>
    decreases merges.len() - k,
{
    if k >= merges.len() {
        None
    } else if source_bit(merges[k as int].1.1) is None {
        Some(merges[k as int].1.1)
    } else {
        strange_source(merges, k + 1)
    }
}

/// Commit and source of the entry for these coordinates.
pub open spec fn lookup(merges: MergesView, at: (usize, usize)) -> Option<(Seq<char>, Seq<char>)> {
    let k = place_of(merges, at, 0);
    if k < merges.len() {
        Some(merges[k as int].1)
    } else {
        None
    }
}

/// The coordinates of place `i` on one of the two edges.
pub open spec fn on_edge(along1: bool, i: usize) -> (usize, usize) {
    if along1 {
        (i, 0)
    } else {
        (0, i)
    }
}

/// The commits along one edge from place `i` on, up to the first gap, after
/// `commits`. They all have to be manual.
pub open spec fn edge_commits(
    merges: MergesView,
    along1: bool,
    i: usize,
    commits: Seq<Seq<char>>,
) -> Result<Seq<Seq<char>>, ErrorView>
    decreases usize::MAX - i,
{
    let at = on_edge(along1, i);
    if i == usize::MAX {
        Ok(commits)
    } else {
        match lookup(merges, at) {
            None => Ok(commits),
            Some((sha1, source)) => if source_bit(source) != Some(MergeRecord::SAVED_MANUAL) {
                Err(
                    ErrorView::Failure(
                        "Merge "@ + coordinates(at.0 as int, at.1 as int)
                            + " should be manual!"@,
                    ),
                )
            } else {
                edge_commits(merges, along1, (i + 1) as usize, commits.push(sha1))
            },
        }
    }
}

/// The last commit of a branch, or what the state says about it.
pub open spec fn tip_or_last(
    tip: Option<Seq<char>>,
    commits: Seq<Seq<char>>,
    which: Seq<char>,
) -> Result<Seq<char>, ErrorView> {
    match tip {
        Some(t) => Ok(t),
        None => if commits.len() > 0 {
            Ok(commits.last())
        } else {
            Err(ErrorView::Failure("could not determine "@ + which))
        },
    }
}

/// The grid after one more entry was recorded. Entries on the edges are there
/// already.
pub open spec fn with_entry(
    grid: GridView,
    at: (usize, usize),
    sha1: Seq<char>,
    source: Seq<char>,
) -> Result<GridView, ErrorView> {
    let (i1, i2) = at;
    if i1 == 0 && i2 >= grid.len2 {
        Err(ErrorView::Failure("Merge 0-"@ + decimal(grid.len2 as nat) + " is missing!"@))
    } else if i1 >= grid.len1 && i2 == 0 {
        Err(ErrorView::Failure("Merge "@ + decimal(grid.len1 as nat) + "-0 is missing!"@))
    } else if i1 >= grid.len1 || i2 >= grid.len2 {
        Err(
            ErrorView::Failure(
                "Merge "@ + coordinates(i1 as int, i2 as int) + " is out of range [0:"@ + decimal(
                    grid.len1 as nat,
                ) + ",0:"@ + decimal(grid.len2 as nat) + "]"@,
            ),
        )
    } else if i1 == 0 || i2 == 0 {
        Ok(grid)
    } else {
        Ok(
            grid.with(
                i1 as int,
                i2 as int,
                grid.cell(i1 as int, i2 as int).merged(sha1, source_bit(source)->0),
            ),
        )
    }
}

/// The grid after the entries from place `k` on were recorded.
pub open spec fn with_entries(grid: GridView, merges: MergesView, k: nat) -> Result<
    GridView,
    ErrorView,
>
    decreases merges.len() - k,
{
    if k >= merges.len() {
        Ok(grid)
    } else {
        let (at, (sha1, source)) = merges[k as int];
        match with_entry(grid, at, sha1, source) {
            Err(e) => Err(e),
            Ok(more) => with_entries(more, merges, k + 1),
        }
    }
}

/// The grid after the cells from place `k` on were marked as blocked.
pub open spec fn with_marks(grid: GridView, marks: Seq<(usize, usize)>, k: nat) -> Result<
    GridView,
    ErrorView,
>
    decreases marks.len() - k,
{
    if k >= marks.len() {
        Ok(grid)
    } else {
        let i1 = marks[k as int].0 as int;
        let i2 = marks[k as int].1 as int;
        if !grid.has(i1, i2) {
            Err(ErrorView::Failure("Blocker "@ + coordinates(i1, i2) + " is out of range!"@))
        } else {
            with_marks(grid.with(i1, i2, grid.cell(i1, i2).marked(true)), marks, k + 1)
        }
    }
}

/// The merge base and the commits of both branches.
pub open spec fn edges_in(merges: MergesView) -> Result<
    (Seq<char>, Seq<Seq<char>>, Seq<Seq<char>>),
    ErrorView,
> {
    match strange_source(merges, 0) {
        Some(s) => Err(ErrorView::Failure("unknown merge source "@ + debug_form(s))),
        None => match lookup(merges, (0, 0)) {
            None => Err(ErrorView::Failure("Merge base is missing!"@)),
            Some((base, source)) => if source_bit(source) != Some(MergeRecord::SAVED_MANUAL) {
                Err(ErrorView::Failure("Merge base should be manual!"@))
            } else {
                match edge_commits(merges, true, 1, Seq::empty()) {
                    Err(e) => Err(e),
                    Ok(commits1) => match edge_commits(merges, false, 1, Seq::empty()) {
                        Err(e) => Err(e),
                        Ok(commits2) => if !fits_grid(commits1, commits2) {
                            Err(ErrorView::Failure("The branches are too long."@))
                        } else {
                            Ok((base, commits1, commits2))
                        },
                    },
                }
            },
        },
    }
}

/// The incremental merge `name` that a stored state and the entries for its cells
/// stand for.
pub open spec fn rebuilt(name: Seq<char>, state: StateDictView, merges: MergesView) -> Result<
    MergeStateView,
    ErrorView,
> {
    match edges_in(merges) {
        Err(e) => Err(e),
        Ok((base, commits1, commits2)) => match tip_or_last(state.tip1, commits1, "tip1"@) {
            Err(e) => Err(e),
            Ok(tip1) => match tip_or_last(state.tip2, commits2, "tip2"@) {
                Err(e) => Err(e),
                Ok(tip2) => if !is_goal(state.goal) {
                    Err(
                        ErrorView::Failure(
                            "Goal "@ + debug_form(state.goal)
                                + ", read from state, is not recognized."@,
                        ),
                    )
                } else {
                    let grid = edge_grid(
                        name,
                        base,
                        commits1,
                        commits2,
                        MergeRecord::SAVED_MANUAL,
                        state.dedupe_patches,
                    );
                    match with_entries(grid, merges, 0) {
                        Err(e) => Err(e),
                        Ok(filled) => match with_marks(filled, state.blockers, 0) {
                            Err(e) => Err(e),
                            Ok(grid) => Ok(
                                MergeStateView {
                                    grid,
                                    tip1,
                                    tip2,
                                    goal: state.goal,
                                    goalopts: state.goalopts,
                                    manual: state.manual,
                                    branch: branch_or(
                                        match state.branch {
                                            Some(b) => b,
                                            None => name,
                                        },
                                        name,
                                    ),
                                },
                            ),
                        },
                    }
                },
            },
        },
    }
}

impl Talk {
    /// See [`MergeState::read`].
    pub open spec fn read_imerge(self, name: Seq<char>) -> Told<MergeStateView> {
        match self.read_imerge_state(name) {
            (g, Err(e)) => (g, Err(e)),
            (g, Ok((state, merges))) => (g, rebuilt(name, state, merges)),
        }
    }
}

/// The bit for a source that was read from a ref's name.
fn bit_of_source(source: &str) -> (r: Option<u8>)
    ensures
        r == source_bit(source@),
        r matches Some(bit) ==> is_source(bit),
{
    if same(source, "auto") {
        Some(MergeRecord::SAVED_AUTO)
    } else if same(source, "manual") {
        Some(MergeRecord::SAVED_MANUAL)
    } else {
        None
    }
}

/// The place of the entry for these coordinates.
fn find_entry(merges: &Vec<((usize, usize), (String, String))>, at: (usize, usize)) -> (r: Option<
    usize,
>)
    ensures
        match r {
            Some(k) => k < merges.len() && lookup(merges.deep_view(), at) == Some(
                merges[k as int].1.deep_view(),
            ),
            None => lookup(merges.deep_view(), at) is None,
        },
{
    let ghost all = merges.deep_view();
    let mut k: usize = 0;
    while k < merges.len()
        invariant
            k <= merges.len(),
            all == merges.deep_view(),
            place_of(all, at, 0) == place_of(all, at, k as nat),
        decreases merges.len() - k,
    {
        assert(all[k as int] == merges[k as int].deep_view());
        if merges[k].0.0 == at.0 && merges[k].0.1 == at.1 {
            return Some(k);
        }
        k += 1;
    }
    None
}

/// The commits along one edge.
fn commits_on_edge(merges: &Vec<((usize, usize), (String, String))>, along1: bool) -> (r: Result<
    Vec<String>,
    ImergeError,
>)
    ensures
        res(r) == edge_commits(merges.deep_view(), along1, 1, Seq::empty()),
{
    let ghost all = merges.deep_view();
    let mut commits: Vec<String> = Vec::new();
    assert(commits.deep_view() =~= Seq::empty());
    let mut i: usize = 1;
    while i < usize::MAX
        invariant
            1 <= i,
            all == merges.deep_view(),
            edge_commits(all, along1, 1, Seq::empty()) == edge_commits(
                all,
                along1,
                i,
                commits.deep_view(),
            ),
        decreases usize::MAX - i,
    {
        let ghost before = commits.deep_view();
        let at: (usize, usize) = if along1 {
            (i, 0)
        } else {
            (0, i)
        };
        match find_entry(merges, at) {
            None => {
                return Ok(commits);
            },
            Some(k) => {
                let bit = bit_of_source(&merges[k].1.1);
                if bit != Some(MergeRecord::SAVED_MANUAL) {
                    return failure(
                        &cat3("Merge ", &shown(at.0, at.1), " should be manual!"),
                    );
                }
                commits.push(merges[k].1.0.clone());
                assert(commits.deep_view() =~= before.push(merges[k as int].1.0@));
            },
        }
        i += 1;
    }
    Ok(commits)
}

/// Merge base and commits of both branches.
fn read_edges(merges: &Vec<((usize, usize), (String, String))>) -> (r: Result<
    (String, Vec<String>, Vec<String>),
    ImergeError,
>)
    ensures
        res(r) == edges_in(merges.deep_view()),
        r is Ok ==> strange_source(merges.deep_view(), 0) is None,
{
    let ghost all = merges.deep_view();
    let mut k: usize = 0;
    while k < merges.len()
        invariant
            k <= merges.len(),
            all == merges.deep_view(),
            strange_source(all, 0) == strange_source(all, k as nat),
        decreases merges.len() - k,
    {
        assert(all[k as int] == merges[k as int].deep_view());
        if bit_of_source(&merges[k].1.1).is_none() {
            return failure(&cat2("unknown merge source ", &quoted(&merges[k].1.1)));
        }
        k += 1;
    }
    match find_entry(merges, (0, 0)) {
        None => failure("Merge base is missing!"),
        Some(k) => {
            let bit = bit_of_source(&merges[k].1.1);
            if bit != Some(MergeRecord::SAVED_MANUAL) {
                return failure("Merge base should be manual!");
            }
            let commits1 = commits_on_edge(merges, true)?;
            let commits2 = commits_on_edge(merges, false)?;
            if commits1.len() == usize::MAX || commits2.len() == usize::MAX {
                return failure("The branches are too long.");
            }
            Ok((merges[k].1.0.clone(), commits1, commits2))
        },
    }
}

/// The last commit of a branch, or what the state says about it.
fn tip_of(tip: &Option<String>, commits: &Vec<String>, which: &str) -> (r: Result<
    String,
    ImergeError,
>)
    ensures
        res(r) == tip_or_last(tip.deep_view(), commits.deep_view(), which@),
{
    match tip {
        Some(t) => Ok(t.clone()),
        None => {
            let n: usize = commits.len();
            if n > 0 {
                assert(commits.deep_view().last() == commits[n - 1]@);
                Ok(commits[n - 1].clone())
            } else {
                failure(&cat2("could not determine ", which))
            }
        },
    }
}

/// Where nothing is known of the sources' order, none of them is strange.
proof fn lemma_no_strange_source(merges: MergesView, from: nat, k: int)
    requires
        strange_source(merges, from) is None,
        from <= k < merges.len(),
    ensures
        source_bit(merges[k].1.1) is Some,
    decreases merges.len() - from,
{
    if from < k {
        lemma_no_strange_source(merges, from + 1, k);
    }
}

/// Replacing a cell by a consistent one, known and manual where it was, keeps a
/// grid ready.
pub(crate) proof fn lemma_stays_ready(grid: GridView, i1: int, i2: int, r: RecordView)
    requires
        is_ready(grid),
        grid.has(i1, i2),
        r.consistent(),
        grid.known(i1, i2) ==> r.known(),
        grid.cell(i1, i2).manual() ==> r.manual(),
    ensures
        is_ready(grid.with(i1, i2, r)),
{
    let later = grid.with(i1, i2, r);
    let full = full_window(grid);
    assert(grid.cells[i1].len() == grid.len2);
    assert(later.wf());
    assert forall|j1: int, j2: int| later.has(j1, j2) implies (#[trigger] later.cell(
        j1,
        j2,
    )).consistent() && (grid.known(j1, j2) ==> later.known(j1, j2)) && (grid.cell(
        j1,
        j2,
    ).manual() ==> later.cell(j1, j2).manual()) by {
        assert(grid.cells[j1].len() == grid.len2);
        assert(grid.cell(j1, j2).consistent());
    }
    assert forall|i: int| 0 <= i < later.len1 implies (#[trigger] later.cell(i, 0)).manual() by {
        assert(grid.cell(i, 0).manual());
        assert(later.cell(i, 0).consistent());
    }
    assert forall|i: int| 0 <= i < later.len2 implies (#[trigger] later.cell(0, i)).manual() by {
        assert(grid.cell(0, i).manual());
        assert(later.cell(0, i).consistent());
    }
    assert forall|i: int| 0 <= i < full.len1 implies #[trigger] later.known(
        full.origin1 + i,
        full.origin2 as int,
    ) by {
        assert(grid.known(full.origin1 + i, full.origin2 as int));
        assert(later.cell(i, 0).consistent());
    }
    assert forall|i: int| 0 <= i < full.len2 implies #[trigger] later.known(
        full.origin1 as int,
        full.origin2 + i,
    ) by {
        assert(grid.known(full.origin1 as int, full.origin2 + i));
        assert(later.cell(0, i).consistent());
    }
}

/// A manual cell stays manual whatever is recorded for it.
pub(crate) proof fn lemma_stays_manual(r: RecordView, sha1: Seq<char>, source: u8, blocked: bool)
    requires
        is_source(source),
    ensures
        r.manual() ==> r.merged(sha1, source).manual(),
        r.marked(blocked).manual() == r.manual(),
{
    let f = r.flags;
    assert((f & 0x0c != 0 ==> (f | 1) & 0x0c != 0 && (f | 2) & 0x0c != 0 && (f | 4) & 0x0c != 0)
        && ((f | 8) & 0xfd) & 0x0c != 0 && (f | 0x10) & 0x0c == f & 0x0c && (f & 0xef) & 0x0c == f
        & 0x0c) by (bit_vector);
}

/// Records the entries that are not on the edges.
fn record_entries(grid: &mut Grid, merges: &Vec<((usize, usize), (String, String))>) -> (r: Result<
    (),
    ImergeError,
>)
    requires
        is_ready(old(grid)@),
        strange_source(merges.deep_view(), 0) is None,
    ensures
        match with_entries(old(grid)@, merges.deep_view(), 0) {
            Err(e) => res(r) == Err::<(), ErrorView>(e),
            Ok(filled) => r is Ok && final(grid)@ == filled,
        },
        is_ready(final(grid)@),
        final(grid)@.name == old(grid)@.name,
{
    let ghost all = merges.deep_view();
    let mut k: usize = 0;
    while k < merges.len()
        invariant
            k <= merges.len(),
            all == merges.deep_view(),
            is_ready(grid@),
            grid@.name == old(grid)@.name,
            strange_source(all, 0) is None,
            with_entries(old(grid)@, all, 0) == with_entries(grid@, all, k as nat),
        decreases merges.len() - k,
    {
        let ((i1, i2), (sha1, source)) = &merges[k];
        let i1: usize = *i1;
        let i2: usize = *i2;
        assert(all[k as int] == merges[k as int].deep_view());
        proof {
            lemma_no_strange_source(all, 0, k as int);
        }
        if i1 == 0 && i2 >= grid.len2 {
            return failure(&cat3("Merge 0-", &number(grid.len2), " is missing!"));
        }
        if i1 >= grid.len1 && i2 == 0 {
            return failure(&cat3("Merge ", &number(grid.len1), "-0 is missing!"));
        }
        if i1 >= grid.len1 || i2 >= grid.len2 {
            return failure(
                &cat7(
                    "Merge ",
                    &shown(i1, i2),
                    " is out of range [0:",
                    &number(grid.len1),
                    ",0:",
                    &number(grid.len2),
                    "]",
                ),
            );
        }
        if i1 != 0 && i2 != 0 {
            if let Some(bit) = bit_of_source(source) {
                proof {
                    let cell = grid@.cell(i1 as int, i2 as int);
                    law_records_stay_consistent(cell, sha1@, bit, false);
                    lemma_stays_manual(cell, sha1@, bit, true);
                    lemma_stays_ready(grid@, i1 as int, i2 as int, cell.merged(sha1@, bit));
                }
                grid.get_mut(i1, i2).record_merge(sha1, bit);
            }
        }
        k += 1;
    }
    Ok(())
}

/// Marks cells as blocked.
fn mark_blockers(grid: &mut Grid, marks: &Vec<(usize, usize)>) -> (r: Result<(), ImergeError>)
    requires
        is_ready(old(grid)@),
    ensures
        match with_marks(old(grid)@, marks.deep_view(), 0) {
            Err(e) => res(r) == Err::<(), ErrorView>(e),
            Ok(marked) => r is Ok && final(grid)@ == marked,
        },
        is_ready(final(grid)@),
        final(grid)@.name == old(grid)@.name,
{
    let ghost all = marks.deep_view();
    let mut k: usize = 0;
    while k < marks.len()
        invariant
            k <= marks.len(),
            all == marks.deep_view(),
            is_ready(grid@),
            grid@.name == old(grid)@.name,
            with_marks(old(grid)@, all, 0) == with_marks(grid@, all, k as nat),
        decreases marks.len() - k,
    {
        let (i1, i2) = marks[k];
        assert(all[k as int] == (i1, i2));
        if i1 >= grid.len1 || i2 >= grid.len2 {
            return failure(&cat3("Blocker ", &shown(i1, i2), " is out of range!"));
        }
        proof {
            let cell = grid@.cell(i1 as int, i2 as int);
            law_records_stay_consistent(cell, Seq::empty(), MergeRecord::NEW_AUTO, true);
            lemma_stays_manual(cell, Seq::empty(), MergeRecord::NEW_AUTO, true);
            lemma_stays_ready(grid@, i1 as int, i2 as int, cell.marked(true));
        }
        grid.get_mut(i1, i2).record_blocked(true);
        k += 1;
    }
    Ok(())
}

impl MergeState {
    /// Puts an incremental merge together from its stored state and the entries
    /// for its cells.
    pub fn rebuild(
        name: &str,
        state: StateDict,
        merges: &Vec<((usize, usize), (String, String))>,
    ) -> (r: Result<MergeState, ImergeError>)
        ensures
            res(r) == rebuilt(name@, state.deep_view(), merges.deep_view()),
            r matches Ok(s) ==> s@.wf(),
    {
        let (base, commits1, commits2) = read_edges(merges)?;
        let tip1 = tip_of(&state.tip1, &commits1, "tip1")?;
        let tip2 = tip_of(&state.tip2, &commits2, "tip2")?;
        if !is_allowed_goal(&state.goal) {
            return failure(
                &cat3("Goal ", &quoted(&state.goal), ", read from state, is not recognized."),
            );
        }
        let branch = match &state.branch {
            Some(b) => b.clone(),
            None => name.to_owned(),
        };
        let mut r = MergeState::new(
            name,
            &base,
            &tip1,
            &commits1,
            &tip2,
            &commits2,
            MergeRecord::SAVED_MANUAL,
            &state.goal,
            copied_goalopts(&state.goalopts),
            state.manual,
            state.dedupe_patches,
            branch,
        );
        record_entries(&mut r.grid, merges)?;
        mark_blockers(&mut r.grid, &state.blockers)?;
        Ok(r)
    }

    /// Reads the incremental merge `name`.
    pub fn read(git: &mut Git, name: &str) -> (r: Result<MergeState, ImergeError>)
        ensures
            (final(git)@, res(r)) == old(git)@.read_imerge(name@),
            old(git)@.grows_to(final(git)@),
            r matches Ok(state) ==> state@.wf(),
    {
        let (state, merges) = git.read_imerge_state(name)?;
        MergeState::rebuild(name, state, &merges)
    }
}

} // verus!
