//! The three kinds of merge frontier.
use vstd::prelude::*;

use crate::block::{diagram_of, lemma_grid_grows, lemma_with_grows, Grid, GridView, Rect};
use crate::error::{res, ErrorView, ImergeError};
use crate::expand::{initiate_merge, is_advanced, lemma_edges_stay};
use crate::fill::{coordinates, fill_cell, shown, Done};
use crate::frontier::{
    affected, blockers, contains, get_affected_blocker_block, is_frontier, is_whole,
    iter_blocker_blocks, law_no_blockers_iff_whole, lemma_boundary,
};
use crate::git::Git;
use crate::known::{edges_known, is_outlined};
use crate::talk::{lemma_grows, lemma_learns_nothing, Talk};
use crate::text::{cat2, cat5, decimal, number};

verus! {

broadcast use lemma_grows, lemma_learns_nothing, lemma_grid_grows;

/// What the user is told about the merge `(a1, a2)` after a conflict.
pub open spec fn conflict_text(a1: usize, a2: usize) -> Seq<char> {
    "Conflict; suggest manual merge of "@ + coordinates(a1 as int, a2 as int)
}

/// What the user is told about the merge `(a1, a2)` where all merges are manual.
pub open spec fn manual_text(a1: usize, a2: usize) -> Seq<char> {
    "Manual merges requested; please merge "@ + coordinates(a1 as int, a2 as int)
}

/// The error that asks the user for the merge `(a1, a2)` after a conflict.
pub open spec fn conflict_at(a1: usize, a2: usize) -> ErrorView {
    ErrorView::FrontierBlocked { i1: a1, i2: a2, msg: conflict_text(a1, a2) }
}

/// The error that asks the user for the merge `(a1, a2)` where all merges are
/// manual.
pub open spec fn manual_at(a1: usize, a2: usize) -> ErrorView {
    ErrorView::FrontierBlocked { i1: a1, i2: a2, msg: manual_text(a1, a2) }
}

/// The merge `(a1, a2)` is still to be made: it is marked as blocked, or has no
/// result.
pub open spec fn is_open(grid: GridView, a1: int, a2: int) -> bool {
    grid.has_inside(a1, a2) && (grid.blocked(a1, a2) || !grid.known(a1, a2))
}

/// The merges above `(a1, a2)` and to its left are known.
pub open spec fn neighbours_known(grid: GridView, a1: int, a2: int) -> bool {
    grid.known(a1 - 1, a2) && grid.known(a1, a2 - 1)
}

/// The first `n1` rows of `block` are known in the first `n2` columns.
pub open spec fn rows_known(grid: GridView, block: Rect, n1: int, n2: int) -> bool {
    forall|k1: int, k2: int|
        0 <= k1 < n1 && 0 <= k2 < n2 ==> #[trigger] grid.known(
            block.origin1 + k1,
            block.origin2 + k2,
        )
}

fn conflict(a1: usize, a2: usize) -> (r: ImergeError)
    ensures
        r.deep_view() == conflict_at(a1, a2),
{
    ImergeError::FrontierBlocked {
        i1: a1,
        i2: a2,
        msg: cat2("Conflict; suggest manual merge of ", &shown(a1, a2)),
    }
}

// ---------------------------------------------------------------------
// One cell after the other
// ---------------------------------------------------------------------

impl Talk {
    /// Fills row `i1` of `block` from column `i2` on, up to column `len2`. The
    /// result is the column of the cell at which it stops.
    pub open spec fn fill_row(
        self,
        grid: GridView,
        block: Rect,
        i1: usize,
        i2: usize,
        len2: usize,
    ) -> Done<Option<usize>>
        decreases len2 - i2,
    {
        let a1 = (block.origin1 + i1) as usize;
        let a2 = (block.origin2 + i2) as usize;
        if i2 >= len2 {
            (self, grid, Ok(None))
        } else if grid.known(a1 as int, a2 as int) {
            self.fill_row(grid, block, i1, (i2 + 1) as usize, len2)
        } else if grid.blocked(a1 as int, a2 as int) {
            (self, grid, Ok(Some(i2)))
        } else {
            match self.fill_cell(
                grid,
                (a1, a2),
                ((a1 - 1) as usize, a2),
                (a1, (a2 - 1) as usize),
            ) {
                (g, grid, Err(e)) => (g, grid, Err(e)),
                (g, grid, Ok(true)) => g.fill_row(grid, block, i1, (i2 + 1) as usize, len2),
                (g, grid, Ok(false)) => (
                    g,
                    grid.with(
                        a1 as int,
                        a2 as int,
                        grid.cell(a1 as int, a2 as int).marked(true),
                    ),
                    Ok(Some(i2)),
                ),
            }
        }
    }

    /// Fills the rows of `block` from row `i1` on. No row goes further than the
    /// one before it. The result is the first cell at which a row stopped.
    pub open spec fn fill_rows(
        self,
        grid: GridView,
        block: Rect,
        i1: usize,
        len2: usize,
        blocker: Option<(usize, usize)>,
    ) -> Done<Option<(usize, usize)>>
        decreases block.len1 - i1,
    {
        if i1 >= block.len1 {
            (self, grid, Ok(blocker))
        } else {
            match self.fill_row(grid, block, i1, 1, len2) {
                (g, grid, Err(e)) => (g, grid, Err(e)),
                (g, grid, Ok(None)) => g.fill_rows(
                    grid,
                    block,
                    (i1 + 1) as usize,
                    len2,
                    blocker,
                ),
                (g, grid, Ok(Some(i2))) => g.fill_rows(
                    grid,
                    block,
                    (i1 + 1) as usize,
                    i2,
                    match blocker {
                        Some(b) => Some(b),
                        None => Some(
                            ((block.origin1 + i1) as usize, (block.origin2 + i2) as usize),
                        ),
                    },
                ),
            }
        }
    }

    /// See [`full_auto_expand`].
    pub open spec fn full_auto_expand(self, grid: GridView, block: Rect) -> Done<()> {
        match self.fill_rows(grid, block, 1, block.len2, None) {
            (g, grid, Err(e)) => (g, grid, Err(e)),
            (g, grid, Ok(Some((a1, a2)))) => (g, grid, Err(conflict_at(a1, a2))),
            (g, grid, Ok(None)) => (g, grid, Err(ErrorView::BlockComplete)),
        }
    }
}

/// The rows of `block` before `i1` are known in the columns before `len2`, and so
/// is row `i1` in the columns before `i2`.
spec fn filled(grid: GridView, block: Rect, i1: int, i2: int, len2: int) -> bool {
    &&& rows_known(grid, block, i1, len2)
    &&& forall|k2: int|
        0 <= k2 < i2 ==> #[trigger] grid.known(block.origin1 + i1, block.origin2 + k2)
}

proof fn lemma_filled_stays(
    grid: GridView,
    later: GridView,
    block: Rect,
    i1: int,
    i2: int,
    len2: int,
)
    requires
        grid.grows_to(later),
        block.within(grid),
        0 <= i1 < block.len1,
        i2 <= len2 <= block.len2,
        filled(grid, block, i1, i2, len2),
    ensures
        filled(later, block, i1, i2, len2),
{
    assert forall|k1: int, k2: int| 0 <= k1 < i1 && 0 <= k2 < len2 implies #[trigger] later.known(
        block.origin1 + k1,
        block.origin2 + k2,
    ) by {
        assert(grid.known(block.origin1 + k1, block.origin2 + k2));
        assert(later.cell(block.origin1 + k1, block.origin2 + k2).known());
    }
    assert forall|k2: int| 0 <= k2 < i2 implies #[trigger] later.known(
        block.origin1 + i1,
        block.origin2 + k2,
    ) by {
        assert(grid.known(block.origin1 + i1, block.origin2 + k2));
        assert(later.cell(block.origin1 + i1, block.origin2 + k2).known());
    }
}

fn fill_row(git: &mut Git, grid: &mut Grid, block: Rect, i1: usize, len2: usize) -> (r: Result<
    Option<usize>,
    ImergeError,
>)
    requires
        old(grid)@.wf(),
        old(grid)@.sound(),
        block.within(old(grid)@),
        1 <= i1 < block.len1,
        1 <= len2 <= block.len2,
        filled(old(grid)@, block, i1 as int, 1, len2 as int),
    ensures
        (final(git)@, final(grid)@, res(r)) == old(git)@.fill_row(
            old(grid)@,
            block,
            i1,
            1,
            len2,
        ),
        old(git)@.grows_to(final(git)@),
        old(grid)@.grows_to(final(grid)@),
        r matches Ok(stop) ==> {
            let end = match stop {
                Some(i2) => i2,
                None => len2,
            };
            &&& 1 <= end <= len2
            &&& filled(final(grid)@, block, i1 as int, end as int, len2 as int)
        },
        r matches Ok(Some(i2)) ==> i2 < len2 && final(grid)@.blocked(
            block.origin1 + i1,
            block.origin2 + i2,
        ),
        r matches Err(e) ==> e is Failure || e is Suspended,
{
    let mut i2: usize = 1;
    while i2 < len2
        invariant
            grid@.wf(),
            grid@.sound(),
            block.within(grid@),
            1 <= i1 < block.len1,
            1 <= i2 <= len2 <= block.len2,
            filled(grid@, block, i1 as int, i2 as int, len2 as int),
            old(git)@.grows_to(git@),
            old(grid)@.grows_to(grid@),
            old(git)@.fill_row(old(grid)@, block, i1, 1, len2) == git@.fill_row(
                grid@,
                block,
                i1,
                i2,
                len2,
            ),
        decreases len2 - i2,
    {
        let a1: usize = block.origin1 + i1;
        let a2: usize = block.origin2 + i2;
        let ghost before = grid@;
        if !grid.is_known(a1, a2) {
            if grid.is_blocked(a1, a2) {
                return Ok(Some(i2));
            }
            proof {
                assert(grid@.known(block.origin1 + (i1 - 1), block.origin2 + i2));
                assert(grid@.known(block.origin1 + i1, block.origin2 + (i2 - 1)));
            }
            let done = fill_cell(git, grid, (a1, a2), (a1 - 1, a2), (a1, a2 - 1))?;
            proof {
                lemma_filled_stays(before, grid@, block, i1 as int, i2 as int, len2 as int);
            }
            if !done {
                let ghost between = grid@;
                proof {
                    lemma_with_grows(grid@, a1 as int, a2 as int, Seq::empty());
                }
                grid.get_mut(a1, a2).record_blocked(true);
                proof {
                    lemma_filled_stays(between, grid@, block, i1 as int, i2 as int, len2 as int);
                }
                return Ok(Some(i2));
            }
        }
        i2 += 1;
    }
    Ok(None)
}

/// Fills one cell after the other, row by row. It ends with the first conflict,
/// or says that the block is complete.
fn full_auto_expand(block: Rect, git: &mut Git, grid: &mut Grid) -> (r: Result<(), ImergeError>)
    requires
        old(grid)@.wf(),
        old(grid)@.sound(),
        block.within(old(grid)@),
        edges_known(old(grid)@, block),
    ensures
        (final(git)@, final(grid)@, res(r)) == old(git)@.full_auto_expand(old(grid)@, block),
        old(git)@.grows_to(final(git)@),
        old(grid)@.grows_to(final(grid)@),
        r is Err,
        r matches Err(ImergeError::FrontierBlocked { i1, i2, msg }) ==> msg@ == conflict_text(
            i1,
            i2,
        ),
        r matches Err(ImergeError::FrontierBlocked { i1, i2, .. }) ==> is_open(
            final(grid)@,
            i1 as int,
            i2 as int,
        ) && neighbours_known(final(grid)@, i1 as int, i2 as int),
        r matches Err(ImergeError::BlockComplete) ==> block.len1 >= 1 && block.len2 >= 1 ==>
            rows_known(final(grid)@, block, block.len1 as int, block.len2 as int),
{
    let mut len2: usize = block.len2;
    let mut blocker: Option<(usize, usize)> = None;
    let mut i1: usize = 1;
    assert(block.len1 >= 1 && block.len2 >= 1 ==> rows_known(grid@, block, 1, len2 as int)) by {
        if block.len1 >= 1 && block.len2 >= 1 {
            assert forall|k1: int, k2: int|
                0 <= k1 < 1 && 0 <= k2 < len2 implies #[trigger] grid@.known(
                block.origin1 + k1,
                block.origin2 + k2,
            ) by {
                assert(grid@.known(block.origin1 as int, block.origin2 + k2));
            }
        }
    }
    while i1 < block.len1
        invariant
            grid@.wf(),
            grid@.sound(),
            block.within(grid@),
            edges_known(grid@, block),
            1 <= i1,
            len2 <= block.len2,
            block.len2 >= 1 ==> len2 >= 1,
            block.len1 >= 1 ==> i1 <= block.len1,
            block.len1 >= 1 && block.len2 >= 1 ==> rows_known(
                grid@,
                block,
                i1 as int,
                len2 as int,
            ),
            blocker is None ==> len2 == block.len2,
            blocker matches Some((a1, a2)) ==> grid@.has_inside(a1 as int, a2 as int)
                && grid@.blocked(a1 as int, a2 as int) && neighbours_known(
                grid@,
                a1 as int,
                a2 as int,
            ),
            old(git)@.grows_to(git@),
            old(grid)@.grows_to(grid@),
            old(git)@.fill_rows(old(grid)@, block, 1, block.len2, None) == git@.fill_rows(
                grid@,
                block,
                i1,
                len2,
                blocker,
            ),
        decreases block.len1 - i1,
    {
        if block.len2 == 0 {
            i1 += 1;
            continue ;
        }
        let ghost before = grid@;
        assert(grid@.known(block.origin1 + i1, block.origin2 as int));
        let stop = fill_row(git, grid, block, i1, len2)?;
        proof {
            lemma_edges_stay(before, grid@, block);
            if let Some((a1, a2)) = blocker {
                assert(grid@.cell(a1 as int, a2 as int).blocked());
                assert(grid@.cell(a1 - 1, a2 as int).known());
                assert(grid@.cell(a1 as int, a2 - 1).known());
            }
        }
        if let Some(i2) = stop {
            if blocker.is_none() {
                assert(grid@.known(block.origin1 + (i1 - 1), block.origin2 + i2));
                assert(grid@.known(block.origin1 + i1, block.origin2 + (i2 - 1)));
                blocker = Some((block.origin1 + i1, block.origin2 + i2));
            }
            len2 = i2;
        }
        assert(rows_known(grid@, block, i1 + 1, len2 as int)) by {
            assert forall|k1: int, k2: int|
                0 <= k1 < i1 + 1 && 0 <= k2 < len2 implies #[trigger] grid@.known(
                block.origin1 + k1,
                block.origin2 + k2,
            ) by {
                if k1 == i1 {
                    assert(grid@.known(block.origin1 + i1, block.origin2 + k2));
                }
            }
        }
        i1 += 1;
    }
    match blocker {
        Some((a1, a2)) => Err(conflict(a1, a2)),
        None => Err(ImergeError::BlockComplete),
    }
}

// ---------------------------------------------------------------------
// Manual merges only
// ---------------------------------------------------------------------

/// The first cell of `block` that is not known, row by row from `(i1, i2)` on.
pub open spec fn first_unknown(grid: GridView, block: Rect, i1: int, i2: int) -> Option<
    (usize, usize),
>
    decreases block.len1 - i1, block.len2 - i2,
{
    if i1 >= block.len1 {
        None
    } else if i2 >= block.len2 {
        first_unknown(grid, block, i1 + 1, 1)
    } else if !grid.known(block.origin1 + i1, block.origin2 + i2) {
        Some(((block.origin1 + i1) as usize, (block.origin2 + i2) as usize))
    } else {
        first_unknown(grid, block, i1, i2 + 1)
    }
}

/// Asks for the first merge that is not there yet.
pub open spec fn manual_request(grid: GridView, block: Rect) -> ErrorView {
    match first_unknown(grid, block, 1, 1) {
        Some((a1, a2)) => manual_at(a1, a2),
        None => ErrorView::BlockComplete,
    }
}

fn manual_auto_expand(block: Rect, grid: &Grid) -> (r: Result<(), ImergeError>)
    requires
        grid@.wf(),
        block.within(grid@),
    ensures
        res(r) == Err::<(), ErrorView>(manual_request(grid@, block)),
        r matches Err(ImergeError::FrontierBlocked { i1, i2, .. }) ==> is_open(
            grid@,
            i1 as int,
            i2 as int,
        ) && (edges_known(grid@, block) ==> neighbours_known(grid@, i1 as int, i2 as int)),
        r matches Err(ImergeError::BlockComplete) ==> block.len1 >= 1 && block.len2 >= 1
            && edges_known(grid@, block) ==> rows_known(
            grid@,
            block,
            block.len1 as int,
            block.len2 as int,
        ),
{
    let mut i1: usize = 1;
    assert(block.len1 >= 1 && edges_known(grid@, block) ==> rows_known(
        grid@,
        block,
        1,
        block.len2 as int,
    )) by {
        if block.len1 >= 1 && edges_known(grid@, block) {
            assert forall|k1: int, k2: int|
                0 <= k1 < 1 && 0 <= k2 < block.len2 implies #[trigger] grid@.known(
                block.origin1 + k1,
                block.origin2 + k2,
            ) by {
                assert(grid@.known(block.origin1 as int, block.origin2 + k2));
            }
        }
    }
    while i1 < block.len1
        invariant
            grid@.wf(),
            block.within(grid@),
            1 <= i1,
            block.len1 >= 1 ==> i1 <= block.len1,
            block.len1 >= 1 && edges_known(grid@, block) ==> rows_known(
                grid@,
                block,
                i1 as int,
                block.len2 as int,
            ),
            first_unknown(grid@, block, 1, 1) == first_unknown(grid@, block, i1 as int, 1),
        decreases block.len1 - i1,
    {
        let mut i2: usize = 1;
        proof {
            if edges_known(grid@, block) {
                assert(grid@.known(block.origin1 + i1, block.origin2 as int));
            }
        }
        while i2 < block.len2
            invariant
                grid@.wf(),
                block.within(grid@),
                1 <= i1 < block.len1,
                1 <= i2,
                block.len2 >= 1 ==> i2 <= block.len2,
                edges_known(grid@, block) ==> rows_known(
                    grid@,
                    block,
                    i1 as int,
                    block.len2 as int,
                ),
                edges_known(grid@, block) ==> forall|k2: int|
                    0 <= k2 < i2 ==> #[trigger] grid@.known(
                        block.origin1 + i1,
                        block.origin2 + k2,
                    ),
                first_unknown(grid@, block, 1, 1) == first_unknown(
                    grid@,
                    block,
                    i1 as int,
                    i2 as int,
                ),
            decreases block.len2 - i2,
        {
            let a1: usize = block.origin1 + i1;
            let a2: usize = block.origin2 + i2;
            if !grid.is_known(a1, a2) {
                proof {
                    if edges_known(grid@, block) {
                        assert(grid@.known(block.origin1 + (i1 - 1), block.origin2 + i2));
                        assert(grid@.known(block.origin1 + i1, block.origin2 + (i2 - 1)));
                    }
                }
                return Err(
                    ImergeError::FrontierBlocked {
                        i1: a1,
                        i2: a2,
                        msg: cat2("Manual merges requested; please merge ", &shown(a1, a2)),
                    },
                );
            }
            i2 += 1;
        }
        assert(edges_known(grid@, block) ==> rows_known(
            grid@,
            block,
            i1 + 1,
            block.len2 as int,
        )) by {
            if edges_known(grid@, block) {
                assert forall|k1: int, k2: int|
                    0 <= k1 < i1 + 1 && 0 <= k2 < block.len2 implies #[trigger] grid@.known(
                    block.origin1 + k1,
                    block.origin2 + k2,
                ) by {
                    if k1 == i1 {
                        assert(grid@.known(block.origin1 + i1, block.origin2 + k2));
                    }
                }
            }
        }
        i1 += 1;
    }
    Err(ImergeError::BlockComplete)
}

// ---------------------------------------------------------------------
// Block by block
// ---------------------------------------------------------------------

/// Whether the origin of `a` comes before that of `b`.
pub open spec fn comes_before(a: Rect, b: Rect) -> bool {
    a.origin1 < b.origin1 || (a.origin1 == b.origin1 && a.origin2 < b.origin2)
}

/// A sorted list with one more region, behind those that do not come after it.
pub open spec fn inserted(list: Seq<Rect>, r: Rect) -> Seq<Rect>
    decreases list.len(),
{
    if list.len() == 0 || !comes_before(r, list.last()) {
        list.push(r)
    } else {
        inserted(list.drop_last(), r).push(list.last())
    }
}

/// The regions in the order of their origins.
pub open spec fn by_origin(regions: Seq<Rect>) -> Seq<Rect>
    decreases regions.len(),
{
    if regions.len() == 0 {
        Seq::empty()
    } else {
        inserted(by_origin(regions.drop_last()), regions.last())
    }
}

/// No region comes before an earlier one.
pub open spec fn is_sorted(list: Seq<Rect>) -> bool {
    forall|i: int, j: int|
        0 <= i < j < list.len() ==> !comes_before(#[trigger] list[j], #[trigger] list[i])
}

/// Sorting keeps the regions and puts them into the order of their origins.
pub proof fn law_sorting(regions: Seq<Rect>)
    ensures
        is_sorted(by_origin(regions)),
        by_origin(regions).to_multiset() == regions.to_multiset(),
        by_origin(regions).len() == regions.len(),
    decreases regions.len(),
{
    broadcast use vstd::seq_lib::group_to_multiset_ensures;

    if regions.len() > 0 {
        let front = regions.drop_last();
        law_sorting(front);
        lemma_inserted(by_origin(front), regions.last());
        assert(front.push(regions.last()) =~= regions);
    }
}

/// Every region of the sorted list is one of the regions.
proof fn lemma_sorted_in(regions: Seq<Rect>, k: int)
    requires
        0 <= k < by_origin(regions).len(),
    ensures
        regions.contains(by_origin(regions)[k]),
    decreases regions.len(),
{
    if regions.len() > 0 {
        let front = regions.drop_last();
        let r = by_origin(regions)[k];
        law_sorting(front);
        lemma_inserted(by_origin(front), regions.last());
        if r == regions.last() {
            assert(regions[regions.len() - 1] == r);
        } else {
            let m = choose|m: int| 0 <= m < by_origin(front).len() && by_origin(front)[m] == r;
            lemma_sorted_in(front, m);
            let n = choose|n: int| 0 <= n < front.len() && front[n] == r;
            assert(regions[n] == r);
        }
    }
}

proof fn lemma_inserted(list: Seq<Rect>, r: Rect)
    requires
        is_sorted(list),
    ensures
        is_sorted(inserted(list, r)),
        inserted(list, r).to_multiset() == list.to_multiset().insert(r),
        inserted(list, r).len() == list.len() + 1,
        forall|k: int|
            0 <= k < inserted(list, r).len() ==> #[trigger] inserted(list, r)[k] == r
                || list.contains(inserted(list, r)[k]),
    decreases list.len(),
{
    broadcast use vstd::seq_lib::group_to_multiset_ensures;

    let after = inserted(list, r);
    if list.len() == 0 || !comes_before(r, list.last()) {
        assert forall|i: int, j: int| 0 <= i < j < after.len() implies !comes_before(
            #[trigger] after[j],
            #[trigger] after[i],
        ) by {
            if j == list.len() && i < list.len() - 1 {
                assert(!comes_before(list[list.len() - 1], list[i]));
            }
        }
        assert forall|k: int| 0 <= k < after.len() implies #[trigger] after[k] == r
            || list.contains(after[k]) by {
            if k < list.len() {
                assert(list[k] == after[k]);
            }
        }
    } else {
        let front = list.drop_last();
        let last = list.last();
        let shorter = inserted(front, r);
        lemma_inserted(front, r);
        assert(front.push(last) =~= list);
        assert forall|i: int, j: int| 0 <= i < j < after.len() implies !comes_before(
            #[trigger] after[j],
            #[trigger] after[i],
        ) by {
            if j < shorter.len() {
                assert(!comes_before(shorter[j], shorter[i]));
            } else {
                assert(after[i] == shorter[i]);
                if shorter[i] != r {
                    let m = choose|m: int| 0 <= m < front.len() && front[m] == shorter[i];
                    assert(!comes_before(list[list.len() - 1], list[m]));
                }
            }
        }
        assert forall|k: int| 0 <= k < after.len() implies #[trigger] after[k] == r
            || list.contains(after[k]) by {
            if k < shorter.len() {
                assert(after[k] == shorter[k]);
                if shorter[k] != r {
                    let m = choose|m: int| 0 <= m < front.len() && front[m] == shorter[k];
                    assert(list[m] == after[k]);
                }
            } else {
                assert(list[list.len() - 1] == after[k]);
            }
        }
        assert(shorter.to_multiset().insert(last) =~= list.to_multiset().insert(r));
    }
}

impl Talk {
    /// Works on the regions from place `k` on, until one of them gives way.
    pub open spec fn expand_regions(self, grid: GridView, regions: Seq<Rect>, k: nat) -> Done<
        bool,
    >
        decreases regions.len() - k,
    {
        if k >= regions.len() {
            (self, grid, Ok(false))
        } else {
            match self.initiate_merge(grid, regions[k as int]) {
                (g, grid, Err(e)) => (g, grid, Err(e)),
                (g, grid, Ok((_, blocks))) => if blocks.len() > 0 {
                    (g, grid, Ok(true))
                } else {
                    g.expand_regions(grid, regions, k + 1)
                },
            }
        }
    }

    /// See [`blockwise_auto_expand`].
    pub open spec fn blockwise_auto_expand(
        self,
        grid: GridView,
        top: Rect,
        blocks: Seq<Rect>,
    ) -> Done<()> {
        let regions = by_origin(blockers(top, blocks));
        if regions.len() == 0 {
            (self, grid, Err(ErrorView::BlockComplete))
        } else {
            match self.expand_regions(grid, regions, 0) {
                (g, grid, Err(e)) => (g, grid, Err(e)),
                (g, grid, Ok(true)) => (g, grid, Ok(())),
                (g, grid, Ok(false)) => (
                    g,
                    grid,
                    match regions[0].absolute(1, 1) {
                        Err(e) => Err(e),
                        Ok((a1, a2)) => Err(conflict_at(a1, a2)),
                    },
                ),
            }
        }
    }
}

/// Puts a region into a sorted list.
fn insert_region(list: Vec<Rect>, r: Rect) -> (v: Vec<Rect>)
    ensures
        v@ == inserted(list@, r),
{
    let mut front = list;
    let mut tail: Vec<Rect> = Vec::new();
    let ghost whole = inserted(list@, r);
    assert(whole =~= inserted(front@, r) + tail@.reverse());
    while front.len() > 0 && (r.origin1 < front[front.len() - 1].origin1 || (r.origin1
        == front[front.len() - 1].origin1 && r.origin2 < front[front.len() - 1].origin2))
        invariant
            whole == inserted(list@, r),
            whole == inserted(front@, r) + tail@.reverse(),
        decreases front.len(),
    {
        let ghost before = front@;
        let ghost old_tail = tail@;
        if let Some(last) = front.pop() {
            tail.push(last);
            assert(front@ =~= before.drop_last());
            assert(inserted(before, r) + old_tail.reverse() =~= inserted(front@, r)
                + tail@.reverse());
        }
    }
    front.push(r);
    while tail.len() > 0
        invariant
            whole == inserted(list@, r),
            whole == front@ + tail@.reverse(),
        decreases tail.len(),
    {
        let ghost before = front@;
        let ghost old_tail = tail@;
        if let Some(next) = tail.pop() {
            front.push(next);
            assert(before + old_tail.reverse() =~= front@ + tail@.reverse());
        }
    }
    assert(front@ =~= whole);
    front
}

/// Sorts regions by their origins.
fn sorted_by_origin(regions: &Vec<Rect>) -> (r: Vec<Rect>)
    ensures
        r@ == by_origin(regions@),
{
    let mut r: Vec<Rect> = Vec::new();
    let mut k: usize = 0;
    assert(r@ =~= by_origin(regions@.take(0)));
    while k < regions.len()
        invariant
            k <= regions.len(),
            r@ == by_origin(regions@.take(k as int)),
        decreases regions.len() - k,
    {
        assert(regions@.take(k + 1).drop_last() =~= regions@.take(k as int));
        assert(regions@.take(k + 1).last() == regions@[k as int]);
        r = insert_region(r, regions[k]);
        k += 1;
    }
    assert(regions@.take(k as int) =~= regions@);
    r
}

/// Progress was made beyond a frontier: some block of a region there that reaches
/// beyond the region's edges is outlined.
pub open spec fn has_advanced(grid: GridView, top: Rect, blocks: Seq<Rect>) -> bool {
    exists|region: Rect| #[trigger]
        blockers(top, blocks).contains(region) && is_advanced(grid, region)
}

/// What holds of each region beyond a frontier.
spec fn is_region(grid: GridView, r: Rect) -> bool {
    r.within(grid) && r.len1 >= 1 && r.len2 >= 1 && edges_known(grid, r)
}

proof fn lemma_regions(grid: GridView, top: Rect, blocks: Seq<Rect>, k: int)
    requires
        is_frontier(top, blocks),
        top.within(grid),
        is_outlined(grid, top, blocks),
        0 <= k < by_origin(blockers(top, blocks)).len(),
    ensures
        is_region(grid, by_origin(blockers(top, blocks))[k]),
{
    let regions = blockers(top, blocks);
    let sorted = by_origin(regions);
    lemma_sorted_in(regions, k);
    let m = choose|m: int| 0 <= m < regions.len() && regions[m] == sorted[k];
    lemma_boundary(top, blocks, m);
    assert(edges_known(grid, regions[m]));
}

/// Works on the regions beyond the frontier, in the order of their origins, until
/// one of them gives way. If none does, the user is asked for the first merge.
fn blockwise_auto_expand(git: &mut Git, grid: &mut Grid, top: Rect, blocks: &Vec<Rect>) -> (r:
    Result<(), ImergeError>)
    requires
        old(grid)@.wf(),
        old(grid)@.sound(),
        top.within(old(grid)@),
        is_frontier(top, blocks@),
        is_outlined(old(grid)@, top, blocks@),
    ensures
        (final(git)@, final(grid)@, res(r)) == old(git)@.blockwise_auto_expand(
            old(grid)@,
            top,
            blocks@,
        ),
        old(git)@.grows_to(final(git)@),
        old(grid)@.grows_to(final(grid)@),
        r matches Err(ImergeError::FrontierBlocked { i1, i2, msg }) ==> msg@ == conflict_text(
            i1,
            i2,
        ),
        r matches Err(ImergeError::FrontierBlocked { i1, i2, .. }) ==> is_open(
            final(grid)@,
            i1 as int,
            i2 as int,
        ) && neighbours_known(final(grid)@, i1 as int, i2 as int),
        r matches Err(ImergeError::BlockComplete) ==> is_whole(top, blocks@) && final(grid)@
            == old(grid)@,
        r is Ok ==> has_advanced(final(grid)@, top, blocks@),
{
    let found = iter_blocker_blocks(top, blocks);
    let regions = sorted_by_origin(&found);
    proof {
        law_sorting(blockers(top, blocks@));
        law_no_blockers_iff_whole(top, blocks@);
    }
    if regions.len() == 0 {
        return Err(ImergeError::BlockComplete);
    }
    assert forall|k: int| 0 <= k < regions@.len() implies is_region(
        grid@,
        #[trigger] regions@[k],
    ) by {
        lemma_regions(grid@, top, blocks@, k);
    }
    let first = regions[0];
    let mut k: usize = 0;
    while k < regions.len()
        invariant
            k <= regions.len(),
            regions.len() > 0,
            regions@ == by_origin(blockers(top, blocks@)),
            first == regions@[0],
            grid@.wf(),
            grid@.sound(),
            old(git)@.grows_to(git@),
            old(grid)@.grows_to(grid@),
            old(git)@.blockwise_auto_expand(old(grid)@, top, blocks@) == match old(
                git,
            )@.expand_regions(old(grid)@, regions@, 0) {
                (g, grid, Err(e)) => (g, grid, Err(e)),
                (g, grid, Ok(true)) => (g, grid, Ok(())),
                (g, grid, Ok(false)) => (
                    g,
                    grid,
                    match first.absolute(1, 1) {
                        Err(e) => Err(e),
                        Ok((a1, a2)) => Err(conflict_at(a1, a2)),
                    },
                ),
            },
            old(git)@.expand_regions(old(grid)@, regions@, 0) == git@.expand_regions(
                grid@,
                regions@,
                k as nat,
            ),
            forall|m: int| 0 <= m < regions@.len() ==> is_region(grid@, #[trigger] regions@[m]),
            k > 0 && first.len1 >= 2 && first.len2 >= 2 ==> grid@.blocked(
                first.origin1 + 1,
                first.origin2 + 1,
            ),
        decreases regions.len() - k,
    {
        let ghost before = grid@;
        assert(is_region(grid@, regions@[k as int]));
        let (_, new_blocks) = initiate_merge(git, grid, regions[k])?;
        if new_blocks.len() > 0 {
            proof {
                lemma_sorted_in(blockers(top, blocks@), k as int);
            }
            return Ok(());
        }
        proof {
            assert forall|m: int| 0 <= m < regions@.len() implies is_region(
                grid@,
                #[trigger] regions@[m],
            ) by {
                assert(is_region(before, regions@[m]));
                lemma_edges_stay(before, grid@, regions@[m]);
            }
            assert(is_region(before, regions@[0]));
            if k > 0 && first.len1 >= 2 && first.len2 >= 2 {
                assert(grid@.cell(first.origin1 + 1, first.origin2 + 1).blocked());
            }
        }
        k += 1;
    }
    assert(is_region(grid@, regions@[0]));
    let (a1, a2) = first.abs(1, 1)?;
    assert(grid@.known(first.origin1 + 1, first.origin2 as int));
    assert(grid@.known(first.origin1 as int, first.origin2 + 1));
    Err(conflict(a1, a2))
}

// ---------------------------------------------------------------------
// Diagrams of a blockwise frontier
// ---------------------------------------------------------------------

/// The cell lies inside the frontier.
pub const FRONTIER_WITHIN: u8 = 0x10;

/// The frontier runs along the right edge of the cell.
pub const FRONTIER_RIGHT_EDGE: u8 = 0x20;

/// The frontier runs along the lower edge of the cell.
pub const FRONTIER_BOTTOM_EDGE: u8 = 0x40;

/// Whether some block holds the cell `(i1, i2)` of the window.
pub open spec fn inside(blocks: Seq<Rect>, i1: int, i2: int) -> bool {
    exists|n: int| 0 <= n < blocks.len() && #[trigger] in_block(blocks, n, i1, i2)
}

/// Whether block `n` holds the cell `(i1, i2)` of the window.
pub open spec fn in_block(blocks: Seq<Rect>, n: int, i1: int, i2: int) -> bool {
    i1 < blocks[n].len1 && i2 < blocks[n].len2
}

/// Whether the cell is in the last row of block `n`, and the next block does not
/// reach so far.
pub open spec fn on_right(blocks: Seq<Rect>, n: int, i1: int, i2: int) -> bool {
    in_block(blocks, n, i1, i2) && i1 + 1 == blocks[n].len1 && (n + 1 >= blocks.len() || i2
        >= blocks[n + 1].len2)
}

/// Whether the cell is in the last column of block `n`, and the block before it
/// does not reach so far.
pub open spec fn on_bottom(blocks: Seq<Rect>, n: int, i1: int, i2: int) -> bool {
    in_block(blocks, n, i1, i2) && i2 + 1 == blocks[n].len2 && (n == 0 || i1 >= blocks[n - 1].len1)
}

/// Whether the frontier runs along the right edge of the cell: at the end of a
/// block, or along the window's own edge where no block reaches.
pub open spec fn right_edge(top: Rect, blocks: Seq<Rect>, i1: int, i2: int) -> bool {
    ||| i1 == 0 && i2 >= 1 && (blocks.len() == 0 || i2 >= blocks[0].len2)
    ||| i1 + 1 == top.len1 && i2 == 0
    ||| exists|n: int| 0 <= n < blocks.len() && #[trigger] on_right(blocks, n, i1, i2)
}

/// Whether the frontier runs along the lower edge of the cell.
pub open spec fn bottom_edge(top: Rect, blocks: Seq<Rect>, i1: int, i2: int) -> bool {
    ||| i2 == 0 && i1 >= 1 && (blocks.len() == 0 || i1 >= blocks.last().len1)
    ||| i1 == 0 && i2 + 1 == top.len2
    ||| exists|n: int| 0 <= n < blocks.len() && #[trigger] on_bottom(blocks, n, i1, i2)
}

/// A diagram code with the bits of the frontier.
pub open spec fn overlaid(code: u8, within: bool, right: bool, bottom: bool) -> u8 {
    code | (if within {
        FRONTIER_WITHIN
    } else {
        0
    }) | (if right {
        FRONTIER_RIGHT_EDGE
    } else {
        0
    }) | (if bottom {
        FRONTIER_BOTTOM_EDGE
    } else {
        0
    })
}

/// The diagram of a blockwise frontier.
pub open spec fn blockwise_diagram(grid: GridView, top: Rect, blocks: Seq<Rect>) -> Seq<Seq<u8>> {
    Seq::new(
        top.len1 as nat,
        |i1: int|
            Seq::new(
                top.len2 as nat,
                |i2: int|
                    overlaid(
                        grid.code(top.origin1 + i1, top.origin2 + i2),
                        inside(blocks, i1, i2),
                        right_edge(top, blocks, i1, i2),
                        bottom_edge(top, blocks, i1, i2),
                    ),
            ),
    )
}

/// The bits of the frontier for one cell.
fn frontier_bits(top: Rect, blocks: &Vec<Rect>, i1: usize, i2: usize) -> (r: (bool, bool, bool))
    requires
        i1 < top.len1,
        i2 < top.len2,
    ensures
        r.0 == inside(blocks@, i1 as int, i2 as int),
        r.1 == right_edge(top, blocks@, i1 as int, i2 as int),
        r.2 == bottom_edge(top, blocks@, i1 as int, i2 as int),
{
    let n: usize = blocks.len();
    let mut within = false;
    let mut right = (i1 == 0 && i2 >= 1 && (n == 0 || i2 >= blocks[0].len2)) || (i1 + 1 == top.len1
        && i2 == 0);
    let mut bottom = (i2 == 0 && i1 >= 1 && (n == 0 || i1 >= blocks[n - 1].len1)) || (i1 == 0 && i2
        + 1 == top.len2);
    let ghost right0 = right;
    let ghost bottom0 = bottom;
    let mut k: usize = 0;
    while k < n
        invariant
            i1 < top.len1,
            i2 < top.len2,
            k <= n == blocks.len(),
            within <==> exists|m: int|
                0 <= m < k && #[trigger] in_block(blocks@, m, i1 as int, i2 as int),
            right <==> right0 || exists|m: int|
                0 <= m < k && #[trigger] on_right(blocks@, m, i1 as int, i2 as int),
            bottom <==> bottom0 || exists|m: int|
                0 <= m < k && #[trigger] on_bottom(blocks@, m, i1 as int, i2 as int),
        decreases n - k,
    {
        let b = blocks[k];
        if i1 < b.len1 && i2 < b.len2 {
            assert(in_block(blocks@, k as int, i1 as int, i2 as int));
            within = true;
            if i1 + 1 == b.len1 && (k + 1 >= n || i2 >= blocks[k + 1].len2) {
                assert(on_right(blocks@, k as int, i1 as int, i2 as int));
                right = true;
            }
            if i2 + 1 == b.len2 && (k == 0 || i1 >= blocks[k - 1].len1) {
                assert(on_bottom(blocks@, k as int, i1 as int, i2 as int));
                bottom = true;
            }
        }
        k += 1;
    }
    (within, right, bottom)
}

fn blockwise_create_diagram(grid: &Grid, top: Rect, blocks: &Vec<Rect>) -> (r: Vec<Vec<u8>>)
    requires
        grid@.wf(),
        top.within(grid@),
    ensures
        r.deep_view() == blockwise_diagram(grid@, top, blocks@),
{
    let plain = top.create_diagram(grid);
    let ghost codes = plain.deep_view();
    let ghost want = blockwise_diagram(grid@, top, blocks@);
    let mut r: Vec<Vec<u8>> = Vec::new();
    let mut i1: usize = 0;
    while i1 < top.len1
        invariant
            i1 <= top.len1,
            codes == plain.deep_view(),
            codes == diagram_of(grid@, top),
            want == blockwise_diagram(grid@, top, blocks@),
            r.len() == i1,
            forall|k: int| 0 <= k < i1 ==> (#[trigger] r[k]).deep_view() == want[k],
        decreases top.len1 - i1,
    {
        let mut row: Vec<u8> = Vec::new();
        let mut i2: usize = 0;
        assert(codes.len() == plain.len());
        assert(codes[i1 as int] == plain[i1 as int].deep_view());
        assert(codes[i1 as int].len() == top.len2);
        while i2 < top.len2
            invariant
                i1 < top.len1,
                i2 <= top.len2,
                codes == plain.deep_view(),
                codes == diagram_of(grid@, top),
                codes.len() == plain.len(),
                codes[i1 as int] == plain[i1 as int].deep_view(),
                codes[i1 as int].len() == plain[i1 as int].len(),
                want == blockwise_diagram(grid@, top, blocks@),
                row.len() == i2,
                forall|k: int| 0 <= k < i2 ==> #[trigger] row[k] == want[i1 as int][k],
            decreases top.len2 - i2,
        {
            let (within, right, bottom) = frontier_bits(top, blocks, i1, i2);
            assert(codes[i1 as int][i2 as int] == plain[i1 as int]@[i2 as int]);
            let code: u8 = plain[i1][i2];
            let bit1: u8 = if within {
                FRONTIER_WITHIN
            } else {
                0
            };
            let bit2: u8 = if right {
                FRONTIER_RIGHT_EDGE
            } else {
                0
            };
            let bit3: u8 = if bottom {
                FRONTIER_BOTTOM_EDGE
            } else {
                0
            };
            row.push(code | bit1 | bit2 | bit3);
            i2 += 1;
        }
        assert(row.deep_view() =~= want[i1 as int]);
        r.push(row);
        i1 += 1;
    }
    assert(r.deep_view() =~= want);
    r
}

// ---------------------------------------------------------------------
// Frontier
// ---------------------------------------------------------------------

/// How far the merges of a window have come, and how they go on from there.
pub enum Frontier {
    /// One cell after the other.
    Full(Rect),
    /// Manual merges only.
    Manual(Rect),
    /// Block by block; `blocks` are the regions that are outlined.
    Blockwise { top: Rect, blocks: Vec<Rect> },
}

/// The content of a [`Frontier`].
pub enum FrontierView {
    Full(Rect),
    Manual(Rect),
    Blockwise { top: Rect, blocks: Seq<Rect> },
}

impl View for Frontier {
    type V = FrontierView;

    open spec fn view(&self) -> FrontierView {
        match self {
            Frontier::Full(b) => FrontierView::Full(*b),
            Frontier::Manual(b) => FrontierView::Manual(*b),
            Frontier::Blockwise { top, blocks } => FrontierView::Blockwise {
                top: *top,
                blocks: blocks@,
            },
        }
    }
}

impl DeepView for Frontier {
    type V = FrontierView;

    open spec fn deep_view(&self) -> FrontierView {
        self@
    }
}

impl FrontierView {
    /// The window of the frontier.
    pub open spec fn window(self) -> Rect {
        match self {
            FrontierView::Full(b) => b,
            FrontierView::Manual(b) => b,
            FrontierView::Blockwise { top, .. } => top,
        }
    }

    /// The frontier lies inside the grid, and its blocks form one.
    pub open spec fn placed(self, grid: GridView) -> bool {
        &&& grid.wf()
        &&& self.window().within(grid)
        &&& self matches FrontierView::Blockwise { top, blocks } ==> is_frontier(top, blocks)
    }

    /// What the frontier takes for granted about a grid: the commits that merges
    /// start from are known.
    pub open spec fn valid(self, grid: GridView) -> bool {
        &&& self.placed(grid)
        &&& grid.sound()
        &&& match self {
            FrontierView::Full(b) => edges_known(grid, b),
            FrontierView::Manual(b) => true,
            FrontierView::Blockwise { top, blocks } => is_outlined(grid, top, blocks),
        }
    }

    /// See [`Frontier::is_complete`].
    pub open spec fn is_complete(self, grid: GridView) -> Result<bool, ErrorView> {
        match self {
            FrontierView::Blockwise { top, blocks } => Ok(is_whole(top, blocks)),
            _ => match self.window().absolute(-1, -1) {
                Err(e) => Err(e),
                Ok((a1, a2)) => Ok(grid.known(a1 as int, a2 as int)),
            },
        }
    }

    /// See [`Frontier::auto_expand`].
    pub open spec fn auto_expand(self, g: Talk, grid: GridView) -> Done<()> {
        match self {
            FrontierView::Full(b) => g.full_auto_expand(grid, b),
            FrontierView::Manual(b) => (g, grid, Err(manual_request(grid, b))),
            FrontierView::Blockwise { top, blocks } => g.blockwise_auto_expand(grid, top, blocks),
        }
    }

    /// The cell of the grid that a merge made by the user is no longer blocked at.
    pub open spec fn unblocks(self, grid: GridView, i1: usize, i2: usize) -> Result<
        (usize, usize),
        ErrorView,
    > {
        match self {
            FrontierView::Blockwise { top, blocks } => match affected(
                blockers(top, blocks),
                i1,
                i2,
            ) {
                Err(e) => Err(e),
                Ok(region) => region.absolute(1, 1),
            },
            _ => match self.window().absolute(i1 as isize as int, i2 as isize as int) {
                Err(e) => Err(e),
                Ok((a1, a2)) => if grid.blocked(a1 as int, a2 as int) {
                    Ok((a1, a2))
                } else {
                    Err(
                        ErrorView::NotABlockingCommit(
                            "Commit "@ + decimal(i1 as nat) + "-"@ + decimal(i2 as nat)
                                + " was not on the frontier."@,
                        ),
                    )
                },
            },
        }
    }

    /// See [`Frontier::create_diagram`].
    pub open spec fn diagram(self, grid: GridView) -> Seq<Seq<u8>> {
        match self {
            FrontierView::Blockwise { top, blocks } => blockwise_diagram(grid, top, blocks),
            _ => diagram_of(grid, self.window()),
        }
    }
}

impl Frontier {
    /// The window of the frontier.
    pub fn block(&self) -> (r: Rect)
        ensures
            r == self@.window(),
    {
        match self {
            Frontier::Full(b) => *b,
            Frontier::Manual(b) => *b,
            Frontier::Blockwise { top, blocks: _ } => *top,
        }
    }

    /// Whether nothing is left to do: the last cell of the window is known, or
    /// one block covers it all.
    pub fn is_complete(&self, grid: &Grid) -> (r: Result<bool, ImergeError>)
        requires
            grid@.wf(),
            self@.window().within(grid@),
        ensures
            res(r) == self@.is_complete(grid@),
    {
        match self {
            Frontier::Full(b) => b.known(grid, -1, -1),
            Frontier::Manual(b) => b.known(grid, -1, -1),
            Frontier::Blockwise { top, blocks } => Ok(
                blocks.len() == 1 && blocks[0].len1 == top.len1 && blocks[0].len2 == top.len2,
            ),
        }
    }

    /// Pushes the frontier forward. A success means that progress was made: the
    /// frontier has to be mapped anew, and there may be more to do. That there is nothing left to do, or
    /// that a merge needs the user, is an error. The merge that the user is asked
    /// for is still to be made, and the two merges that it joins are known.
    pub fn auto_expand(&self, git: &mut Git, grid: &mut Grid) -> (r: Result<(), ImergeError>)
        requires
            self@.valid(old(grid)@),
        ensures
            (final(git)@, final(grid)@, res(r)) == self@.auto_expand(old(git)@, old(grid)@),
            old(git)@.grows_to(final(git)@),
            old(grid)@.grows_to(final(grid)@),
            r is Ok ==> (self@ matches FrontierView::Blockwise { top, blocks } && has_advanced(
                final(grid)@,
                top,
                blocks,
            )),
            r matches Err(ImergeError::FrontierBlocked { i1, i2, msg }) ==> msg@ == conflict_text(
                i1,
                i2,
            ) || msg@ == manual_text(i1, i2),
            r matches Err(ImergeError::FrontierBlocked { i1, i2, .. }) ==> is_open(
                final(grid)@,
                i1 as int,
                i2 as int,
            ) && (edges_known(old(grid)@, self@.window()) ==> neighbours_known(
                final(grid)@,
                i1 as int,
                i2 as int,
            )),
            r matches Err(ImergeError::BlockComplete) ==> self@.window().len1 >= 1
                && self@.window().len2 >= 1 && edges_known(old(grid)@, self@.window()) ==>
                self@.is_complete(final(grid)@) == Ok::<bool, ErrorView>(true),
            r matches Err(ImergeError::BlockComplete) ==> self@ is Blockwise ==> final(grid)@
                == old(grid)@,
    {
        let ghost window = self@.window();
        let r = match self {
            Frontier::Full(b) => full_auto_expand(*b, git, grid),
            Frontier::Manual(b) => manual_auto_expand(*b, grid),
            Frontier::Blockwise { top, blocks } => blockwise_auto_expand(git, grid, *top, blocks),
        };
        proof {
            let k1 = window.len1 - 1;
            let k2 = window.len2 - 1;
            if k1 >= 0 && k2 >= 0 && rows_known(grid@, window, k1 + 1, k2 + 1) {
                assert(grid@.known(window.origin1 + k1, window.origin2 + k2));
            }
        }
        r
    }

    /// Takes note that the user has made the merge `(i1, i2)`: the cell no longer
    /// blocks the frontier. It has to be one that did.
    pub fn incorporate_merge(&self, grid: &mut Grid, i1: usize, i2: usize) -> (r: Result<
        (),
        ImergeError,
    >)
        requires
            self@.placed(old(grid)@),
        ensures
            match self@.unblocks(old(grid)@, i1, i2) {
                Err(e) => res(r) == Err::<(), ErrorView>(e) && final(grid)@ == old(grid)@,
                Ok((a1, a2)) => r is Ok && final(grid)@ == old(grid)@.with(
                    a1 as int,
                    a2 as int,
                    old(grid)@.cell(a1 as int, a2 as int).marked(false),
                ),
            },
            final(grid)@.wf(),
    {
        match self {
            Frontier::Full(b) => incorporate_at(*b, grid, i1, i2),
            Frontier::Manual(b) => incorporate_at(*b, grid, i1, i2),
            Frontier::Blockwise { top, blocks } => {
                let region = get_affected_blocker_block(*top, blocks, i1, i2)?;
                proof {
                    lemma_affected(grid@, *top, blocks@, blockers(*top, blocks@), i1, i2);
                }
                region.record_blocked(grid, 1, 1, false)
            },
        }
    }

    /// The diagram codes of the window's cells, with the frontier marked where it
    /// is one of blocks.
    pub fn create_diagram(&self, grid: &Grid) -> (r: Vec<Vec<u8>>)
        requires
            grid@.wf(),
            self@.window().within(grid@),
        ensures
            r.deep_view() == self@.diagram(grid@),
    {
        match self {
            Frontier::Full(b) => b.create_diagram(grid),
            Frontier::Manual(b) => b.create_diagram(grid),
            Frontier::Blockwise { top, blocks } => blockwise_create_diagram(grid, *top, blocks),
        }
    }
}

fn incorporate_at(b: Rect, grid: &mut Grid, i1: usize, i2: usize) -> (r: Result<(), ImergeError>)
    requires
        old(grid)@.wf(),
        b.within(old(grid)@),
    ensures
        match FrontierView::Full(b).unblocks(old(grid)@, i1, i2) {
            Err(e) => res(r) == Err::<(), ErrorView>(e) && final(grid)@ == old(grid)@,
            Ok((a1, a2)) => r is Ok && final(grid)@ == old(grid)@.with(
                a1 as int,
                a2 as int,
                old(grid)@.cell(a1 as int, a2 as int).marked(false),
            ),
        },
        final(grid)@.wf(),
{
    if !b.blocked(grid, i1 as isize, i2 as isize)? {
        return Err(
            ImergeError::NotABlockingCommit(
                cat5("Commit ", &number(i1), "-", &number(i2), " was not on the frontier."),
            ),
        );
    }
    b.record_blocked(grid, i1 as isize, i2 as isize, false)
}

/// The region that a merge belongs to lies inside the grid.
proof fn lemma_affected(
    grid: GridView,
    top: Rect,
    blocks: Seq<Rect>,
    rest: Seq<Rect>,
    i1: usize,
    i2: usize,
)
    requires
        is_frontier(top, blocks),
        top.within(grid),
        forall|k: int|
            0 <= k < rest.len() ==> blockers(top, blocks).contains(#[trigger] rest[k]),
    ensures
        affected(rest, i1, i2) matches Ok(region) ==> region.within(grid),
    decreases rest.len(),
{
    if rest.len() > 0 {
        assert(blockers(top, blocks).contains(rest[0]));
        let m = choose|m: int|
            0 <= m < blockers(top, blocks).len() && blockers(top, blocks)[m] == rest[0];
        lemma_boundary(top, blocks, m);
        let more = rest.skip(1);
        assert forall|k: int| 0 <= k < more.len() implies blockers(top, blocks).contains(
            #[trigger] more[k],
        ) by {
            assert(more[k] == rest[k + 1]);
        }
        lemma_affected(grid, top, blocks, more, i1, i2);
    }
}

/// The cell that a merge by the user is no longer blocked at is one of the grid.
pub(crate) proof fn lemma_unblocks(f: FrontierView, grid: GridView, i1: usize, i2: usize)
    requires
        f.placed(grid),
    ensures
        f.unblocks(grid, i1, i2) matches Ok((a1, a2)) ==> grid.has(a1 as int, a2 as int),
{
    if let FrontierView::Blockwise { top, blocks } = f {
        lemma_affected(grid, top, blocks, blockers(top, blocks), i1, i2);
    }
}

} // verus!
