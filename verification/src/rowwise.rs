//! What the two frontiers come to that go row by row.
//!
//! A full frontier and a manual one take the cells in the same order. The law here
//! says where they stop, whatever the merges on the way come to.
use vstd::prelude::*;

use crate::block::{lemma_grid_grows, lemma_with_grows, GridView, MergeRecord, Rect};
use crate::error::ErrorView;
use crate::fill::{auto_message, coordinates};
use crate::strategy::{conflict_at, first_unknown, manual_at, FrontierView};
use crate::talk::Talk;

verus! {

/// `(a1, a2)` is a cell of `block` off its first row and column.
pub open spec fn is_inner(block: Rect, a1: int, a2: int) -> bool {
    &&& block.origin1 < a1 < block.origin1 + block.len1
    &&& block.origin2 < a2 < block.origin2 + block.len2
}

/// Whether `(b1, b2)` comes before `(a1, a2)` row by row.
pub open spec fn is_before(b1: int, b2: int, a1: int, a2: int) -> bool {
    b1 < a1 || (b1 == a1 && b2 < a2)
}

/// Every inner cell of `block` that comes before `(a1, a2)` is known.
pub open spec fn known_before(grid: GridView, block: Rect, a1: int, a2: int) -> bool {
    forall|b1: int, b2: int|
        is_inner(block, b1, b2) && is_before(b1, b2, a1, a2) ==> #[trigger] grid.known(b1, b2)
}

/// Every inner cell of `block` is known.
pub open spec fn all_known(grid: GridView, block: Rect) -> bool {
    forall|b1: int, b2: int| is_inner(block, b1, b2) ==> #[trigger] grid.known(b1, b2)
}

/// `(a1, a2)` is the first inner cell of `block`, row by row, that is not known.
pub open spec fn is_first_unknown(grid: GridView, block: Rect, a1: int, a2: int) -> bool {
    &&& is_inner(block, a1, a2)
    &&& !grid.known(a1, a2)
    &&& known_before(grid, block, a1, a2)
}

/// The error comes from the exchange: `git` failed, or a reply is missing.
pub open spec fn is_outside(e: ErrorView) -> bool {
    e is Failure || e is Suspended
}

proof fn lemma_automerge_error(
    g: Talk,
    commit1: Seq<char>,
    commit2: Seq<char>,
    msg: Option<Seq<char>>,
    global_opts: Seq<Seq<char>>,
    extra: Seq<Seq<char>>,
)
    ensures
        g.automerge_with_strategy(commit1, commit2, msg, global_opts, extra).1 matches Err(e)
            ==> is_outside(e),
{
}

proof fn lemma_patch_error(g: Talk, commit: Seq<char>)
    ensures
        g.patch_id(commit).1 matches Err(e) ==> is_outside(e),
{
}

proof fn lemma_same_patch_error(g: Talk, grid: GridView, a1: int, a2: int)
    ensures
        g.same_patch(grid, a1, a2).1 matches Err(e) ==> is_outside(e),
{
    let c1 = grid.commit(a1, 0);
    lemma_patch_error(g, c1);
    lemma_patch_error(g.patch_id(c1).0, grid.commit(0, a2));
}

#[verifier::spinoff_prover]
#[verifier::rlimit(40)]
pub(crate) proof fn lemma_merge_error(
    g: Talk,
    grid: GridView,
    commit1: Seq<char>,
    commit2: Seq<char>,
    msg: Option<Seq<char>>,
    a1: int,
    a2: int,
    single: bool,
)
    ensures
        g.merge_cell(grid, commit1, commit2, msg, a1, a2, single).1 matches Err(e) ==> is_outside(
            e,
        ),
{
    reveal(Talk::merge_cell);
    lemma_automerge_error(g, commit1, commit2, msg, seq![], seq![]);
    let g1 = g.automerge(commit1, commit2, msg).0;
    lemma_same_patch_error(g1, grid, a1, a2);
    let (g2, file) = g1.same_patch(grid, a1, a2).0.empty_attributes_file();
    if let Ok(path) = file {
        let opts = seq!["-c"@, "core.attributesFile="@ + path];
        lemma_automerge_error(g2, commit1, commit2, msg, opts, seq!["-X"@, "ours"@]);
    }
}

/// The grids have the same cells outside of row `a1`, and in that row before `a2`.
pub open spec fn same_but_after(grid: GridView, later: GridView, a1: int, a2: int) -> bool {
    forall|b1: int, b2: int|
        grid.has(b1, b2) && (b1 != a1 || b2 < a2) ==> #[trigger] later.cell(b1, b2) == grid.cell(
            b1,
            b2,
        )
}

/// Where the cells of the row are known from column `lo` up to column `hi`.
pub open spec fn known_between(grid: GridView, block: Rect, i1: int, lo: int, hi: int) -> bool {
    forall|b2: int|
        block.origin2 + lo <= b2 < block.origin2 + hi ==> #[trigger] grid.known(
            block.origin1 + i1,
            b2,
        )
}

pub(crate) proof fn lemma_fill_row(g: Talk, grid: GridView, block: Rect, i1: usize, i2: usize, len2: usize)
    requires
        grid.wf(),
        grid.sound(),
        block.within(grid),
        1 <= i1 < block.len1,
        1 <= i2,
        len2 <= block.len2,
    ensures
        ({
            let (_, later, r) = g.fill_row(grid, block, i1, i2, len2);
            &&& grid.grows_to(later)
            &&& same_but_after(grid, later, block.origin1 + i1, block.origin2 + i2)
            &&& match r {
                Ok(None) => known_between(later, block, i1 as int, i2 as int, len2 as int),
                Ok(Some(n)) => {
                    &&& i2 <= n < len2
                    &&& known_between(later, block, i1 as int, i2 as int, n as int)
                    &&& !later.known(block.origin1 + i1, block.origin2 + n)
                    &&& later.blocked(block.origin1 + i1, block.origin2 + n)
                },
                Err(e) => is_outside(e),
            }
        }),
    decreases len2 - i2,
{
    let a1 = (block.origin1 + i1) as usize;
    let a2 = (block.origin2 + i2) as usize;
    if i2 < len2 {
        assert(grid.has(a1 as int, a2 as int));
        assert(grid.cells[a1 as int].len() == grid.len2);
        if grid.known(a1 as int, a2 as int) {
            lemma_fill_row(g, grid, block, i1, (i2 + 1) as usize, len2);
            let (_, later, r) = g.fill_row(grid, block, i1, (i2 + 1) as usize, len2);
            assert(later.cell(a1 as int, a2 as int).known());
            assert forall|b1: int, b2: int|
                grid.has(b1, b2) && (b1 != a1 || b2 < a2) implies #[trigger] later.cell(b1, b2)
                == grid.cell(b1, b2) by {}
        } else if !grid.blocked(a1 as int, a2 as int) {
            let above = ((a1 - 1) as usize, a2);
            let left = (a1, (a2 - 1) as usize);
            let told = g.tell(
                "Attempting to merge "@ + coordinates(a1 as int, a2 as int) + "..."@,
            );
            let cell = grid.cell(a1 as int, a2 as int);
            lemma_merge_error(
                told,
                grid,
                grid.commit(left.0 as int, left.1 as int),
                grid.commit(above.0 as int, above.1 as int),
                Some(auto_message(grid.name, a1 as int, a2 as int)),
                a1 as int,
                a2 as int,
                above.0 < a1 && left.1 < a2,
            );
            let (h, next, r) = g.fill_cell(grid, (a1, a2), above, left);
            assert(cell.consistent());
            match r {
                Err(_) => {},
                Ok(true) => {
                    lemma_filled(grid, next, a1, a2);
                    lemma_fill_row(h, next, block, i1, (i2 + 1) as usize, len2);
                    let (_, later, r) = h.fill_row(next, block, i1, (i2 + 1) as usize, len2);
                    lemma_grid_grows(grid, next, later);
                    assert(later.cell(a1 as int, a2 as int).known());
                    assert forall|b1: int, b2: int|
                        grid.has(b1, b2) && (b1 != a1 || b2 < a2) implies #[trigger] later.cell(
                        b1,
                        b2,
                    ) == grid.cell(b1, b2) by {
                        assert(next.cell(b1, b2) == grid.cell(b1, b2));
                    }
                },
                Ok(false) => {
                    lemma_with_grows(grid, a1 as int, a2 as int, Seq::empty());
                    lemma_with_grows(next, a1 as int, a2 as int, Seq::empty());
                    let later = next.with(
                        a1 as int,
                        a2 as int,
                        next.cell(a1 as int, a2 as int).marked(true),
                    );
                    lemma_grid_grows(grid, next, later);
                    assert(next.cells[a1 as int].len() == next.len2);
                    assert forall|b1: int, b2: int|
                        grid.has(b1, b2) && (b1 != a1 || b2 < a2) implies #[trigger] later.cell(
                        b1,
                        b2,
                    ) == grid.cell(b1, b2) by {
                        assert(grid.cells[b1].len() == grid.len2);
                    }
                },
            }
        }
    }
}

/// The grid after a cell was merged: the cell is known and no other has changed.
proof fn lemma_filled(grid: GridView, next: GridView, a1: usize, a2: usize)
    requires
        grid.wf(),
        grid.sound(),
        grid.has(a1 as int, a2 as int),
        exists|sha1: Seq<char>|
            next == #[trigger] grid.with(
                a1 as int,
                a2 as int,
                grid.cell(a1 as int, a2 as int).merged(sha1, MergeRecord::NEW_AUTO),
            ),
    ensures
        grid.grows_to(next),
        next.known(a1 as int, a2 as int),
        forall|b1: int, b2: int|
            grid.has(b1, b2) && (b1 != a1 || b2 != a2) ==> #[trigger] next.cell(b1, b2)
                == grid.cell(b1, b2),
{
    let sha1 = choose|sha1: Seq<char>|
        next == #[trigger] grid.with(
            a1 as int,
            a2 as int,
            grid.cell(a1 as int, a2 as int).merged(sha1, MergeRecord::NEW_AUTO),
        );
    lemma_with_grows(grid, a1 as int, a2 as int, sha1);
    assert forall|b1: int, b2: int| grid.has(b1, b2) && (b1 != a1 || b2 != a2) implies #[trigger]
    next.cell(b1, b2) == grid.cell(b1, b2) by {
        assert(grid.cells[b1].len() == grid.len2);
        assert(grid.cells[a1 as int].len() == grid.len2);
    }
}

/// What is known of `blocker` once the rows before `i1` were taken.
spec fn is_found(
    grid: GridView,
    block: Rect,
    i1: int,
    blocker: Option<(usize, usize)>,
) -> bool {
    match blocker {
        Some((a1, a2)) => {
            &&& a1 < block.origin1 + i1
            &&& is_first_unknown(grid, block, a1 as int, a2 as int)
            &&& grid.blocked(a1 as int, a2 as int)
        },
        None => known_before(grid, block, block.origin1 + i1, block.origin2 as int),
    }
}

proof fn lemma_fill_rows(
    g: Talk,
    grid: GridView,
    block: Rect,
    i1: usize,
    len2: usize,
    blocker: Option<(usize, usize)>,
)
    requires
        grid.wf(),
        grid.sound(),
        block.within(grid),
        1 <= i1,
        len2 <= block.len2,
        blocker is None ==> len2 == block.len2,
        is_found(grid, block, i1 as int, blocker),
    ensures
        ({
            let (_, later, r) = g.fill_rows(grid, block, i1, len2, blocker);
            match r {
                Ok(None) => all_known(later, block),
                Ok(Some((a1, a2))) => is_first_unknown(later, block, a1 as int, a2 as int)
                    && later.blocked(a1 as int, a2 as int),
                Err(e) => is_outside(e),
            }
        }),
    decreases block.len1 - i1,
{
    if i1 < block.len1 {
        let (h, next, r) = g.fill_row(grid, block, i1, 1, len2);
        let row = block.origin1 + i1;
        lemma_fill_row(g, grid, block, i1, 1, len2);
        if let Ok(stop) = r {
            let found = match (blocker, stop) {
                (None, Some(n)) => Some((row as usize, (block.origin2 + n) as usize)),
                _ => blocker,
            };
            assert forall|b1: int, b2: int|
                is_inner(block, b1, b2) && b1 < row && grid.known(b1, b2) implies #[trigger]
            next.known(b1, b2) by {
                assert(next.cell(b1, b2) == grid.cell(b1, b2));
            }
            if let Some((a1, a2)) = blocker {
                assert(next.cell(a1 as int, a2 as int) == grid.cell(a1 as int, a2 as int));
            }
            assert(is_found(next, block, i1 + 1, found)) by {
                match found {
                    Some((a1, a2)) => {
                        assert forall|b1: int, b2: int|
                            is_inner(block, b1, b2) && is_before(
                                b1,
                                b2,
                                a1 as int,
                                a2 as int,
                            ) implies #[trigger] next.known(b1, b2) by {
                            if b1 < row {
                                assert(grid.known(b1, b2));
                            }
                        }
                    },
                    None => {
                        assert forall|b1: int, b2: int|
                            is_inner(block, b1, b2) && is_before(
                                b1,
                                b2,
                                row + 1,
                                block.origin2 as int,
                            ) implies #[trigger] next.known(b1, b2) by {
                            if b1 < row {
                                assert(grid.known(b1, b2));
                            }
                        }
                    },
                }
            }
            let len = match stop {
                Some(n) => n,
                None => len2,
            };
            lemma_fill_rows(h, next, block, (i1 + 1) as usize, len, found);
        }
    }
}

pub(crate) proof fn lemma_first_unknown(grid: GridView, block: Rect, i1: int, i2: int)
    requires
        block.within(grid),
        1 <= i1,
        1 <= i2,
        known_before(grid, block, block.origin1 + i1, block.origin2 + i2),
    ensures
        match first_unknown(grid, block, i1, i2) {
            Some((a1, a2)) => is_first_unknown(grid, block, a1 as int, a2 as int),
            None => all_known(grid, block),
        },
    decreases block.len1 - i1, block.len2 - i2,
{
    if i1 < block.len1 {
        if i2 >= block.len2 {
            lemma_first_unknown(grid, block, i1 + 1, 1);
        } else if grid.known(block.origin1 + i1, block.origin2 + i2) {
            lemma_first_unknown(grid, block, i1, i2 + 1);
        }
    }
}

/// A full or a manual frontier never just goes on. Unless the exchange ends early,
/// it says that the block is complete exactly when every inner cell is known.
/// Otherwise it asks for the first cell, row by row, that is not known; a full
/// frontier leaves that cell blocked. A manual frontier asks for nothing on the way
/// and changes nothing.
pub proof fn law_rows_are_taken_in_order(f: FrontierView, g: Talk, grid: GridView)
    requires
        f is Full || f is Manual,
        grid.wf(),
        grid.sound(),
        f.window().within(grid),
    ensures
        f is Manual ==> f.auto_expand(g, grid).0 == g && f.auto_expand(g, grid).1 == grid,
        f.auto_expand(g, grid).2 matches Err(e) && {
            let later = f.auto_expand(g, grid).1;
            &&& is_outside(e) ==> f is Full
            &&& !is_outside(e) ==> (e is BlockComplete <==> all_known(later, f.window()))
            &&& !is_outside(e) && !(e is BlockComplete) ==> exists|a1: usize, a2: usize|
                {
                    &&& #[trigger] is_first_unknown(later, f.window(), a1 as int, a2 as int)
                    &&& f is Full ==> e == conflict_at(a1, a2) && later.blocked(
                        a1 as int,
                        a2 as int,
                    )
                    &&& f is Manual ==> e == manual_at(a1, a2)
                }
        },
{
    let block = f.window();
    assert(known_before(grid, block, block.origin1 + 1, block.origin2 as int));
    match f {
        FrontierView::Full(b) => {
            lemma_fill_rows(g, grid, b, 1, b.len2, None);
            let (_, later, r) = g.fill_rows(grid, b, 1, b.len2, None);
            if let Ok(Some((a1, a2))) = r {
                assert(is_first_unknown(later, block, a1 as int, a2 as int));
            }
        },
        FrontierView::Manual(b) => {
            lemma_first_unknown(grid, b, 1, 1);
            if let Some((a1, a2)) = first_unknown(grid, b, 1, 1) {
                assert(is_first_unknown(grid, block, a1 as int, a2 as int));
            }
        },
        _ => {},
    }
}

} // verus!
