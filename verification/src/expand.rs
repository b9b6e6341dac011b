//! Pushing a merge frontier forward.
//!
//! There are three ways. The full frontier fills one cell after the other. The
//! manual one never merges by itself. The blockwise one uses bisection to guess
//! large regions that can probably be merged automatically, and outlines them to
//! find out.
use vstd::prelude::*;

use crate::block::{lemma_grid_grows, lemma_with_grows, Grid, GridView, Rect};
use crate::error::{res, ErrorView, ImergeError};
use crate::fill::{outline_known, Done};
use crate::frontier::{
    all_shrunk, any_holds, beside, both_sides, contains, holds, is_left, is_right, is_staircase,
    law_normal_form_exists, left_parts, lemma_first_index, normal_form, normalized_blocks,
    partition, remove_failure, right_parts, same_size, shrunk, splits, without_failure,
};
use crate::git::Git;
use crate::known::edges_known;
use crate::talk::{lemma_grows, lemma_learns_nothing, Talk, Told};

verus! {

broadcast use lemma_grows, lemma_learns_nothing, lemma_grid_grows;

/// What is known on the edges of a window stays known while the grid grows.
pub proof fn lemma_edges_stay(grid: GridView, later: GridView, rect: Rect)
    requires
        grid.grows_to(later),
        rect.within(grid),
        rect.len1 >= 1,
        rect.len2 >= 1,
        edges_known(grid, rect),
    ensures
        edges_known(later, rect),
{
    assert forall|i: int| 0 <= i < rect.len1 implies #[trigger] later.known(
        rect.origin1 + i,
        rect.origin2 as int,
    ) by {
        assert(grid.known(rect.origin1 + i, rect.origin2 as int));
        assert(later.cell(rect.origin1 + i, rect.origin2 as int).known());
    }
    assert forall|i: int| 0 <= i < rect.len2 implies #[trigger] later.known(
        rect.origin1 as int,
        rect.origin2 + i,
    ) by {
        assert(grid.known(rect.origin1 as int, rect.origin2 + i));
        assert(later.cell(rect.origin1 as int, rect.origin2 + i).known());
    }
}

/// All blocks start where `top` does, reach beyond the edges, and lie inside
/// `top`.
pub open spec fn proper(top: Rect, blocks: Seq<Rect>) -> bool {
    forall|k: int| 0 <= k < blocks.len() ==> is_proper(top, #[trigger] blocks[k])
}

/// The block starts where `top` does, reaches beyond the edges, and lies inside
/// `top`.
pub open spec fn is_proper(top: Rect, b: Rect) -> bool {
    &&& b.origin1 == top.origin1
    &&& b.origin2 == top.origin2
    &&& 2 <= b.len1 <= top.len1
    &&& 2 <= b.len2 <= top.len2
}

impl Talk {
    /// Bisection along one axis of `block` for the first place from `lo` to `hi`
    /// that cannot be merged. `along1` says which axis; the other coordinate is
    /// fixed.
    pub open spec fn bisect(
        self,
        grid: GridView,
        block: Rect,
        along1: bool,
        fixed: usize,
        lo: usize,
        hi: usize,
    ) -> Told<usize>
        decreases hi - lo,
    {
        if lo >= hi {
            (self, Ok(lo))
        } else {
            let mid = (lo + (hi - lo) / 2) as usize;
            let (g, answer) = if along1 {
                self.probe(grid, block, mid as int, fixed as int)
            } else {
                self.probe(grid, block, fixed as int, mid as int)
            };
            match answer {
                Err(e) => (g, Err(e)),
                Ok(true) => g.bisect(grid, block, along1, fixed, (mid + 1) as usize, hi),
                Ok(false) => g.bisect(grid, block, along1, fixed, lo, mid),
            }
        }
    }

    /// Whether column `i2 - 1` can be merged over the whole length of `block`.
    pub open spec fn reaches_end(self, grid: GridView, block: Rect, i1: usize, i2: usize) -> Told<
        bool,
    > {
        if i1 == block.len1 - 1 {
            (self, Ok(true))
        } else {
            self.probe(grid, block, block.len1 - 1, i2 - 1)
        }
    }

    /// Goes down the staircase from a step at `(i1, i2)` and collects its blocks.
    pub open spec fn descend(
        self,
        grid: GridView,
        block: Rect,
        i1: usize,
        i2: usize,
        found: Seq<Rect>,
    ) -> Told<Seq<Rect>>
        decreases i2,
    {
        if i2 <= 1 {
            (self, Ok(found))
        } else {
            match self.reaches_end(grid, block, i1, i2) {
                (g, Err(e)) => (g, Err(e)),
                (g, Ok(true)) => (
                    g,
                    Ok(found.push(block.part(0, block.len1 as int, 0, i2 as int))),
                ),
                (g, Ok(false)) => match g.bisect(
                    grid,
                    block,
                    true,
                    (i2 - 1) as usize,
                    (i1 + 1) as usize,
                    (block.len1 - 1) as usize,
                ) {
                    (g, Err(e)) => (g, Err(e)),
                    (g, Ok(n1)) => {
                        let more = found.push(block.part(0, n1 as int, 0, i2 as int));
                        if i2 == 2 {
                            (g, Ok(more))
                        } else {
                            match g.probe(grid, block, n1 as int, 1) {
                                (g, Err(e)) => (g, Err(e)),
                                (g, Ok(false)) => (g, Ok(more)),
                                (g, Ok(true)) => match g.bisect(
                                    grid,
                                    block,
                                    false,
                                    n1,
                                    2,
                                    (i2 - 1) as usize,
                                ) {
                                    (g, Err(e)) => (g, Err(e)),
                                    (g, Ok(n2)) => if n2 < i2 {
                                        g.descend(grid, block, n1, n2, more)
                                    } else {
                                        (g, Ok(more))
                                    },
                                },
                            }
                        }
                    },
                },
            }
        }
    }

    /// See [`find_frontier_blocks`].
    pub open spec fn find_frontier_blocks(self, grid: GridView, block: Rect) -> Done<Seq<Rect>> {
        let a1 = block.origin1 + 1;
        let a2 = block.origin2 + 1;
        if block.len1 <= 1 || block.len2 <= 1 || grid.blocked(a1, a2) {
            (self, grid, Ok(Seq::empty()))
        } else {
            match self.probe(grid, block, block.len1 - 1, block.len2 - 1) {
                (g, Err(e)) => (g, grid, Err(e)),
                (g, Ok(true)) => (g, grid, Ok(seq![block])),
                (g, Ok(false)) => match g.probe(grid, block, 1, 1) {
                    (g, Err(e)) => (g, grid, Err(e)),
                    (g, Ok(false)) => (
                        g,
                        grid.with(a1, a2, grid.cell(a1, a2).marked(true)),
                        Ok(Seq::empty()),
                    ),
                    (g, Ok(true)) => match g.bisect(grid, block, false, 1, 2, block.len2) {
                        (g, Err(e)) => (g, grid, Err(e)),
                        (g, Ok(i2)) => {
                            let (g, found) = g.descend(grid, block, 1, i2, Seq::empty());
                            (g, grid, found)
                        },
                    },
                },
            }
        }
    }
}

fn bisect(
    git: &mut Git,
    grid: &Grid,
    block: Rect,
    along1: bool,
    fixed: usize,
    lo: usize,
    hi: usize,
) -> (r: Result<usize, ImergeError>)
    requires
        grid@.wf(),
        block.within(grid@),
        edges_known(grid@, block),
        lo <= hi,
        along1 ==> hi <= block.len1 && fixed < block.len2,
        !along1 ==> hi <= block.len2 && fixed < block.len1,
    ensures
        (final(git)@, res(r)) == old(git)@.bisect(grid@, block, along1, fixed, lo, hi),
        old(git)@.grows_to(final(git)@),
        r matches Ok(n) ==> lo <= n <= hi,
        r matches Err(e) ==> e is Failure || e is Suspended,
{
    let mut low: usize = lo;
    let mut high: usize = hi;
    while low < high
        invariant
            grid@.wf(),
            block.within(grid@),
            edges_known(grid@, block),
            lo <= low <= high <= hi,
            along1 ==> hi <= block.len1 && fixed < block.len2,
            !along1 ==> hi <= block.len2 && fixed < block.len1,
            old(git)@.bisect(grid@, block, along1, fixed, lo, hi) == git@.bisect(
                grid@,
                block,
                along1,
                fixed,
                low,
                high,
            ),
            old(git)@.grows_to(git@),
        decreases high - low,
    {
        let mid: usize = low + (high - low) / 2;
        let answer = if along1 {
            assert(grid@.known(block.origin1 + mid, block.origin2 as int));
            assert(grid@.known(block.origin1 as int, block.origin2 + fixed));
            block.probe(git, grid, mid, fixed)?
        } else {
            assert(grid@.known(block.origin1 + fixed, block.origin2 as int));
            assert(grid@.known(block.origin1 as int, block.origin2 + mid));
            block.probe(git, grid, fixed, mid)?
        };
        if answer {
            low = mid + 1;
        } else {
            high = mid;
        }
    }
    Ok(low)
}

fn reaches_end(git: &mut Git, grid: &Grid, block: Rect, i1: usize, i2: usize) -> (r: Result<
    bool,
    ImergeError,
>)
    requires
        grid@.wf(),
        block.within(grid@),
        edges_known(grid@, block),
        block.len1 >= 1,
        1 <= i2 <= block.len2,
    ensures
        (final(git)@, res(r)) == old(git)@.reaches_end(grid@, block, i1, i2),
        old(git)@.grows_to(final(git)@),
        r matches Ok(false) ==> i1 != block.len1 - 1,
        r matches Err(e) ==> e is Failure || e is Suspended,
{
    if i1 == block.len1 - 1 {
        return Ok(true);
    }
    assert(grid@.known(block.origin1 + (block.len1 - 1), block.origin2 as int));
    assert(grid@.known(block.origin1 as int, block.origin2 + (i2 - 1)));
    block.probe(git, grid, block.len1 - 1, i2 - 1)
}

fn descend(git: &mut Git, grid: &Grid, block: Rect, start: usize) -> (r: Result<
    Vec<Rect>,
    ImergeError,
>)
    requires
        grid@.wf(),
        block.within(grid@),
        edges_known(grid@, block),
        block.len1 >= 2,
        2 <= start <= block.len2,
    ensures
        (final(git)@, res(r)) == old(git)@.descend(grid@, block, 1, start, Seq::empty()),
        old(git)@.grows_to(final(git)@),
        r matches Ok(v) ==> v.len() > 0 && proper(block, v@),
        r matches Err(e) ==> e is Failure || e is Suspended,
{
    let mut found: Vec<Rect> = Vec::new();
    let mut i1: usize = 1;
    let mut i2: usize = start;
    let ghost whole = old(git)@.descend(grid@, block, 1, start, Seq::empty());
    assert(found.deep_view() =~= Seq::<Rect>::empty());
    loop
        invariant
            grid@.wf(),
            block.within(grid@),
            edges_known(grid@, block),
            1 <= i1 < block.len1,
            2 <= i2 <= block.len2,
            found.deep_view() =~= found@,
            proper(block, found@),
            whole == old(git)@.descend(grid@, block, 1, start, Seq::empty()),
            whole == git@.descend(grid@, block, i1, i2, found@),
            old(git)@.grows_to(git@),
        decreases i2,
    {
        let ghost before = found@;
        if reaches_end(git, grid, block, i1, i2)? {
            found.push(block.sub(0, block.len1, 0, i2));
            assert(found.deep_view() =~= found@);
            return Ok(found);
        }
        i1 = bisect(git, grid, block, true, i2 - 1, i1 + 1, block.len1 - 1)?;
        found.push(block.sub(0, i1, 0, i2));
        assert(found.deep_view() =~= found@);
        if i2 == 2 {
            return Ok(found);
        }
        assert(grid@.known(block.origin1 + i1, block.origin2 as int));
        assert(grid@.known(block.origin1 as int, block.origin2 + 1));
        if !block.probe(git, grid, i1, 1)? {
            return Ok(found);
        }
        i2 = bisect(git, grid, block, false, i1, 2, i2 - 1)?;
    }
}

/// Bisection for regions of `block` that can probably be merged automatically,
/// on the assumption that those cells form a staircase. Where not even the first
/// cell can be merged it is marked as blocked.
pub fn find_frontier_blocks(git: &mut Git, grid: &mut Grid, block: Rect) -> (r: Result<
    Vec<Rect>,
    ImergeError,
>)
    requires
        old(grid)@.wf(),
        block.within(old(grid)@),
        edges_known(old(grid)@, block),
    ensures
        (final(git)@, final(grid)@, res(r)) == old(git)@.find_frontier_blocks(old(grid)@, block),
        old(git)@.grows_to(final(git)@),
        old(grid)@.grows_to(final(grid)@),
        r matches Ok(v) ==> proper(block, v@),
        r matches Ok(v) ==> v.len() == 0 && block.len1 >= 2 && block.len2 >= 2 ==>
            final(grid)@.blocked(block.origin1 + 1, block.origin2 + 1),
        r matches Err(e) ==> e is Failure || e is Suspended,
{
    let mut found: Vec<Rect> = Vec::new();
    assert(found.deep_view() =~= Seq::<Rect>::empty());
    if block.len1 <= 1 || block.len2 <= 1 || grid.is_blocked(
        block.origin1 + 1,
        block.origin2 + 1,
    ) {
        return Ok(found);
    }
    assert(grid@.known(block.origin1 + (block.len1 - 1), block.origin2 as int));
    assert(grid@.known(block.origin1 as int, block.origin2 + (block.len2 - 1)));
    if block.probe(git, grid, block.len1 - 1, block.len2 - 1)? {
        found.push(block);
        assert(found.deep_view() =~= seq![block]);
        return Ok(found);
    }
    assert(grid@.known(block.origin1 + 1, block.origin2 as int));
    assert(grid@.known(block.origin1 as int, block.origin2 + 1));
    if !block.probe(git, grid, 1, 1)? {
        proof {
            lemma_with_grows(grid@, block.origin1 + 1, block.origin2 + 1, Seq::empty());
        }
        grid.get_mut(block.origin1 + 1, block.origin2 + 1).record_blocked(true);
        return Ok(found);
    }
    let i2: usize = bisect(git, grid, block, false, 1, 2, block.len2)?;
    descend(git, grid, block, i2)
}

// ---------------------------------------------------------------------
// Outlining what the bisection found
// ---------------------------------------------------------------------

/// The first frontier of a list that has blocks.
pub open spec fn first_with_blocks(subs: Seq<(Rect, Seq<Rect>)>) -> Option<(Rect, Seq<Rect>)>
    decreases subs.len(),
{
    if subs.len() == 0 {
        None
    } else if subs[0].1.len() > 0 {
        Some(subs[0])
    } else {
        first_with_blocks(subs.skip(1))
    }
}

/// The frontier `top_blocks` over `top` after the merge at `(i1, i2)` of the block
/// `target` has failed.
pub open spec fn after_failure(
    top: Rect,
    top_blocks: Seq<Rect>,
    target: Rect,
    i1: usize,
    i2: usize,
) -> Seq<Rect> {
    match top.located(target.origin1 + i1, target.origin2 + i2) {
        Some((t1, t2)) => without_failure(top_blocks, t1 as int, t2 as int),
        None => top_blocks,
    }
}

/// The grid after the merge at `(i1, i2)` of the block `target` has failed: if
/// that is its first cell, the cell is marked as blocked.
pub open spec fn failure_marked(grid: GridView, target: Rect, i1: usize, i2: usize) -> GridView {
    let a1 = target.origin1 + 1;
    let a2 = target.origin2 + 1;
    if i1 == 1 && i2 == 1 {
        grid.with(a1, a2, grid.cell(a1, a2).marked(true))
    } else {
        grid
    }
}

/// Some block of `top` that reaches beyond its edges is outlined.
pub open spec fn is_advanced(grid: GridView, top: Rect) -> bool {
    exists|b: Rect| #[trigger] is_proper(top, b) && outline_known(grid, b)
}

/// What is outlined stays outlined while the grid grows.
proof fn lemma_outline_stays(grid: GridView, later: GridView, rect: Rect)
    requires
        grid.grows_to(later),
        rect.within(grid),
        rect.len1 >= 1,
        rect.len2 >= 1,
        outline_known(grid, rect),
    ensures
        outline_known(later, rect),
{
    let last1 = rect.origin1 + rect.len1 - 1;
    let last2 = rect.origin2 + rect.len2 - 1;
    assert forall|i: int| 0 <= i < rect.len1 implies #[trigger] later.known(
        rect.origin1 + i,
        last2,
    ) by {
        assert(grid.known(rect.origin1 + i, last2));
        assert(later.cell(rect.origin1 + i, last2).known());
    }
    assert forall|i: int| 0 <= i < rect.len2 implies #[trigger] later.known(
        last1,
        rect.origin2 + i,
    ) by {
        assert(grid.known(last1, rect.origin2 + i));
        assert(later.cell(last1, rect.origin2 + i).known());
    }
}

pub(crate) proof fn lemma_advanced_stays(grid: GridView, later: GridView, top: Rect)
    requires
        grid.grows_to(later),
        top.within(grid),
        is_advanced(grid, top),
    ensures
        is_advanced(later, top),
{
    let b = choose|b: Rect| #[trigger] is_proper(top, b) && outline_known(grid, b);
    lemma_outline_stays(grid, later, b);
    assert(is_proper(top, b) && outline_known(later, b));
}

impl Talk {
    /// Outlines the first block of the frontier `cur_blocks` over `cur`. After a
    /// failure the failed merge is taken out of that frontier and of the frontier
    /// `top_blocks` over `top`, and it is tried again. After a success the work
    /// goes on beside or below the block. The result is what is left of
    /// `top_blocks`.
    pub open spec fn pursue(
        self,
        grid: GridView,
        top: Rect,
        top_blocks: Seq<Rect>,
        cur: Rect,
        cur_blocks: Seq<Rect>,
        is_top: bool,
    ) -> Done<Seq<Rect>>
        decreases self.remaining(), cur.len1,
    {
        if cur_blocks.len() == 0 {
            (self, grid, Ok(top_blocks))
        } else {
            let target = cur_blocks[0];
            match self.auto_outline(grid, target) {
                (g, grid, Err(ErrorView::UnexpectedMergeFailure { i1, i2, .. })) => {
                    let left = without_failure(cur_blocks, i1 as int, i2 as int);
                    if g.remaining() < self.remaining() {
                        g.pursue(
                            failure_marked(grid, target, i1, i2),
                            top,
                            if is_top {
                                left
                            } else {
                                after_failure(top, top_blocks, target, i1, i2)
                            },
                            cur,
                            left,
                            is_top,
                        )
                    } else {
                        (g, grid, Ok(top_blocks))
                    }
                },
                (g, grid, Err(e)) => (g, grid, Err(e)),
                (g, grid, Ok(_)) => if !splits(cur_blocks, target) {
                    (
                        g,
                        grid,
                        Err(
                            ErrorView::Failure(
                                "BlockwiseMergeFrontier partitioned with inappropriate block"@,
                            ),
                        ),
                    )
                } else {
                    match first_with_blocks(both_sides(cur, cur_blocks, target)) {
                        None => (g, grid, Ok(top_blocks)),
                        Some((next, next_blocks)) => if g.remaining() <= self.remaining()
                            && next.len1 < cur.len1 {
                            g.pursue(grid, top, top_blocks, next, next_blocks, false)
                        } else {
                            (g, grid, Ok(top_blocks))
                        },
                    }
                },
            }
        }
    }

    /// See [`initiate_merge`].
    #[verifier::opaque]
    pub open spec fn initiate_merge(self, grid: GridView, block: Rect) -> Done<
        (Rect, Seq<Rect>),
    > {
        match self.find_frontier_blocks(grid, block) {
            (g, grid, Err(e)) => (g, grid, Err(e)),
            (g, grid, Ok(found)) => {
                let blocks = normal_form(found);
                match g.pursue(grid, block, blocks, block, blocks, true) {
                    (g, grid, Err(e)) => (g, grid, Err(e)),
                    (g, grid, Ok(top_blocks)) => (g, grid, Ok((block, top_blocks))),
                }
            },
        }
    }
}

/// A list of blocks in normal form that is proper stays so, and is empty only if
/// the list was.
proof fn lemma_normal_proper(top: Rect, blocks: Seq<Rect>)
    requires
        proper(top, blocks),
    ensures
        proper(top, normal_form(blocks)),
        is_staircase(normal_form(blocks)),
        blocks.len() > 0 ==> normal_form(blocks).len() > 0,
        blocks.len() == 0 ==> normal_form(blocks).len() == 0,
{
    law_normal_form_exists(blocks);
    let r = normal_form(blocks);
    assert forall|k: int| 0 <= k < r.len() implies is_proper(top, #[trigger] r[k]) by {
        let i = lemma_first_index(blocks, r[k]);
        assert(is_proper(top, blocks[i]));
    }
    if blocks.len() > 0 {
        assert(is_proper(top, blocks[0]));
        let k = crate::frontier::lemma_cover_index(r, blocks[0]);
    } else if r.len() > 0 {
        let i = lemma_first_index(blocks, r[0]);
    }
}

proof fn lemma_shrunk_proper(top: Rect, blocks: Seq<Rect>, i1: int, i2: int)
    requires
        proper(top, blocks),
        1 <= i1,
        1 <= i2,
    ensures
        proper(top, all_shrunk(blocks, i1, i2)),
        blocks.len() > 0 && (i1 > 1 || i2 > 1) ==> all_shrunk(blocks, i1, i2).len() > 0,
    decreases blocks.len(),
{
    if blocks.len() > 0 {
        let front = blocks.drop_last();
        let b = blocks.last();
        assert(is_proper(top, blocks[blocks.len() - 1]));
        assert(proper(top, front)) by {
            assert forall|k: int| 0 <= k < front.len() implies is_proper(
                top,
                #[trigger] front[k],
            ) by {
                assert(is_proper(top, blocks[k]));
            }
        }
        lemma_shrunk_proper(top, front, i1, i2);
        let head = all_shrunk(front, i1, i2);
        let tail = shrunk(b, i1, i2);
        let all = all_shrunk(blocks, i1, i2);
        assert(all == head + tail);
        assert forall|k: int| 0 <= k < all.len() implies is_proper(top, #[trigger] all[k]) by {
            if k < head.len() {
                assert(is_proper(top, head[k]));
            } else {
                assert(all[k] == tail[k - head.len()]);
            }
        }
    }
}

proof fn lemma_failure_proper(top: Rect, blocks: Seq<Rect>, i1: int, i2: int)
    requires
        proper(top, blocks),
        is_staircase(blocks),
        1 <= i1,
        1 <= i2,
    ensures
        proper(top, without_failure(blocks, i1, i2)),
        is_staircase(without_failure(blocks, i1, i2)),
        blocks.len() > 0 && (i1 > 1 || i2 > 1) ==> without_failure(blocks, i1, i2).len() > 0,
{
    lemma_shrunk_proper(top, blocks, i1, i2);
    lemma_normal_proper(top, all_shrunk(blocks, i1, i2));
}

/// Where a staircase is split at its first block, nothing lies to the left.
proof fn lemma_nothing_left(blocks: Seq<Rect>, n: nat)
    requires
        is_staircase(blocks),
        0 < n <= blocks.len(),
    ensures
        left_parts(blocks.take(n as int), blocks[0]) == Seq::<Rect>::empty(),
    decreases n,
{
    let part = blocks.take(n as int);
    assert(part.drop_last() =~= blocks.take(n - 1));
    assert(part.last() == blocks[n - 1]);
    if n > 1 {
        lemma_nothing_left(blocks, (n - 1) as nat);
        assert(blocks[0].len1 < blocks[n - 1].len1);
    } else {
        assert(blocks.take(0) =~= Seq::<Rect>::empty());
        assert(left_parts(part.drop_last(), blocks[0]) =~= Seq::<Rect>::empty());
    }
}

proof fn lemma_right_proper(top: Rect, blocks: Seq<Rect>, target: Rect)
    requires
        proper(top, blocks),
        is_proper(top, target),
        top.fits(),
    ensures
        proper(
            top.part(target.len1 - 1, top.len1 - (target.len1 - 1), 0, target.len2 as int),
            right_parts(blocks, target),
        ),
    decreases blocks.len(),
{
    if blocks.len() > 0 {
        let front = blocks.drop_last();
        assert(is_proper(top, blocks[blocks.len() - 1]));
        assert(proper(top, front)) by {
            assert forall|k: int| 0 <= k < front.len() implies is_proper(
                top,
                #[trigger] front[k],
            ) by {
                assert(is_proper(top, blocks[k]));
            }
        }
        lemma_right_proper(top, front, target);
    }
}

/// Splitting a proper staircase at its first block: only what lies beside the
/// block can have blocks.
proof fn lemma_next(top: Rect, blocks: Seq<Rect>)
    requires
        proper(top, blocks),
        is_staircase(blocks),
        blocks.len() > 0,
        top.fits(),
    ensures
        splits(blocks, blocks[0]),
        first_with_blocks(both_sides(top, blocks, blocks[0])) matches Some((next, next_blocks))
            ==> {
            let target = blocks[0];
            &&& next == top.part(
                target.len1 - 1,
                top.len1 - (target.len1 - 1),
                0,
                target.len2 as int,
            )
            &&& proper(next, next_blocks)
            &&& is_staircase(next_blocks)
            &&& next.len1 < top.len1
        },
{
    let target = blocks[0];
    assert(is_proper(top, blocks[0]));
    assert forall|k: int| 0 <= k < blocks.len() implies same_size(#[trigger] blocks[k], target)
        || is_left(blocks[k], target) || is_right(blocks[k], target) by {
        if k > 0 {
            assert(blocks[0].len1 < blocks[k].len1);
        }
    }
    assert(blocks.take(blocks.len() as int) =~= blocks);
    lemma_nothing_left(blocks, blocks.len());
    assert(proper(top, Seq::<Rect>::empty()));
    lemma_normal_proper(top, Seq::<Rect>::empty());
    lemma_right_proper(top, blocks, target);
    let next = top.part(target.len1 - 1, top.len1 - (target.len1 - 1), 0, target.len2 as int);
    lemma_normal_proper(next, right_parts(blocks, target));
    let subs = both_sides(top, blocks, target);
    reveal_with_fuel(first_with_blocks, 3);
    if subs.len() == 2 {
        assert(subs.skip(1)[0] == subs[1]);
        assert(subs[0].1.len() == 0);
        assert(subs.skip(1).skip(1).len() == 0);
    } else if subs.len() == 1 {
        assert(subs.skip(1).len() == 0);
    }
}

/// Once a block of a frontier is outlined, the window beside it has known edges.
proof fn lemma_next_edges(grid: GridView, top: Rect, target: Rect)
    requires
        edges_known(grid, top),
        outline_known(grid, target),
        is_proper(top, target),
        top.fits(),
    ensures
        edges_known(
            grid,
            top.part(target.len1 - 1, top.len1 - (target.len1 - 1), 0, target.len2 as int),
        ),
{
    let next = top.part(target.len1 - 1, top.len1 - (target.len1 - 1), 0, target.len2 as int);
    assert forall|i: int| 0 <= i < next.len1 implies #[trigger] grid.known(
        next.origin1 + i,
        next.origin2 as int,
    ) by {
        assert(grid.known(top.origin1 + (target.len1 - 1 + i), top.origin2 as int));
    }
    assert forall|i: int| 0 <= i < next.len2 implies #[trigger] grid.known(
        next.origin1 as int,
        next.origin2 + i,
    ) by {
        assert(grid.known(target.origin1 + target.len1 - 1, target.origin2 + i));
    }
}

/// The far corner of a block is known.
pub open spec fn corner_known(grid: GridView, b: Rect) -> bool {
    grid.known(b.origin1 + b.len1 - 1, b.origin2 + b.len2 - 1)
}

/// The far corners of all blocks are known.
pub open spec fn corners_known(grid: GridView, blocks: Seq<Rect>) -> bool {
    forall|k: int| 0 <= k < blocks.len() ==> corner_known(grid, #[trigger] blocks[k])
}

/// The block of `top` whose far corner is that of `c`, where `c` belongs to a window
/// that starts `off` further along the first axis.
spec fn lifted(c: Rect, top: Rect, off: int) -> Rect {
    Rect {
        origin1: top.origin1,
        origin2: top.origin2,
        len1: (off + c.len1) as usize,
        len2: c.len2,
    }
}

/// One of the blocks that are still to be outlined reaches as far as `b`.
spec fn is_pending(top: Rect, off: int, cur_blocks: Seq<Rect>, b: Rect) -> bool {
    exists|k: int|
        0 <= k < cur_blocks.len() && #[trigger] lifted(cur_blocks[k], top, off) == b
}

/// Work on the block is done.
spec fn is_done(grid: GridView, off: int, b: Rect) -> bool {
    b.len1 <= off + 1 && corner_known(grid, b)
}

/// How the frontier `top_blocks` over `top` and the frontier `cur_blocks` over `cur`
/// belong together: the blocks of the first are done or still to be outlined, and
/// those of the second are all among them. Beyond the start of `top` there is a
/// block that is done and as wide as `cur`.
spec fn in_step(
    grid: GridView,
    top: Rect,
    top_blocks: Seq<Rect>,
    cur: Rect,
    cur_blocks: Seq<Rect>,
) -> bool {
    let off = cur.origin1 - top.origin1;
    &&& 0 <= off
    &&& off + cur.len1 <= top.len1
    &&& cur.origin2 == top.origin2
    &&& cur.len2 <= top.len2
    &&& forall|k: int|
        0 <= k < top_blocks.len() ==> is_done(grid, off, #[trigger] top_blocks[k]) || is_pending(
            top,
            off,
            cur_blocks,
            top_blocks[k],
        )
    &&& forall|k: int|
        0 <= k < cur_blocks.len() ==> top_blocks.contains(
            #[trigger] lifted(cur_blocks[k], top, off),
        )
    &&& off > 0 ==> exists|d: Rect| #[trigger]
        top_blocks.contains(d) && d.len1 == off + 1 && d.len2 >= cur.len2 && corner_known(grid, d)
}

/// At the start both frontiers are the same.
proof fn lemma_in_step_at_start(grid: GridView, top: Rect, blocks: Seq<Rect>)
    requires
        proper(top, blocks),
    ensures
        in_step(grid, top, blocks, top, blocks),
{
    assert forall|k: int| 0 <= k < blocks.len() implies #[trigger] lifted(blocks[k], top, 0)
        == blocks[k] by {
        assert(is_proper(top, blocks[k]));
    }
    assert forall|k: int| 0 <= k < blocks.len() implies is_done(grid, 0, #[trigger] blocks[k])
        || is_pending(top, 0, blocks, blocks[k]) by {
        assert(lifted(blocks[k], top, 0) == blocks[k]);
    }
}

/// When nothing is left to outline, all far corners are known.
proof fn lemma_in_step_at_end(
    grid: GridView,
    top: Rect,
    top_blocks: Seq<Rect>,
    cur: Rect,
    cur_blocks: Seq<Rect>,
)
    requires
        in_step(grid, top, top_blocks, cur, cur_blocks),
        cur_blocks.len() == 0,
    ensures
        corners_known(grid, top_blocks),
{
    let off = cur.origin1 - top.origin1;
    assert forall|k: int| 0 <= k < top_blocks.len() implies corner_known(
        grid,
        #[trigger] top_blocks[k],
    ) by {
        assert(!is_pending(top, off, cur_blocks, top_blocks[k]));
        assert(is_done(grid, off, top_blocks[k]));
    }
}

proof fn lemma_corner_stays(grid: GridView, later: GridView, top: Rect, b: Rect)
    requires
        grid.grows_to(later),
        top.within(grid),
        is_proper(top, b),
        corner_known(grid, b),
    ensures
        corner_known(later, b),
{
    assert(later.cell(b.origin1 + b.len1 - 1, b.origin2 + b.len2 - 1).known());
}

/// Two blocks of a staircase are the same if one contains the other.
proof fn lemma_one_contains(blocks: Seq<Rect>, a: int, b: int)
    requires
        is_staircase(blocks),
        0 <= a < blocks.len(),
        0 <= b < blocks.len(),
        contains(blocks[a], blocks[b]),
    ensures
        a == b,
{
    if a < b {
        assert(blocks[a].len1 < blocks[b].len1);
    }
    if b < a {
        assert(blocks[b].len2 > blocks[a].len2);
    }
}

/// Each block of what is left comes from a block.
proof fn lemma_shrunk_from(blocks: Seq<Rect>, i1: int, i2: int, x: Rect) -> (j: int)
    requires
        all_shrunk(blocks, i1, i2).contains(x),
    ensures
        0 <= j < blocks.len(),
        shrunk(blocks[j], i1, i2).contains(x),
    decreases blocks.len(),
{
    let all = all_shrunk(blocks, i1, i2);
    let k = choose|k: int| 0 <= k < all.len() && all[k] == x;
    let head = all_shrunk(blocks.drop_last(), i1, i2);
    let tail = shrunk(blocks.last(), i1, i2);
    if k < head.len() {
        assert(head[k] == x);
        let j = lemma_shrunk_from(blocks.drop_last(), i1, i2, x);
        assert(blocks.drop_last()[j] == blocks[j]);
        j
    } else {
        assert(tail[k - head.len()] == x);
        blocks.len() - 1
    }
}

/// What is left of a block is among what is left of all.
proof fn lemma_shrunk_in(blocks: Seq<Rect>, i1: int, i2: int, j: int, x: Rect)
    requires
        0 <= j < blocks.len(),
        shrunk(blocks[j], i1, i2).contains(x),
    ensures
        all_shrunk(blocks, i1, i2).contains(x),
    decreases blocks.len(),
{
    let all = all_shrunk(blocks, i1, i2);
    let head = all_shrunk(blocks.drop_last(), i1, i2);
    let tail = shrunk(blocks.last(), i1, i2);
    if j < blocks.len() - 1 {
        assert(blocks.drop_last()[j] == blocks[j]);
        lemma_shrunk_in(blocks.drop_last(), i1, i2, j, x);
        let k = choose|k: int| 0 <= k < head.len() && head[k] == x;
        assert(all[k] == x);
    } else {
        let k = choose|k: int| 0 <= k < tail.len() && tail[k] == x;
        assert(all[head.len() + k] == x);
    }
}

/// What is left of a block lies inside it.
proof fn lemma_shrunk_smaller(b: Rect, i1: int, i2: int, x: Rect)
    requires
        shrunk(b, i1, i2).contains(x),
    ensures
        contains(b, x),
        !holds(b, i1, i2) ==> x == b,
{
    let all = shrunk(b, i1, i2);
    let k = choose|k: int| 0 <= k < all.len() && all[k] == x;
    assert(all[k] == x);
}

/// A block in a window and the block of `top` with the same far corner shrink alike.
proof fn lemma_lift_shrunk(cur: Rect, c: Rect, top: Rect, off: int, i1: int, i2: int, x: Rect)
    requires
        0 <= off,
        off + cur.len1 <= top.len1,
        is_proper(cur, c),
        1 <= i1,
        1 <= i2,
        shrunk(c, i1, i2).contains(x),
    ensures
        shrunk(lifted(c, top, off), off + i1, i2).contains(lifted(x, top, off)),
{
    let all = shrunk(c, i1, i2);
    let k = choose|k: int| 0 <= k < all.len() && all[k] == x;
    let up = shrunk(lifted(c, top, off), off + i1, i2);
    let y = lifted(x, top, off);
    if holds(c, i1, i2) {
        if i1 > 1 && k == 0 {
            assert(up[0] == y);
        } else {
            assert(up.last() == y);
            assert(up[up.len() - 1] == y);
        }
    } else {
        assert(up[0] == y);
    }
}

/// What is left of a block of `top` comes from what is left of the block in the
/// window, or reaches just to where the window starts.
proof fn lemma_unlift_shrunk(
    cur: Rect,
    c: Rect,
    top: Rect,
    off: int,
    i1: int,
    i2: int,
    y: Rect,
) -> (x: Option<Rect>)
    requires
        0 <= off,
        off + cur.len1 <= top.len1,
        is_proper(cur, c),
        1 <= i1,
        1 <= i2,
        shrunk(lifted(c, top, off), off + i1, i2).contains(y),
    ensures
        match x {
            Some(x) => shrunk(c, i1, i2).contains(x) && lifted(x, top, off) == y,
            None => off > 0 && y.len1 == off + 1 && y.len2 == c.len2,
        },
{
    let up = shrunk(lifted(c, top, off), off + i1, i2);
    let all = shrunk(c, i1, i2);
    let k = choose|k: int| 0 <= k < up.len() && up[k] == y;
    if !holds(c, i1, i2) {
        assert(all[0] == c);
        Some(c)
    } else if off + i1 > 1 && k == 0 {
        if i1 > 1 {
            let x = c.part(0, i1, 0, c.len2 as int);
            assert(all[0] == x);
            Some(x)
        } else {
            None
        }
    } else {
        let x = c.part(0, c.len1 as int, 0, i2);
        assert(all[all.len() - 1] == x);
        Some(x)
    }
}

/// A list of proper blocks and its normal form: whatever is in the list is contained
/// in a block of the normal form, and that is in the list, too.
proof fn lemma_covered_by(top: Rect, list: Seq<Rect>, x: Rect) -> (m: int)
    requires
        proper(top, list),
        list.contains(x),
    ensures
        0 <= m < normal_form(list).len(),
        contains(normal_form(list)[m], x),
        list.contains(normal_form(list)[m]),
        is_proper(top, normal_form(list)[m]),
        is_proper(top, x),
{
    law_normal_form_exists(list);
    let i = choose|i: int| 0 <= i < list.len() && list[i] == x;
    assert(is_proper(top, list[i]));
    let m = crate::frontier::lemma_cover_index(normal_form(list), list[i]);
    let j = lemma_first_index(list, normal_form(list)[m]);
    assert(is_proper(top, list[j]));
    m
}

/// Blocks of a normal form are in the list.
proof fn lemma_from_list(top: Rect, list: Seq<Rect>, k: int)
    requires
        proper(top, list),
        0 <= k < normal_form(list).len(),
    ensures
        list.contains(normal_form(list)[k]),
        is_proper(top, normal_form(list)[k]),
        is_staircase(normal_form(list)),
{
    law_normal_form_exists(list);
    let j = lemma_first_index(list, normal_form(list)[k]);
    assert(is_proper(top, list[j]));
}

/// A failed merge leaves the two frontiers in step.
proof fn lemma_in_step_after_failure(
    grid: GridView,
    later: GridView,
    top: Rect,
    top_blocks: Seq<Rect>,
    cur: Rect,
    cur_blocks: Seq<Rect>,
    i1: int,
    i2: int,
)
    requires
        in_step(grid, top, top_blocks, cur, cur_blocks),
        grid.grows_to(later),
        top.within(grid),
        proper(top, top_blocks),
        is_staircase(top_blocks),
        proper(cur, cur_blocks),
        is_staircase(cur_blocks),
        cur_blocks.len() > 0,
        1 <= i1,
        1 <= i2,
        holds(cur_blocks[0], i1, i2),
    ensures
        in_step(
            later,
            top,
            without_failure(top_blocks, cur.origin1 - top.origin1 + i1, i2),
            cur,
            without_failure(cur_blocks, i1, i2),
        ),
{
    let off = cur.origin1 - top.origin1;
    let t1 = off + i1;
    let ups = all_shrunk(top_blocks, t1, i2);
    let parts = all_shrunk(cur_blocks, i1, i2);
    let new_top = normal_form(ups);
    let new_cur = normal_form(parts);
    lemma_shrunk_proper(top, top_blocks, t1, i2);
    lemma_shrunk_proper(cur, cur_blocks, i1, i2);
    assert(is_proper(cur, cur_blocks[0]));
    assert(any_holds(cur_blocks, i1, i2));
    assert(any_holds(top_blocks, t1, i2)) by {
        assert(top_blocks.contains(lifted(cur_blocks[0], top, off)));
        let k = choose|k: int|
            0 <= k < top_blocks.len() && top_blocks[k] == lifted(cur_blocks[0], top, off);
        assert(holds(top_blocks[k], t1, i2));
    }
    law_normal_form_exists(ups);
    law_normal_form_exists(parts);
    // What is left in the window is left in `top`.
    assert forall|x: Rect| #[trigger] parts.contains(x) implies ups.contains(
        lifted(x, top, off),
    ) by {
        let j = lemma_shrunk_from(cur_blocks, i1, i2, x);
        assert(is_proper(cur, cur_blocks[j]));
        lemma_lift_shrunk(cur, cur_blocks[j], top, off, i1, i2, x);
        assert(top_blocks.contains(lifted(cur_blocks[j], top, off)));
        let m = choose|m: int|
            0 <= m < top_blocks.len() && top_blocks[m] == lifted(cur_blocks[j], top, off);
        lemma_shrunk_in(top_blocks, t1, i2, m, lifted(x, top, off));
    }
    // The block that is done and as wide as the window stays.
    if off > 0 {
        let d = choose|d: Rect| #[trigger]
            top_blocks.contains(d) && d.len1 == off + 1 && d.len2 >= cur.len2 && corner_known(
                grid,
                d,
            );
        let k = choose|k: int| 0 <= k < top_blocks.len() && top_blocks[k] == d;
        assert(is_proper(top, top_blocks[k]));
        assert(shrunk(d, t1, i2)[0] == d);
        lemma_shrunk_in(top_blocks, t1, i2, k, d);
        let m = lemma_covered_by(top, ups, d);
        let j = lemma_shrunk_from(top_blocks, t1, i2, new_top[m]);
        lemma_shrunk_smaller(top_blocks[j], t1, i2, new_top[m]);
        lemma_one_contains(top_blocks, j, k);
        assert(new_top[m] == d);
        assert(new_top.contains(d));
        lemma_corner_stays(grid, later, top, d);
    }
    assert forall|k: int| 0 <= k < new_top.len() implies is_done(
        later,
        off,
        #[trigger] new_top[k],
    ) || is_pending(top, off, new_cur, new_top[k]) by {
        let y = new_top[k];
        lemma_from_list(top, ups, k);
        let j = lemma_shrunk_from(top_blocks, t1, i2, y);
        let b = top_blocks[j];
        assert(is_proper(top, top_blocks[j]));
        if is_done(grid, off, b) {
            lemma_shrunk_smaller(b, t1, i2, y);
            lemma_corner_stays(grid, later, top, b);
        } else {
            assert(is_pending(top, off, cur_blocks, top_blocks[j]));
            let n = choose|n: int|
                0 <= n < cur_blocks.len() && #[trigger] lifted(cur_blocks[n], top, off) == b;
            assert(is_proper(cur, cur_blocks[n]));
            match lemma_unlift_shrunk(cur, cur_blocks[n], top, off, i1, i2, y) {
                Some(x) => {
                    lemma_shrunk_in(cur_blocks, i1, i2, n, x);
                    let m = lemma_covered_by(cur, parts, x);
                    assert(ups.contains(lifted(new_cur[m], top, off)));
                    let q = lemma_covered_by(top, ups, lifted(new_cur[m], top, off));
                    lemma_one_contains(new_top, q, k);
                    assert(lifted(new_cur[m], top, off) == y);
                },
                None => {
                    let d = choose|d: Rect| #[trigger]
                        new_top.contains(d) && d.len1 == off + 1 && d.len2 >= cur.len2
                            && corner_known(later, d);
                    let q = choose|q: int| 0 <= q < new_top.len() && new_top[q] == d;
                    lemma_one_contains(new_top, q, k);
                },
            }
        }
    }
    assert forall|m: int| 0 <= m < new_cur.len() implies new_top.contains(
        #[trigger] lifted(new_cur[m], top, off),
    ) by {
        lemma_from_list(cur, parts, m);
        let up = lifted(new_cur[m], top, off);
        assert(ups.contains(up));
        let n = lemma_covered_by(top, ups, up);
        let j = lemma_shrunk_from(top_blocks, t1, i2, new_top[n]);
        assert(is_proper(top, top_blocks[j]));
        lemma_shrunk_smaller(top_blocks[j], t1, i2, new_top[n]);
        assert(!is_done(grid, off, top_blocks[j]));
        assert(is_pending(top, off, cur_blocks, top_blocks[j]));
        let q = choose|q: int|
            0 <= q < cur_blocks.len() && #[trigger] lifted(cur_blocks[q], top, off)
                == top_blocks[j];
        assert(is_proper(cur, cur_blocks[q]));
        match lemma_unlift_shrunk(cur, cur_blocks[q], top, off, i1, i2, new_top[n]) {
            Some(x0) => {
                lemma_shrunk_in(cur_blocks, i1, i2, q, x0);
                let p = lemma_covered_by(cur, parts, x0);
                lemma_one_contains(new_cur, p, m);
                assert(new_top[n] == up);
            },
            None => {},
        }
    }
}

/// Beside the first block of a staircase lie the others.
proof fn lemma_right_parts(blocks: Seq<Rect>, n: nat)
    requires
        is_staircase(blocks),
        0 < n <= blocks.len(),
    ensures
        right_parts(blocks.take(n as int), blocks[0]) == Seq::new(
            (n - 1) as nat,
            |k: int| beside(blocks[k + 1], blocks[0]),
        ),
    decreases n,
{
    let part = blocks.take(n as int);
    let want = Seq::new((n - 1) as nat, |k: int| beside(blocks[k + 1], blocks[0]));
    assert(part.drop_last() =~= blocks.take(n - 1));
    assert(part.last() == blocks[n - 1]);
    if n > 1 {
        lemma_right_parts(blocks, (n - 1) as nat);
        assert(blocks[0].len1 < blocks[n - 1].len1);
        assert(right_parts(part, blocks[0]) =~= want);
    } else {
        assert(blocks.take(0) =~= Seq::<Rect>::empty());
        assert(right_parts(part.drop_last(), blocks[0]) =~= Seq::<Rect>::empty());
        assert(right_parts(part, blocks[0]) =~= want);
    }
}

/// An outlined block leaves the two frontiers in step, with what lies beside it; or,
/// if nothing does, all far corners are known.
proof fn lemma_in_step_after_success(
    grid: GridView,
    later: GridView,
    top: Rect,
    top_blocks: Seq<Rect>,
    cur: Rect,
    cur_blocks: Seq<Rect>,
)
    requires
        in_step(grid, top, top_blocks, cur, cur_blocks),
        grid.grows_to(later),
        top.within(grid),
        top.fits(),
        cur.fits(),
        proper(top, top_blocks),
        proper(cur, cur_blocks),
        is_staircase(cur_blocks),
        cur_blocks.len() > 0,
        outline_known(later, cur_blocks[0]),
    ensures
        match first_with_blocks(both_sides(cur, cur_blocks, cur_blocks[0])) {
            None => corners_known(later, top_blocks),
            Some((next, next_blocks)) => in_step(later, top, top_blocks, next, next_blocks),
        },
{
    let off = cur.origin1 - top.origin1;
    let target = cur_blocks[0];
    let n = cur_blocks.len();
    assert(is_proper(cur, cur_blocks[0]));
    assert(cur_blocks.take(n as int) =~= cur_blocks);
    lemma_right_parts(cur_blocks, n);
    let parts = right_parts(cur_blocks, target);
    let window = cur.part(target.len1 - 1, cur.len1 - (target.len1 - 1), 0, target.len2 as int);
    lemma_next(cur, cur_blocks);
    lemma_right_proper(cur, cur_blocks, target);
    lemma_normal_proper(window, parts);
    // The far corner of the block that was outlined.
    let up = lifted(target, top, off);
    assert(corner_known(later, up)) by {
        assert(later.known(
            target.origin1 + (target.len1 - 1),
            target.origin2 + target.len2 - 1,
        ));
    }
    assert(top_blocks.contains(up));
    let subs = both_sides(cur, cur_blocks, target);
    reveal_with_fuel(first_with_blocks, 3);
    if subs.len() == 2 {
        assert(subs.skip(1)[0] == subs[1]);
        assert(subs.skip(1).skip(1).len() == 0);
    } else if subs.len() == 1 {
        assert(subs.skip(1).len() == 0);
    }
    if n > 1 {
        assert(is_proper(cur, cur_blocks[1]));
        assert(cur_blocks[0].len1 < cur_blocks[1].len1);
        assert(subs.last() == (window, normal_form(parts)));
        lemma_nothing_left(cur_blocks, n);
        lemma_normal_proper(cur, Seq::<Rect>::empty());
    }
    assert forall|k: int| 0 <= k < top_blocks.len() implies corner_known(
        later,
        #[trigger] top_blocks[k],
    ) || is_pending(top, off, cur_blocks, top_blocks[k]) by {
        assert(is_proper(top, top_blocks[k]));
        if is_done(grid, off, top_blocks[k]) {
            lemma_corner_stays(grid, later, top, top_blocks[k]);
        }
    }
    match first_with_blocks(subs) {
        None => {
            assert(n == 1);
            assert forall|k: int| 0 <= k < top_blocks.len() implies corner_known(
                later,
                #[trigger] top_blocks[k],
            ) by {
                if is_pending(top, off, cur_blocks, top_blocks[k]) {
                    let m = choose|m: int|
                        0 <= m < cur_blocks.len() && #[trigger] lifted(cur_blocks[m], top, off)
                            == top_blocks[k];
                    assert(m == 0);
                }
            }
        },
        Some((next, next_blocks)) => {
            let off2 = next.origin1 - top.origin1;
            law_normal_form_exists(parts);
            assert(next == window);
            assert(n > 1) by {
                if n == 1 {
                    assert(parts.len() == 0);
                    lemma_nothing_left(cur_blocks, n);
                    lemma_normal_proper(cur, Seq::<Rect>::empty());
                }
            }
            assert(next_blocks == normal_form(parts));
            assert(off2 == off + target.len1 - 1);
            assert forall|k: int| 0 <= k < top_blocks.len() implies is_done(
                later,
                off2,
                #[trigger] top_blocks[k],
            ) || is_pending(top, off2, next_blocks, top_blocks[k]) by {
                assert(is_proper(top, top_blocks[k]));
                if is_done(grid, off, top_blocks[k]) {
                    lemma_corner_stays(grid, later, top, top_blocks[k]);
                } else {
                    let m = choose|m: int|
                        0 <= m < cur_blocks.len() && #[trigger] lifted(cur_blocks[m], top, off)
                            == top_blocks[k];
                    assert(is_proper(cur, cur_blocks[m]));
                    if m > 0 {
                        let x = beside(cur_blocks[m], target);
                        assert(parts[m - 1] == x);
                        assert(cur_blocks[0].len1 < cur_blocks[m].len1);
                        let q = lemma_covered_by(window, parts, x);
                        let j = choose|j: int| 0 <= j < parts.len() && parts[j] == next_blocks[q];
                        assert(is_staircase(parts)) by {
                            assert forall|a: int, b: int| 0 <= a < b < parts.len() implies (
                            #[trigger] parts[a]).len1 < (#[trigger] parts[b]).len1
                                && parts[a].len2 > parts[b].len2 by {
                                assert(cur_blocks[a + 1].len1 < cur_blocks[b + 1].len1);
                                assert(cur_blocks[0].len1 < cur_blocks[a + 1].len1);
                                assert(is_proper(cur, cur_blocks[a + 1]));
                                assert(is_proper(cur, cur_blocks[b + 1]));
                            }
                        }
                        lemma_one_contains(parts, j, m - 1);
                        assert(lifted(next_blocks[q], top, off2) == top_blocks[k]);
                    }
                }
            }
            assert forall|q: int| 0 <= q < next_blocks.len() implies top_blocks.contains(
                #[trigger] lifted(next_blocks[q], top, off2),
            ) by {
                lemma_from_list(window, parts, q);
                let j = choose|j: int| 0 <= j < parts.len() && parts[j] == next_blocks[q];
                assert(parts[j] == beside(cur_blocks[j + 1], target));
                assert(is_proper(cur, cur_blocks[j + 1]));
                assert(cur_blocks[0].len1 < cur_blocks[j + 1].len1);
                assert(lifted(cur_blocks[j + 1], top, off) == lifted(next_blocks[q], top, off2));
            }
            assert(top_blocks.contains(up) && up.len1 == off2 + 1 && up.len2 >= next.len2);
        },
    }
}

/// The first frontier of a list that has blocks.
fn pick(subs: Vec<(Rect, Vec<Rect>)>) -> (r: Option<(Rect, Vec<Rect>)>)
    ensures
        r.deep_view() == first_with_blocks(subs.deep_view()),
{
    let ghost all = subs.deep_view();
    let mut list = subs;
    while list.len() > 0
        invariant
            all == subs.deep_view(),
            first_with_blocks(all) == first_with_blocks(list.deep_view()),
        decreases list.len(),
    {
        let ghost before = list.deep_view();
        assert(before[0] == list@[0].deep_view());
        let first = list.remove(0);
        assert(list.deep_view() =~= before.skip(1));
        if first.1.len() > 0 {
            return Some(first);
        }
    }
    None
}

/// A copy of a list of blocks.
pub(crate) fn copied_blocks(blocks: &Vec<Rect>) -> (r: Vec<Rect>)
    ensures
        r@ == blocks@,
{
    let mut r: Vec<Rect> = Vec::new();
    let mut i: usize = 0;
    while i < blocks.len()
        invariant
            i <= blocks.len(),
            r@ == blocks@.take(i as int),
        decreases blocks.len() - i,
    {
        r.push(blocks[i]);
        i += 1;
        assert(r@ =~= blocks@.take(i as int));
    }
    assert(r@ =~= blocks@);
    r
}

fn pursue(git: &mut Git, grid: &mut Grid, top: Rect, blocks: Vec<Rect>) -> (r: Result<
    Vec<Rect>,
    ImergeError,
>)
    requires
        old(grid)@.wf(),
        old(grid)@.sound(),
        top.within(old(grid)@),
        proper(top, blocks@),
        is_staircase(blocks@),
        blocks.len() > 0 ==> edges_known(old(grid)@, top),
        blocks.len() == 0 && top.len1 >= 2 && top.len2 >= 2 ==> old(grid)@.blocked(
            top.origin1 + 1,
            top.origin2 + 1,
        ),
    ensures
        (final(git)@, final(grid)@, res(r)) == old(git)@.pursue(
            old(grid)@,
            top,
            blocks@,
            top,
            blocks@,
            true,
        ),
        old(git)@.grows_to(final(git)@),
        old(grid)@.grows_to(final(grid)@),
        r matches Ok(v) ==> proper(top, v@) && is_staircase(v@),
        r matches Ok(v) ==> v.len() > 0 ==> is_advanced(final(grid)@, top),
        r matches Ok(v) ==> corners_known(final(grid)@, v@),
        r matches Ok(v) ==> v.len() == 0 && top.len1 >= 2 && top.len2 >= 2 ==>
            final(grid)@.blocked(top.origin1 + 1, top.origin2 + 1),
        r matches Err(e) ==> e is Failure || e is Suspended,
{
    let mut top_blocks = copied_blocks(&blocks);
    let mut cur = top;
    let mut cur_blocks = blocks;
    let mut is_top = true;
    let ghost whole = old(git)@.pursue(old(grid)@, top, blocks@, top, blocks@, true);
    proof {
        lemma_in_step_at_start(grid@, top, blocks@);
    }
    while cur_blocks.len() > 0
        invariant
            whole == old(git)@.pursue(old(grid)@, top, blocks@, top, blocks@, true),
            whole == git@.pursue(grid@, top, top_blocks@, cur, cur_blocks@, is_top),
            old(git)@.grows_to(git@),
            old(grid)@.grows_to(grid@),
            grid@.wf(),
            grid@.sound(),
            top.within(grid@),
            cur.within(grid@),
            proper(top, top_blocks@),
            is_staircase(top_blocks@),
            proper(cur, cur_blocks@),
            is_staircase(cur_blocks@),
            cur_blocks.len() > 0 ==> edges_known(grid@, cur),
            is_top ==> cur == top && top_blocks@ == cur_blocks@,
            !is_top ==> cur.origin1 > top.origin1 && cur.origin2 == top.origin2
                && top_blocks.len() > 0,
            !is_top ==> is_advanced(grid@, top),
            in_step(grid@, top, top_blocks@, cur, cur_blocks@),
            cur_blocks.len() == 0 && is_top && top.len1 >= 2 && top.len2 >= 2 ==> grid@.blocked(
                top.origin1 + 1,
                top.origin2 + 1,
            ),
        decreases git@.remaining(), cur.len1,
    {
        let target = cur_blocks[0];
        let ghost g0 = git@;
        let ghost grid0 = grid@;
        assert(is_proper(cur, cur_blocks@[0]));
        assert(edges_known(grid@, target)) by {
            assert forall|i: int| 0 <= i < target.len1 implies #[trigger] grid@.known(
                target.origin1 + i,
                target.origin2 as int,
            ) by {
                assert(grid@.known(cur.origin1 + i, cur.origin2 as int));
            }
            assert forall|i: int| 0 <= i < target.len2 implies #[trigger] grid@.known(
                target.origin1 as int,
                target.origin2 + i,
            ) by {
                assert(grid@.known(cur.origin1 as int, cur.origin2 + i));
            }
        }
        let ghost top_before = top_blocks@;
        let ghost cur_before = cur_blocks@;
        match target.auto_outline(git, grid) {
            Err(ImergeError::UnexpectedMergeFailure { i1, i2, msg: _ }) => {
                proof {
                    lemma_failure_proper(cur, cur_blocks@, i1 as int, i2 as int);
                    lemma_with_grows(
                        grid@,
                        target.origin1 + 1,
                        target.origin2 + 1,
                        Seq::empty(),
                    );
                }
                cur_blocks = remove_failure(&cur_blocks, i1, i2);
                if is_top {
                    top_blocks = copied_blocks(&cur_blocks);
                }
                if i1 == 1 && i2 == 1 {
                    grid.get_mut(target.origin1 + 1, target.origin2 + 1).record_blocked(true);
                }
                if !is_top {
                    let a1: usize = target.origin1 + i1;
                    let a2: usize = target.origin2 + i2;
                    if let Some((t1, t2)) = top.to_local(a1, a2) {
                        proof {
                            lemma_failure_proper(top, top_blocks@, t1 as int, t2 as int);
                        }
                        top_blocks = remove_failure(&top_blocks, t1, t2);
                    }
                }
                proof {
                    assert(grid0.grows_to(grid@));
                    lemma_edges_stay(grid0, grid@, cur);
                    if is_top {
                        lemma_in_step_at_start(grid@, top, top_blocks@);
                    } else {
                        lemma_advanced_stays(grid0, grid@, top);
                        lemma_in_step_after_failure(
                            grid0,
                            grid@,
                            top,
                            top_before,
                            cur,
                            cur_before,
                            i1 as int,
                            i2 as int,
                        );
                    }
                }
            },
            Err(e) => {
                return Err(e);
            },
            Ok(()) => {
                proof {
                    if is_top {
                        assert(is_proper(top, target) && outline_known(grid@, target));
                    } else {
                        lemma_advanced_stays(grid0, grid@, top);
                    }
                    lemma_in_step_after_success(
                        grid0,
                        grid@,
                        top,
                        top_blocks@,
                        cur,
                        cur_blocks@,
                    );
                    lemma_next(cur, cur_blocks@);
                    lemma_edges_stay(grid0, grid@, cur);
                    lemma_next_edges(grid@, cur, target);
                    assert forall|k: int| 0 <= k < cur_blocks@.len() implies (
                    #[trigger] cur_blocks@[k]).fits() by {
                        assert(is_proper(cur, cur_blocks@[k]));
                    }
                }
                let subs = partition(cur, &cur_blocks, target)?;
                match pick(subs) {
                    None => {
                        assert(top_blocks.deep_view() =~= top_blocks@);
                        return Ok(top_blocks);
                    },
                    Some((next, next_blocks)) => {
                        assert(next_blocks.deep_view() =~= next_blocks@);
                        cur = next;
                        cur_blocks = next_blocks;
                        is_top = false;
                    },
                }
            },
        }
    }
    proof {
        lemma_in_step_at_end(grid@, top, top_blocks@, cur, cur_blocks@);
    }
    assert(top_blocks.deep_view() =~= top_blocks@);
    Ok(top_blocks)
}

/// Finds regions of `block` that can probably be merged automatically and
/// outlines them, backing out of regions where a merge fails after all. The
/// result is the frontier that was reached; the far corners of its blocks are
/// known.
pub fn initiate_merge(git: &mut Git, grid: &mut Grid, block: Rect) -> (r: Result<
    (Rect, Vec<Rect>),
    ImergeError,
>)
    requires
        old(grid)@.wf(),
        old(grid)@.sound(),
        block.within(old(grid)@),
        edges_known(old(grid)@, block),
    ensures
        (final(git)@, final(grid)@, res(r)) == old(git)@.initiate_merge(old(grid)@, block),
        old(git)@.grows_to(final(git)@),
        old(grid)@.grows_to(final(grid)@),
        r matches Ok((top, blocks)) ==> top == block && proper(top, blocks@) && is_staircase(
            blocks@,
        ),
        r matches Ok((top, blocks)) ==> blocks.len() > 0 ==> is_advanced(final(grid)@, block),
        r matches Ok((top, blocks)) ==> corners_known(final(grid)@, blocks@),
        r matches Ok((top, blocks)) ==> blocks.len() == 0 && block.len1 >= 2 && block.len2 >= 2 ==>
            final(grid)@.blocked(block.origin1 + 1, block.origin2 + 1),
        r matches Err(e) ==> e is Failure || e is Suspended,
{
    proof {
        reveal(Talk::initiate_merge);
    }
    let ghost grid0 = grid@;
    let found = find_frontier_blocks(git, grid, block)?;
    assert(found.deep_view() =~= found@);
    proof {
        lemma_normal_proper(block, found@);
        if found.len() > 0 {
            assert(is_proper(block, found@[0]));
            lemma_edges_stay(grid0, grid@, block);
        }
    }
    let blocks = normalized_blocks(found);
    let top_blocks = pursue(git, grid, block, blocks)?;
    assert(top_blocks.deep_view() =~= top_blocks@);
    Ok((block, top_blocks))
}

} // verus!
