//! What the bisection for mergeable regions finds.
//!
//! The bisection rests on an assumption: that the cells that can be merged
//! automatically form a staircase. The law here says what it finds where that is so.
use vstd::prelude::*;

use crate::block::{GridView, Rect};
use crate::error::ErrorView;
use crate::expand::is_proper;
use crate::merging::{law_probe_merges_the_edges, refused_at};
use crate::talk::Talk;

verus! {

/// Which cells of a window can be merged, by local coordinates.
pub type Answers = spec_fn(int, int) -> bool;

/// The answers form a staircase: with a cell, every cell before it along both axes
/// can be merged.
pub open spec fn is_closed(block: Rect, m: Answers) -> bool {
    forall|a1: int, a2: int, b1: int, b2: int|
        1 <= a1 <= b1 < block.len1 && 1 <= a2 <= b2 < block.len2 && #[trigger] m(b1, b2)
            ==> #[trigger] m(a1, a2)
}

/// `b` is a largest region that can be merged: it reaches beyond the edges of
/// `block`, its far corner can be merged, and it can be extended along neither axis.
pub open spec fn is_maximal(block: Rect, m: Answers, b: Rect) -> bool {
    &&& is_proper(block, b)
    &&& m(b.len1 - 1, b.len2 - 1)
    &&& b.len1 == block.len1 || !m(b.len1 as int, b.len2 - 1)
    &&& b.len2 == block.len2 || !m(b.len1 - 1, b.len2 as int)
}

/// The attempt at the cell `(n1, n2)` turns out as the answers say.
pub open spec fn probe_agrees(
    g: Talk,
    grid: GridView,
    block: Rect,
    n1: int,
    n2: int,
    m: Answers,
) -> bool {
    g.probe(grid, block, n1, n2).1 == Ok::<bool, ErrorView>(m(n1, n2))
}

/// Every attempt of a bisection along one axis turns out as the answers say.
pub open spec fn bisect_agrees(
    g: Talk,
    grid: GridView,
    block: Rect,
    along1: bool,
    fixed: usize,
    lo: usize,
    hi: usize,
    m: Answers,
) -> bool
    decreases hi - lo,
{
    let mid = (lo + (hi - lo) / 2) as usize;
    let (n1, n2) = if along1 {
        (mid as int, fixed as int)
    } else {
        (fixed as int, mid as int)
    };
    lo < hi ==> {
        &&& probe_agrees(g, grid, block, n1, n2, m)
        &&& if m(n1, n2) {
            bisect_agrees(
                g.probe(grid, block, n1, n2).0,
                grid,
                block,
                along1,
                fixed,
                (mid + 1) as usize,
                hi,
                m,
            )
        } else {
            bisect_agrees(
                g.probe(grid, block, n1, n2).0,
                grid,
                block,
                along1,
                fixed,
                lo,
                mid,
                m,
            )
        }
    }
}

/// Every attempt on the way down the staircase turns out as the answers say.
pub open spec fn descend_agrees(
    g: Talk,
    grid: GridView,
    block: Rect,
    i1: usize,
    i2: usize,
    m: Answers,
) -> bool
    decreases i2,
{
    let last1 = block.len1 - 1;
    i2 > 1 && i1 != last1 ==> {
        &&& probe_agrees(g, grid, block, last1, i2 - 1, m)
        &&& !m(last1, i2 - 1) ==> {
            let h = g.probe(grid, block, last1, i2 - 1).0;
            let lo = (i1 + 1) as usize;
            let side = (i2 - 1) as usize;
            &&& bisect_agrees(h, grid, block, true, side, lo, last1 as usize, m)
            &&& h.bisect(grid, block, true, side, lo, last1 as usize) matches (h, Ok(n1)) && (i2 > 2
                ==> {
                &&& probe_agrees(h, grid, block, n1 as int, 1, m)
                &&& m(n1 as int, 1) ==> {
                    let h = h.probe(grid, block, n1 as int, 1).0;
                    &&& bisect_agrees(h, grid, block, false, n1, 2, side, m)
                    &&& h.bisect(grid, block, false, n1, 2, side) matches (h, Ok(n2)) && (n2 < i2
                        ==> descend_agrees(h, grid, block, n1, n2, m))
                }
            })
        }
    }
}

/// Every attempt of the search turns out as the answers say.
pub open spec fn search_agrees(g: Talk, grid: GridView, block: Rect, m: Answers) -> bool {
    let last1 = block.len1 - 1;
    let last2 = block.len2 - 1;
    block.len1 > 1 && block.len2 > 1 ==> {
        &&& probe_agrees(g, grid, block, last1, last2, m)
        &&& !m(last1, last2) ==> {
            let h = g.probe(grid, block, last1, last2).0;
            &&& probe_agrees(h, grid, block, 1, 1, m)
            &&& m(1, 1) ==> {
                let h = h.probe(grid, block, 1, 1).0;
                &&& bisect_agrees(h, grid, block, false, 1, 2, block.len2, m)
                &&& h.bisect(grid, block, false, 1, 2, block.len2) matches (h, Ok(i2))
                    && descend_agrees(h, grid, block, 1, i2, m)
            }
        }
    }
}

/// The answer at place `i` along one axis.
spec fn at(m: Answers, along1: bool, fixed: usize, i: int) -> bool {
    if along1 {
        m(i, fixed as int)
    } else {
        m(fixed as int, i)
    }
}

/// A bisection ends where the answers turn from yes to no.
proof fn lemma_bisect(
    g: Talk,
    grid: GridView,
    block: Rect,
    along1: bool,
    fixed: usize,
    lo: usize,
    hi: usize,
    m: Answers,
)
    requires
        lo <= hi,
        bisect_agrees(g, grid, block, along1, fixed, lo, hi, m),
    ensures
        g.bisect(grid, block, along1, fixed, lo, hi).1 matches Ok(n) && lo <= n <= hi && (n > lo
            ==> at(m, along1, fixed, n - 1)) && (n < hi ==> !at(m, along1, fixed, n as int)),
    decreases hi - lo,
{
    if lo < hi {
        let mid = (lo + (hi - lo) / 2) as usize;
        let (n1, n2) = if along1 {
            (mid as int, fixed as int)
        } else {
            (fixed as int, mid as int)
        };
        let h = g.probe(grid, block, n1, n2).0;
        if m(n1, n2) {
            lemma_bisect(h, grid, block, along1, fixed, (mid + 1) as usize, hi, m);
        } else {
            lemma_bisect(h, grid, block, along1, fixed, lo, mid, m);
        }
    }
}

/// The maximal regions that are found once the search has come to the step
/// `(i1, i2)`: all but those beyond it.
spec fn found_before(block: Rect, m: Answers, i1: int, i2: int, found: Seq<Rect>) -> bool {
    forall|b: Rect| #[trigger]
        found.contains(b) <==> is_maximal(block, m, b) && !(b.len1 > i1 && b.len2 <= i2)
}

proof fn lemma_pushed(list: Seq<Rect>, e: Rect, b: Rect)
    ensures
        list.push(e).contains(b) <==> list.contains(b) || b == e,
{
    let more = list.push(e);
    assert(more[list.len() as int] == e);
    if list.contains(b) {
        let k = choose|k: int| 0 <= k < list.len() && list[k] == b;
        assert(more[k] == b);
    }
    if more.contains(b) && b != e {
        let k = choose|k: int| 0 <= k < more.len() && more[k] == b;
        assert(list[k] == b);
    }
}

/// Every maximal region beyond the step `(i1, i2)` is the one with the step's width,
/// or lies beyond `n1` and is narrower.
proof fn lemma_beyond(block: Rect, m: Answers, i1: int, i2: int, n1: int, b: Rect)
    requires
        is_closed(block, m),
        is_maximal(block, m, b),
        1 <= i1 < n1 <= block.len1,
        2 <= i2 <= block.len2,
        m(n1 - 1, i2 - 1),
        n1 == block.len1 || !m(n1, i2 - 1),
        b.len1 > i1,
        b.len2 <= i2,
    ensures
        b == block.part(0, n1, 0, i2) || (b.len1 > n1 && b.len2 < i2),
{
    if b.len2 == i2 {
        if b.len1 < n1 {
            assert(m(n1 - 1, i2 - 1) ==> m(b.len1 as int, b.len2 - 1));
        }
        if b.len1 > n1 {
            assert(m(b.len1 - 1, b.len2 - 1) ==> m(n1, i2 - 1));
        }
        assert(b == block.part(0, n1, 0, i2));
    } else if b.len1 <= n1 {
        assert(m(n1 - 1, i2 - 1) ==> m(b.len1 - 1, b.len2 as int));
    }
}

/// The region that ends a step is maximal.
proof fn lemma_step_is_maximal(block: Rect, m: Answers, i1: int, i2: int, n1: int)
    requires
        is_closed(block, m),
        1 <= i1 < n1 <= block.len1,
        2 <= i2 <= block.len2,
        m(n1 - 1, i2 - 1),
        n1 == block.len1 || !m(n1, i2 - 1),
        i2 == block.len2 || !m(i1, i2),
    ensures
        is_maximal(block, m, block.part(0, n1, 0, i2)),
{
    if i2 < block.len2 {
        assert(m(n1 - 1, i2) ==> m(i1, i2));
    }
}

proof fn lemma_descend(
    g: Talk,
    grid: GridView,
    block: Rect,
    i1: usize,
    i2: usize,
    found: Seq<Rect>,
    m: Answers,
)
    requires
        is_closed(block, m),
        1 <= i1 < block.len1,
        2 <= i2 <= block.len2,
        m(i1 as int, i2 - 1),
        i2 == block.len2 || !m(i1 as int, i2 as int),
        descend_agrees(g, grid, block, i1, i2, m),
        found_before(block, m, i1 as int, i2 as int, found),
    ensures
        g.descend(grid, block, i1, i2, found).1 matches Ok(all) && forall|b: Rect| #[trigger]
            all.contains(b) <==> is_maximal(block, m, b),
    decreases i2,
{
    let last1 = block.len1 - 1;
    if i1 == last1 || m(last1, i2 - 1) {
        let e = block.part(0, block.len1 as int, 0, i2 as int);
        lemma_step_is_maximal(block, m, i1 as int, i2 as int, block.len1 as int);
        assert forall|b: Rect| #[trigger] found.push(e).contains(b) <==> is_maximal(
            block,
            m,
            b,
        ) by {
            lemma_pushed(found, e, b);
            if is_maximal(block, m, b) && b.len1 > i1 && b.len2 <= i2 {
                lemma_beyond(block, m, i1 as int, i2 as int, block.len1 as int, b);
            }
        }
    } else {
        let h1 = g.probe(grid, block, last1, i2 - 1).0;
        let lo = (i1 + 1) as usize;
        let side = (i2 - 1) as usize;
        lemma_bisect(h1, grid, block, true, side, lo, last1 as usize, m);
        let (h2, r1) = h1.bisect(grid, block, true, side, lo, last1 as usize);
        let n1 = r1->Ok_0;
        let e = block.part(0, n1 as int, 0, i2 as int);
        let more = found.push(e);
        assert(m(n1 - 1, i2 - 1) && !m(n1 as int, i2 - 1)) by {
            assert(n1 > lo ==> at(m, true, side, n1 - 1));
            assert(n1 < last1 ==> !at(m, true, side, n1 as int));
        }
        lemma_step_is_maximal(block, m, i1 as int, i2 as int, n1 as int);
        assert forall|b: Rect| #[trigger] more.contains(b) <==> is_maximal(block, m, b) && !(b.len1
            > n1 && b.len2 < i2) by {
            lemma_pushed(found, e, b);
            if is_maximal(block, m, b) && b.len1 > i1 && b.len2 <= i2 {
                lemma_beyond(block, m, i1 as int, i2 as int, n1 as int, b);
            }
        }
        if i2 == 2 {
            assert forall|b: Rect| #[trigger] more.contains(b) <==> is_maximal(block, m, b) by {
                if is_maximal(block, m, b) {
                    assert(is_proper(block, b));
                }
            }
        } else {
            let h3 = h2.probe(grid, block, n1 as int, 1).0;
            if !m(n1 as int, 1) {
                assert forall|b: Rect| #[trigger] more.contains(b) <==> is_maximal(
                    block,
                    m,
                    b,
                ) by {
                    if is_maximal(block, m, b) && b.len1 > n1 {
                        assert(m(b.len1 - 1, b.len2 - 1) ==> m(n1 as int, 1));
                    }
                }
            } else {
                lemma_bisect(h3, grid, block, false, n1, 2, side, m);
                let (h4, r2) = h3.bisect(grid, block, false, n1, 2, side);
                let n2 = r2->Ok_0;
                assert(m(n1 as int, n2 - 1) && !m(n1 as int, n2 as int)) by {
                    assert(n2 > 2 ==> at(m, false, n1, n2 - 1));
                    assert(n2 < side ==> !at(m, false, n1, n2 as int));
                }
                assert(found_before(block, m, n1 as int, n2 as int, more)) by {
                    assert forall|b: Rect| #[trigger] more.contains(b) <==> is_maximal(
                        block,
                        m,
                        b,
                    ) && !(b.len1 > n1 && b.len2 <= n2) by {
                        if is_maximal(block, m, b) && b.len1 > n1 && b.len2 < i2 && b.len2 > n2 {
                            assert(m(b.len1 - 1, b.len2 - 1) ==> m(n1 as int, n2 as int));
                        }
                    }
                }
                lemma_descend(h4, grid, block, n1, n2, more, m);
            }
        }
    }
}

/// Where the cells that can be merged form a staircase, and every attempt of the
/// search turns out accordingly, the search finds exactly the largest regions that
/// can be merged. The first cell must not be marked as blocked.
pub proof fn law_search_finds_the_maximal_regions(
    g: Talk,
    grid: GridView,
    block: Rect,
    m: Answers,
)
    requires
        is_closed(block, m),
        search_agrees(g, grid, block, m),
        block.len1 > 1 && block.len2 > 1 ==> !grid.blocked(block.origin1 + 1, block.origin2 + 1),
    ensures
        g.find_frontier_blocks(grid, block).2 matches Ok(found) && forall|b: Rect| #[trigger]
            found.contains(b) <==> is_maximal(block, m, b),
{
    let last1 = block.len1 - 1;
    let last2 = block.len2 - 1;
    let none = Seq::<Rect>::empty();
    if block.len1 <= 1 || block.len2 <= 1 {
        assert forall|b: Rect| #[trigger] none.contains(b) <==> is_maximal(block, m, b) by {}
    } else if m(last1, last2) {
        let found = seq![block];
        assert(found[0] == block);
        assert forall|b: Rect| #[trigger] found.contains(b) <==> is_maximal(block, m, b) by {
            if is_maximal(block, m, b) {
                if b.len1 < block.len1 {
                    assert(m(last1, last2) ==> m(b.len1 as int, b.len2 - 1));
                }
                if b.len2 < block.len2 {
                    assert(m(last1, last2) ==> m(b.len1 - 1, b.len2 as int));
                }
            }
        }
    } else {
        let h1 = g.probe(grid, block, last1, last2).0;
        if !m(1, 1) {
            assert forall|b: Rect| #[trigger] none.contains(b) <==> is_maximal(block, m, b) by {
                if is_maximal(block, m, b) {
                    assert(m(b.len1 - 1, b.len2 - 1) ==> m(1, 1));
                }
            }
        } else {
            let h2 = h1.probe(grid, block, 1, 1).0;
            lemma_bisect(h2, grid, block, false, 1, 2, block.len2, m);
            let (h3, r) = h2.bisect(grid, block, false, 1, 2, block.len2);
            let i2 = r->Ok_0;
            assert(m(1, i2 - 1) && (i2 == block.len2 || !m(1, i2 as int))) by {
                assert(i2 > 2 ==> at(m, false, 1, i2 - 1));
                assert(i2 < block.len2 ==> !at(m, false, 1, i2 as int));
            }
            assert(found_before(block, m, 1, i2 as int, none)) by {
                assert forall|b: Rect| #[trigger] none.contains(b) <==> is_maximal(block, m, b)
                    && !(b.len1 > 1 && b.len2 <= i2) by {
                    if is_maximal(block, m, b) && b.len2 > i2 {
                        assert(m(b.len1 - 1, b.len2 - 1) ==> m(1, i2 as int));
                    }
                }
            }
            lemma_descend(h3, grid, block, 1, i2, none, m);
        }
    }
}

/// The search changes nothing in the grid but one mark: where the first cell turns out
/// to be a conflict between the two commits that meet there, it is marked as blocked, and
/// nothing is found.
pub proof fn law_search_marks_only_a_conflict(g: Talk, grid: GridView, block: Rect)
    requires
        grid.wf(),
        block.within(grid),
    ensures
        ({
            let (t, later, r) = g.find_frontier_blocks(grid, block);
            let a1 = block.origin1 + 1;
            let a2 = block.origin2 + 1;
            later == grid || {
                &&& r matches Ok(found) && found.len() == 0
                &&& later.cell(a1, a2) == grid.cell(a1, a2).marked(true)
                &&& forall|b1: int, b2: int|
                    grid.has(b1, b2) && (b1 != a1 || b2 != a2) ==> #[trigger] later.cell(b1, b2)
                        == grid.cell(b1, b2)
                &&& exists|k: int|
                    g.asked.len() <= k && #[trigger] refused_at(
                        t,
                        k,
                        grid,
                        grid.commit(a1, block.origin2 as int),
                        grid.commit(block.origin1 as int, a2),
                        None,
                        a1,
                        a2,
                        true,
                    )
            }
        }),
{
    broadcast use crate::replay::goes_on_probe;

    let (t, later, r) = g.find_frontier_blocks(grid, block);
    let a1 = block.origin1 + 1;
    let a2 = block.origin2 + 1;
    if later != grid {
        let (h, first) = g.probe(grid, block, block.len1 - 1, block.len2 - 1);
        let (k, second) = h.probe(grid, block, 1, 1);
        assert(block.len1 > 1 && block.len2 > 1);
        assert(second == Ok::<bool, ErrorView>(false));
        assert(t == k);
        assert(g.grows_to(h));
        law_probe_merges_the_edges(h, grid, block, 1, 1);
        assert(refused_at(
            t,
            h.asked.len() as int,
            grid,
            grid.commit(a1, block.origin2 as int),
            grid.commit(block.origin1 as int, a2),
            None,
            a1,
            a2,
            true,
        ));
        assert(grid.cells[a1].len() == grid.len2);
        assert forall|b1: int, b2: int|
            grid.has(b1, b2) && (b1 != a1 || b2 != a2) implies #[trigger] later.cell(b1, b2)
            == grid.cell(b1, b2) by {
            assert(grid.cells[b1].len() == grid.len2);
        }
    }
}

} // verus!
