//! The frontier of what is already known, read off the grid.
//!
//! A walk starts at the end of the first row, `(len1 - 1, 0)`, and goes to
//! column 0 over cells that are known and not blocked. Each step leads to the
//! next cell of the second axis ("down") or to the previous one of the first
//! ("left"). Where the walk turns from down to left it is at the far corner of
//! a block of the frontier.
use vstd::prelude::*;

use crate::block::{Grid, GridView, Rect};
use crate::error::{res, ErrorView, ImergeError};
use crate::frontier::{
    are_neighbours, blockers, boundary, contains, gap, is_empty, is_frontier, is_staircase,
    is_whole, law_normal_form_exists, lemma_boundary, lemma_cover_index, lemma_first_index,
    normal_form, normalized_blocks,
};

verus! {

/// A cell of the walk, and whether the walk leaves it downwards.
pub type Step = (usize, usize, bool);

/// Whether the walk over `block` may enter the local cell `(i1, i2)`.
pub open spec fn may_enter(grid: GridView, block: Rect, i1: int, i2: int) -> bool {
    grid.known(block.origin1 + i1, block.origin2 + i2) && !grid.blocked(
        block.origin1 + i1,
        block.origin2 + i2,
    )
}

/// The first walk from `(i1, i2)` to column 0, if there is one. A walk that goes
/// down comes before one that goes left.
pub open spec fn first_walk(grid: GridView, block: Rect, i1: usize, i2: usize) -> Option<Seq<Step>>
    decreases i1 + (block.len2 - i2), 1int,
{
    if i2 >= block.len2 {
        None
    } else {
        let down = if i2 + 1 < block.len2 && may_enter(grid, block, i1 as int, i2 + 1) {
            first_walk(grid, block, i1, (i2 + 1) as usize)
        } else {
            None
        };
        match down {
            Some(rest) => Some(seq![(i1, i2, true)] + rest),
            None => first_walk_left(grid, block, i1, i2),
        }
    }
}

/// The first walk from `(i1, i2)` to column 0 that goes left at once.
pub open spec fn first_walk_left(grid: GridView, block: Rect, i1: usize, i2: usize) -> Option<
    Seq<Step>,
>
    decreases i1 + (block.len2 - i2), 0int,
{
    if i2 >= block.len2 {
        None
    } else if i1 == 0 {
        Some(seq![(i1, i2, false)])
    } else if may_enter(grid, block, i1 - 1, i2 as int) {
        match first_walk(grid, block, (i1 - 1) as usize, i2) {
            Some(rest) => Some(seq![(i1, i2, false)] + rest),
            None => None,
        }
    } else {
        None
    }
}

/// What the search comes to when `path` has been walked and the search from its
/// end came to `rest`. Where there was no way on, the last cell that was left
/// downwards is tried again to the left.
spec fn resumed(grid: GridView, block: Rect, path: Seq<Step>, rest: Option<Seq<Step>>) -> Option<
    Seq<Step>,
>
    decreases path.len(),
{
    match rest {
        Some(r) => Some(path + r),
        None => if path.len() == 0 {
            None
        } else {
            let last = path.last();
            resumed(
                grid,
                block,
                path.drop_last(),
                if last.2 {
                    first_walk_left(grid, block, last.0, last.1)
                } else {
                    None
                },
            )
        },
    }
}

/// The blocks at whose far corners the walk turns from down to left.
pub open spec fn corner_blocks(block: Rect, path: Seq<Step>) -> Seq<Rect>
    decreases path.len(),
{
    if path.len() < 2 {
        Seq::empty()
    } else {
        let rest = corner_blocks(block, path.drop_last());
        let last = path.last();
        if path[path.len() - 2].2 && !last.2 {
            rest.push(block.part(0, last.0 + 1, 0, last.1 + 1))
        } else {
            rest
        }
    }
}

/// How many steps a search over `k` moves can take.
spec fn search_len(k: nat) -> nat
    decreases k,
{
    if k == 0 {
        4
    } else {
        2 * search_len((k - 1) as nat) + 6
    }
}

/// How many steps a search over `k` moves can take when it begins to the left.
spec fn left_len(k: nat) -> nat {
    if k == 0 {
        1
    } else {
        2 + search_len((k - 1) as nat)
    }
}

/// The moves that can still follow `(i1, i2)`.
spec fn moves(block: Rect, i1: int, i2: int) -> nat {
    (i1 + (block.len2 - 1 - i2)) as nat
}

/// How many steps can follow from going back over `path`.
spec fn retry_len(block: Rect, path: Seq<Step>) -> nat
    decreases path.len(),
{
    if path.len() == 0 {
        0
    } else {
        let last = path.last();
        retry_len(block, path.drop_last()) + 1 + (if last.2 {
            left_len(moves(block, last.0 as int, last.1 as int))
        } else {
            0
        })
    }
}

spec fn steps_left(block: Rect, path: Seq<Step>, i1: int, i2: int, down: bool) -> nat {
    retry_len(block, path) + (if down {
        search_len(moves(block, i1, i2))
    } else {
        left_len(moves(block, i1, i2))
    })
}

/// The content of a frontier that was read off the grid.
pub open spec fn known_frontier(grid: GridView, block: Rect) -> Result<(Rect, Seq<Rect>), ErrorView> {
    match first_walk(grid, block, (block.len1 - 1) as usize, 0) {
        Some(path) => Ok((block, normal_form(corner_blocks(block, path)))),
        None => Err(ErrorView::Failure("Block is improperly formed!"@)),
    }
}

fn search(grid: &Grid, block: Rect) -> (r: Option<Vec<Step>>)
    requires
        grid@.wf(),
        block.within(grid@),
        block.len1 >= 1,
        block.len2 >= 1,
    ensures
        r.deep_view() == first_walk(grid@, block, (block.len1 - 1) as usize, 0),
{
    let mut path: Vec<Step> = Vec::new();
    let mut i1: usize = block.len1 - 1;
    let mut i2: usize = 0;
    let mut down = true;
    let ghost g = grid@;
    let ghost goal = first_walk(g, block, i1, i2);
    proof {
        if let Some(r) = goal {
            assert(path@ + r =~= r);
        }
    }
    while !(!down && i1 == 0)
        invariant
            g == grid@,
            grid@.wf(),
            block.within(grid@),
            i1 < block.len1,
            i2 < block.len2,
            forall|k: int|
                0 <= k < path@.len() ==> (#[trigger] path@[k]).0 < block.len1 && path@[k].1
                    < block.len2,
            goal == first_walk(grid@, block, (block.len1 - 1) as usize, 0),
            goal == resumed(
                g,
                block,
                path@,
                if down {
                    first_walk(g, block, i1, i2)
                } else {
                    first_walk_left(g, block, i1, i2)
                },
            ),
        decreases steps_left(block, path@, i1 as int, i2 as int, down),
    {
        let ghost before = path@;
        let ghost k = moves(block, i1 as int, i2 as int);
        if down {
            if i2 + 1 < block.len2 && grid.is_known(block.origin1 + i1, block.origin2 + i2 + 1)
                && !grid.is_blocked(block.origin1 + i1, block.origin2 + i2 + 1) {
                path.push((i1, i2, true));
                proof {
                    let e = (i1, i2, true);
                    assert(path@.drop_last() =~= before);
                    assert(moves(block, i1 as int, i2 + 1) == k - 1);
                    if let Some(rest) = first_walk(g, block, i1, (i2 + 1) as usize) {
                        assert(before.push(e) + rest =~= before + (seq![e] + rest));
                    }
                }
                i2 += 1;
            } else {
                down = false;
            }
        } else if grid.is_known(block.origin1 + i1 - 1, block.origin2 + i2) && !grid.is_blocked(
            block.origin1 + i1 - 1,
            block.origin2 + i2,
        ) {
            path.push((i1, i2, false));
            proof {
                let e = (i1, i2, false);
                assert(path@.drop_last() =~= before);
                assert(moves(block, i1 - 1, i2 as int) == k - 1);
                if let Some(rest) = first_walk(g, block, (i1 - 1) as usize, i2) {
                    assert(before.push(e) + rest =~= before + (seq![e] + rest));
                }
            }
            down = true;
            i1 -= 1;
        } else {
            let ghost total = steps_left(block, path@, i1 as int, i2 as int, down);
            let mut found = false;
            while !found
                invariant
                    g == grid@,
                    block.within(grid@),
                    i1 < block.len1,
                    i2 < block.len2,
                    forall|k: int|
                        0 <= k < path@.len() ==> (#[trigger] path@[k]).0 < block.len1
                            && path@[k].1 < block.len2,
                    goal == first_walk(grid@, block, (block.len1 - 1) as usize, 0),
                    !found ==> goal == resumed(g, block, path@, None) && retry_len(block, path@)
                        < total,
                    found ==> !down && goal == resumed(
                        g,
                        block,
                        path@,
                        first_walk_left(g, block, i1, i2),
                    ) && retry_len(block, path@) + left_len(moves(block, i1 as int, i2 as int))
                        < total,
                decreases path@.len() + (if found {
                    0int
                } else {
                    1
                }),
            {
                let ghost rest = path@;
                match path.pop() {
                    None => {
                        return None;
                    },
                    Some((p1, p2, pdown)) => {
                        assert(rest.drop_last() =~= path@);
                        assert(rest.last() == (p1, p2, pdown));
                        assert(rest[rest.len() - 1].0 < block.len1);
                        i1 = p1;
                        i2 = p2;
                        if pdown {
                            down = false;
                            found = true;
                        }
                    },
                }
            }
        }
    }
    let ghost before = path@;
    path.push((i1, i2, false));
    assert(before + seq![(i1, i2, false)] =~= before.push((i1, i2, false)));
    assert(path.deep_view() =~= path@);
    Some(path)
}

/// Reads the blockwise frontier off what is known in the grid.
pub fn map_known_frontier(grid: &Grid, block: Rect) -> (r: Result<(Rect, Vec<Rect>), ImergeError>)
    requires
        grid@.wf(),
        block.within(grid@),
        block.len1 >= 1,
        block.len2 >= 1,
    ensures
        res(r) == known_frontier(grid@, block),
{
    match search(grid, block) {
        None => Err(ImergeError::Failure("Block is improperly formed!".to_owned())),
        Some(path) => {
            let mut blocks: Vec<Rect> = Vec::new();
            let mut k: usize = 1;
            assert(path.deep_view() =~= path@);
            proof {
                lemma_walk_bounds(grid@, block, (block.len1 - 1) as usize, 0);
            }
            assert(path@.take(1).len() <= 1);
            while k < path.len()
                invariant
                    1 <= k,
                    k <= path.len() || k == 1,
                    block.within(grid@),
                    forall|m: int|
                        0 <= m < path@.len() ==> (#[trigger] path@[m]).0 < block.len1
                            && path@[m].1 < block.len2,
                    k <= path.len() ==> blocks@ == corner_blocks(block, path@.take(k as int)),
                    k > path.len() ==> blocks@ == Seq::<Rect>::empty(),
                decreases path.len() - k,
            {
                let was_down = path[k - 1].2;
                let (n1, n2, is_down) = path[k];
                let ghost now = path@.take(k + 1);
                assert(now.drop_last() =~= path@.take(k as int));
                if was_down && !is_down {
                    blocks.push(block.sub(0, n1 + 1, 0, n2 + 1));
                }
                k += 1;
            }
            assert(path.len() >= 1 ==> path@.take(k as int) =~= path@);
            let r = normalized_blocks(blocks);
            assert(r.deep_view() =~= r@);
            Ok((block, r))
        },
    }
}

proof fn lemma_walk_bounds(grid: GridView, block: Rect, i1: usize, i2: usize)
    requires
        i1 < block.len1,
        i2 < block.len2,
    ensures
        first_walk(grid, block, i1, i2) matches Some(p) ==> p.len() >= 1 && forall|m: int|
            0 <= m < p.len() ==> (#[trigger] p[m]).0 < block.len1 && p[m].1 < block.len2,
        first_walk_left(grid, block, i1, i2) matches Some(p) ==> p.len() >= 1 && forall|m: int|
            0 <= m < p.len() ==> (#[trigger] p[m]).0 < block.len1 && p[m].1 < block.len2,
    decreases i1 + (block.len2 - i2),
{
    if i2 + 1 < block.len2 {
        lemma_walk_bounds(grid, block, i1, (i2 + 1) as usize);
    }
    if i1 > 0 {
        lemma_walk_bounds(grid, block, (i1 - 1) as usize, i2);
    }
}

// ---------------------------------------------------------------------
// What is known along the frontier
// ---------------------------------------------------------------------

/// Where the first cells of both axes of `rect` are known.
pub open spec fn edges_known(grid: GridView, rect: Rect) -> bool {
    &&& forall|i: int|
        0 <= i < rect.len1 ==> #[trigger] grid.known(rect.origin1 + i, rect.origin2 as int)
    &&& forall|i: int|
        0 <= i < rect.len2 ==> #[trigger] grid.known(rect.origin1 as int, rect.origin2 + i)
}

/// Every region beyond the frontier has known edges.
pub open spec fn is_outlined(grid: GridView, top: Rect, blocks: Seq<Rect>) -> bool {
    forall|k: int|
        0 <= k < blockers(top, blocks).len() ==> edges_known(
            grid,
            #[trigger] blockers(top, blocks)[k],
        )
}

/// A walk exists wherever the first row may be entered: in the worst case the
/// walk goes along it.
pub proof fn law_first_row_is_a_walk(grid: GridView, block: Rect, i1: usize)
    requires
        i1 < block.len1,
        block.len2 >= 1,
        forall|i: int| 0 <= i < i1 ==> #[trigger] may_enter(grid, block, i, 0),
    ensures
        first_walk(grid, block, i1, 0) is Some,
    decreases i1,
{
    if i1 > 0 {
        law_first_row_is_a_walk(grid, block, (i1 - 1) as usize);
        assert(may_enter(grid, block, i1 - 1, 0));
    }
    assert(first_walk_left(grid, block, i1, 0) is Some);
}

/// The row in which the walk leaves each column, by column.
spec fn heights(path: Seq<Step>) -> Seq<int>
    decreases path.len(),
{
    if path.len() == 0 {
        Seq::empty()
    } else if path[0].2 {
        heights(path.skip(1))
    } else {
        heights(path.skip(1)).push(path[0].1 as int)
    }
}

/// Whether `(i1, i2)` of `block` is known.
spec fn known_at(grid: GridView, block: Rect, i1: int, i2: int) -> bool {
    grid.known(block.origin1 + i1, block.origin2 + i2)
}

/// What the heights of a walk from `(i1, i2)` say.
spec fn heights_fit(grid: GridView, block: Rect, h: Seq<int>, i1: int, i2: int) -> bool {
    &&& h.len() == i1 + 1
    &&& i2 <= h[i1] < block.len2
    &&& forall|x: int, z: int| 0 <= x <= z <= i1 ==> #[trigger] h[x] >= #[trigger] h[z]
    &&& h[0] < block.len2
    &&& forall|x: int, y: int|
        0 <= x < i1 && h[x + 1] <= y <= h[x] ==> #[trigger] known_at(grid, block, x, y)
    &&& forall|y: int| i2 < y <= h[i1] ==> #[trigger] known_at(grid, block, i1, y)
}

proof fn lemma_heights(grid: GridView, block: Rect, i1: usize, i2: usize)
    requires
        i2 < block.len2,
    ensures
        first_walk(grid, block, i1, i2) matches Some(p) ==> heights_fit(
            grid,
            block,
            heights(p),
            i1 as int,
            i2 as int,
        ),
        first_walk_left(grid, block, i1, i2) matches Some(p) ==> heights_fit(
            grid,
            block,
            heights(p),
            i1 as int,
            i2 as int,
        ),
    decreases i1 + (block.len2 - i2),
{
    if i2 + 1 < block.len2 {
        lemma_heights(grid, block, i1, (i2 + 1) as usize);
        if may_enter(grid, block, i1 as int, i2 + 1) {
            if let Some(rest) = first_walk(grid, block, i1, (i2 + 1) as usize) {
                let p = seq![(i1, i2, true)] + rest;
                assert(p.skip(1) =~= rest);
                assert(heights(p) == heights(rest));
                assert(known_at(grid, block, i1 as int, i2 + 1));
            }
        }
    }
    if i1 > 0 {
        lemma_heights(grid, block, (i1 - 1) as usize, i2);
        if may_enter(grid, block, i1 - 1, i2 as int) {
            if let Some(rest) = first_walk(grid, block, (i1 - 1) as usize, i2) {
                let p = seq![(i1, i2, false)] + rest;
                assert(p.skip(1) =~= rest);
                let h = heights(rest);
                assert(heights(p) == h.push(i2 as int));
                assert(known_at(grid, block, i1 - 1, i2 as int));
                assert forall|x: int, y: int| 0 <= x < i1 && h.push(i2 as int)[x + 1] <= y
                    <= h.push(i2 as int)[x] implies #[trigger] known_at(grid, block, x, y) by {
                    if x < i1 - 1 {
                        assert(h.push(i2 as int)[x + 1] == h[x + 1]);
                    }
                }
            }
        }
    } else {
        let p = seq![(i1, i2, false)];
        reveal_with_fuel(heights, 2);
        assert(p.skip(1).len() == 0);
        assert(heights(p) =~= seq![i2 as int]);
    }
}

/// The corner blocks of a walk, where `was_down` says how its first cell was
/// entered.
spec fn turns(block: Rect, path: Seq<Step>, was_down: bool) -> Seq<Rect>
    decreases path.len(),
{
    if path.len() == 0 {
        Seq::empty()
    } else {
        (if was_down && !path[0].2 {
            seq![block.part(0, path[0].0 + 1, 0, path[0].1 + 1)]
        } else {
            Seq::empty()
        }) + turns(block, path.skip(1), path[0].2)
    }
}

proof fn lemma_turns_push(block: Rect, path: Seq<Step>, was_down: bool, e: Step)
    ensures
        turns(block, path.push(e), was_down) == turns(block, path, was_down) + (if (if path.len()
            == 0 {
            was_down
        } else {
            path.last().2
        }) && !e.2 {
            seq![block.part(0, e.0 + 1, 0, e.1 + 1)]
        } else {
            Seq::empty()
        }),
    decreases path.len(),
{
    let more = path.push(e);
    if path.len() == 0 {
        reveal_with_fuel(turns, 2);
        assert(more.skip(1).len() == 0);
        assert(turns(block, more, was_down) =~= if was_down && !e.2 {
            seq![block.part(0, e.0 + 1, 0, e.1 + 1)]
        } else {
            Seq::empty()
        });
        assert(turns(block, path, was_down) =~= Seq::<Rect>::empty());
    } else {
        assert(more.skip(1) =~= path.skip(1).push(e));
        lemma_turns_push(block, path.skip(1), path[0].2, e);
        if path.len() > 1 {
            assert(path.skip(1).last() == path.last());
        } else {
            assert(path.last() == path[0]);
        }
        assert(more[0] == path[0]);
        let head = if was_down && !path[0].2 {
            seq![block.part(0, path[0].0 + 1, 0, path[0].1 + 1)]
        } else {
            Seq::<Rect>::empty()
        };
        let tail = if path.last().2 && !e.2 {
            seq![block.part(0, e.0 + 1, 0, e.1 + 1)]
        } else {
            Seq::<Rect>::empty()
        };
        let mid = turns(block, path.skip(1), path[0].2);
        assert(head + (mid + tail) =~= (head + mid) + tail);
    }
}

proof fn lemma_corner_blocks(block: Rect, path: Seq<Step>)
    ensures
        corner_blocks(block, path) == turns(block, path, false),
    decreases path.len(),
{
    if path.len() == 0 {
    } else {
        let head = path.drop_last();
        lemma_corner_blocks(block, head);
        lemma_turns_push(block, head, false, path.last());
        assert(head.push(path.last()) =~= path);
        if path.len() == 1 {
            assert(corner_blocks(block, path) =~= turns(block, path, false));
        } else {
            assert(head.last() == path[path.len() - 2]);
            assert(corner_blocks(block, path) =~= turns(block, path, false));
        }
    }
}

/// The corner block of column `x`.
spec fn corner(block: Rect, h: Seq<int>, x: int) -> Rect {
    block.part(0, x + 1, 0, h[x] + 1)
}

/// Whether the walk turns in column `x`, where it came to row `i2` of column
/// `i1` as `was_down` says.
spec fn turns_in(h: Seq<int>, i1: int, i2: int, was_down: bool, x: int) -> bool {
    0 <= x <= i1 && if x == i1 {
        was_down || h[x] > i2
    } else {
        h[x] > h[x + 1]
    }
}

/// Whether `b` is the corner block of a column in which the walk turns.
spec fn is_turn(block: Rect, b: Rect, h: Seq<int>, i1: int, i2: int, was_down: bool) -> bool {
    exists|x: int| #[trigger] turns_in(h, i1, i2, was_down, x) && b == corner(block, h, x)
}

/// Whether `list` has the corner blocks of the columns in which the walk turns,
/// and nothing else.
spec fn are_turns(block: Rect, list: Seq<Rect>, h: Seq<int>, i1: int, i2: int, was_down: bool) -> bool {
    &&& forall|k: int|
        0 <= k < list.len() ==> is_turn(block, #[trigger] list[k], h, i1, i2, was_down)
    &&& forall|x: int|
        #[trigger] turns_in(h, i1, i2, was_down, x) ==> list.contains(corner(block, h, x))
}

proof fn lemma_turns(grid: GridView, block: Rect, i1: usize, i2: usize, was_down: bool)
    requires
        i1 < block.len1,
        i2 < block.len2,
    ensures
        first_walk(grid, block, i1, i2) matches Some(p) ==> are_turns(
            block,
            turns(block, p, was_down),
            heights(p),
            i1 as int,
            i2 as int,
            was_down,
        ),
    decreases i1 + (block.len2 - i2), 1int,
{
    lemma_heights(grid, block, i1, i2);
    if let Some(p) = first_walk(grid, block, i1, i2) {
        let h = heights(p);
        let down = if i2 + 1 < block.len2 && may_enter(grid, block, i1 as int, i2 + 1) {
            first_walk(grid, block, i1, (i2 + 1) as usize)
        } else {
            None
        };
        if let Some(rest) = down {
            assert(p.skip(1) =~= rest);
            lemma_turns(grid, block, i1, (i2 + 1) as usize, true);
            lemma_heights(grid, block, i1, (i2 + 1) as usize);
            let all = turns(block, p, was_down);
            assert(all =~= turns(block, rest, true));
            assert forall|k: int| 0 <= k < all.len() implies is_turn(
                block,
                #[trigger] all[k],
                h,
                i1 as int,
                i2 as int,
                was_down,
            ) by {
                assert(is_turn(block, all[k], h, i1 as int, i2 + 1, true));
                let x = choose|x: int|
                    #[trigger] turns_in(h, i1 as int, i2 + 1, true, x) && all[k] == corner(
                        block,
                        h,
                        x,
                    );
                assert(turns_in(h, i1 as int, i2 as int, was_down, x));
            }
            assert forall|x: int|
                #[trigger] turns_in(h, i1 as int, i2 as int, was_down, x) implies all.contains(
                corner(block, h, x),
            ) by {
                assert(turns_in(h, i1 as int, i2 + 1, true, x));
            }
        } else {
            lemma_turns_left(grid, block, i1, i2, was_down);
        }
    }
}

proof fn lemma_turns_left(grid: GridView, block: Rect, i1: usize, i2: usize, was_down: bool)
    requires
        i1 < block.len1,
        i2 < block.len2,
    ensures
        first_walk_left(grid, block, i1, i2) matches Some(p) ==> are_turns(
            block,
            turns(block, p, was_down),
            heights(p),
            i1 as int,
            i2 as int,
            was_down,
        ),
    decreases i1 + (block.len2 - i2), 0int,
{
    lemma_heights(grid, block, i1, i2);
    if let Some(p) = first_walk_left(grid, block, i1, i2) {
        let h = heights(p);
        let own = if was_down {
            seq![block.part(0, i1 + 1, 0, i2 + 1)]
        } else {
            Seq::<Rect>::empty()
        };
        let all = turns(block, p, was_down);
        if i1 == 0 {
            reveal_with_fuel(turns, 2);
            reveal_with_fuel(heights, 2);
            assert(p.skip(1).len() == 0);
            assert(h =~= seq![i2 as int]);
            assert(all =~= own);
            assert forall|k: int| 0 <= k < all.len() implies is_turn(
                block,
                #[trigger] all[k],
                h,
                0,
                i2 as int,
                was_down,
            ) by {
                assert(turns_in(h, 0, i2 as int, was_down, 0));
            }
            assert forall|x: int| #[trigger] turns_in(h, 0, i2 as int, was_down, x) implies all.contains(
                corner(block, h, x),
            ) by {
                assert(all[0] == corner(block, h, x));
            }
        } else {
            let rest = first_walk(grid, block, (i1 - 1) as usize, i2)->0;
            assert(p.skip(1) =~= rest);
            let g = heights(rest);
            assert(h == g.push(i2 as int));
            lemma_heights(grid, block, (i1 - 1) as usize, i2);
            lemma_turns(grid, block, (i1 - 1) as usize, i2, false);
            let tail = turns(block, rest, false);
            assert(all == own + tail);
            assert forall|k: int| 0 <= k < all.len() implies is_turn(
                block,
                #[trigger] all[k],
                h,
                i1 as int,
                i2 as int,
                was_down,
            ) by {
                if k < own.len() {
                    assert(turns_in(h, i1 as int, i2 as int, was_down, i1 as int));
                    assert(all[k] == corner(block, h, i1 as int));
                } else {
                    let m = k - own.len();
                    assert(all[k] == tail[m]);
                    assert(is_turn(block, tail[m], g, i1 - 1, i2 as int, false));
                    let x = choose|x: int|
                        #[trigger] turns_in(g, i1 - 1, i2 as int, false, x) && tail[m] == corner(
                            block,
                            g,
                            x,
                        );
                    assert(h[x] == g[x]);
                    assert(turns_in(h, i1 as int, i2 as int, was_down, x));
                }
            }
            assert forall|x: int|
                #[trigger] turns_in(h, i1 as int, i2 as int, was_down, x) implies all.contains(
                corner(block, h, x),
            ) by {
                if x == i1 {
                    assert(all[0] == corner(block, h, x));
                } else {
                    assert(h[x] == g[x]);
                    assert(turns_in(g, i1 - 1, i2 as int, false, x));
                    let m = choose|m: int| 0 <= m < tail.len() && tail[m] == corner(block, g, x);
                    assert(all[own.len() + m] == corner(block, h, x));
                }
            }
        }
    }
}

proof fn lemma_gap_edges(grid: GridView, block: Rect, b1: Rect, b2: Rect)
    requires
        block.fits(),
        are_neighbours(block, b1, b2),
        forall|x: int|
            b1.len1 - 1 <= x < b2.len1 ==> #[trigger] known_at(grid, block, x, b2.len2 - 1),
        forall|y: int|
            b2.len2 - 1 <= y < b1.len2 ==> #[trigger] known_at(grid, block, b1.len1 - 1, y),
    ensures
        edges_known(grid, gap(block, b1, b2)),
{
    let r = gap(block, b1, b2);
    assert forall|i: int| 0 <= i < r.len1 implies #[trigger] grid.known(
        r.origin1 + i,
        r.origin2 as int,
    ) by {
        assert(known_at(grid, block, b1.len1 - 1 + i, b2.len2 - 1));
    }
    assert forall|i: int| 0 <= i < r.len2 implies #[trigger] grid.known(
        r.origin1 as int,
        r.origin2 + i,
    ) by {
        assert(known_at(grid, block, b1.len1 - 1, b2.len2 - 1 + i));
    }
}

/// Where the walk does not turn between two columns, it leaves them in the same
/// row.
proof fn lemma_flat(h: Seq<int>, i1: int, a: int, b: int)
    requires
        h.len() == i1 + 1,
        0 <= a <= b <= i1,
        forall|x: int, z: int| 0 <= x <= z <= i1 ==> #[trigger] h[x] >= #[trigger] h[z],
        forall|x: int| a <= x < b ==> !#[trigger] turns_in(h, i1, 0, false, x),
    ensures
        h[a] == h[b],
    decreases b - a,
{
    if a < b {
        lemma_flat(h, i1, a + 1, b);
        assert(!turns_in(h, i1, 0, false, a));
        assert(h[a] >= h[a + 1]);
    }
}

/// What the blocks of the frontier have to do with the heights of the walk.
spec fn blocks_fit(block: Rect, n: Seq<Rect>, h: Seq<int>) -> bool {
    let i1 = block.len1 - 1;
    &&& is_staircase(n)
    &&& forall|k: int|
        0 <= k < n.len() ==> 1 <= (#[trigger] n[k]).len1 <= block.len1 && turns_in(
            h,
            i1,
            0,
            false,
            n[k].len1 - 1,
        ) && n[k].len2 == h[n[k].len1 - 1] + 1
    &&& forall|x: int| #[trigger] turns_in(h, i1, 0, false, x) ==> has_column(n, x)
}

/// Whether some block ends in column `x`.
spec fn has_column(n: Seq<Rect>, x: int) -> bool {
    exists|k: int| 0 <= k < n.len() && (#[trigger] n[k]).len1 == x + 1
}

proof fn lemma_blocks_fit(grid: GridView, block: Rect, path: Seq<Step>)
    requires
        block.len1 >= 1,
        block.len2 >= 1,
        first_walk(grid, block, (block.len1 - 1) as usize, 0) == Some(path),
    ensures
        heights_fit(grid, block, heights(path), block.len1 - 1, 0),
        blocks_fit(block, normal_form(corner_blocks(block, path)), heights(path)),
{
    let i1 = (block.len1 - 1) as usize;
    let h = heights(path);
    let c = corner_blocks(block, path);
    let n = normal_form(c);
    lemma_heights(grid, block, i1, 0);
    lemma_turns(grid, block, i1, 0, false);
    lemma_corner_blocks(block, path);
    law_normal_form_exists(c);
    assert forall|k: int| 0 <= k < n.len() implies 1 <= (#[trigger] n[k]).len1 <= block.len1
        && turns_in(h, i1 as int, 0, false, n[k].len1 - 1) && n[k].len2 == h[n[k].len1 - 1] + 1 by {
        let i = lemma_first_index(c, n[k]);
        assert(is_turn(block, c[i], h, i1 as int, 0, false));
        let x = choose|x: int|
            #[trigger] turns_in(h, i1 as int, 0, false, x) && c[i] == corner(block, h, x);
        assert(0 <= h[i1 as int] <= h[x] <= h[0]);
        assert(n[k].len1 == x + 1);
    }
    assert forall|x: int| #[trigger] turns_in(h, i1 as int, 0, false, x) implies has_column(
        n,
        x,
    ) by {
        let b = corner(block, h, x);
        let i = choose|i: int| 0 <= i < c.len() && c[i] == b;
        assert(0 <= h[i1 as int] <= h[x] <= h[0]);
        assert(!is_empty(c[i]));
        let k = lemma_cover_index(n, c[i]);
        let z = n[k].len1 - 1;
        assert(z >= x && h[z] >= h[x]);
        if z > x {
            assert(h[x + 1] >= h[z]);
        }
        assert(n[k].len1 == x + 1);
    }
}

proof fn lemma_no_turn_between(block: Rect, n: Seq<Rect>, h: Seq<int>, lo: int, hi: int, x: int)
    requires
        blocks_fit(block, n, h),
        -1 <= lo,
        hi == lo + 1,
        hi <= n.len(),
        lo >= 0 ==> x >= n[lo].len1,
        hi < n.len() ==> x < n[hi].len1 - 1,
    ensures
        !turns_in(h, block.len1 - 1, 0, false, x),
{
    if turns_in(h, block.len1 - 1, 0, false, x) {
        assert(has_column(n, x));
        let k = choose|k: int| 0 <= k < n.len() && (#[trigger] n[k]).len1 == x + 1;
        if lo >= 0 && k <= lo {
            assert(k < lo ==> n[k].len1 < n[lo].len1);
        } else if k >= hi {
            assert(k > hi ==> n[hi].len1 < n[k].len1);
        }
    }
}

proof fn lemma_gap_is_outlined(grid: GridView, block: Rect, n: Seq<Rect>, h: Seq<int>, k: int)
    requires
        is_frontier(block, n),
        edges_known(grid, block),
        heights_fit(grid, block, h, block.len1 - 1, 0),
        blocks_fit(block, n, h),
        0 <= k < boundary(block, n).len() - 1,
    ensures
        edges_known(grid, gap(block, boundary(block, n)[k], boundary(block, n)[k + 1])),
{
    let i1 = block.len1 - 1;
    let edge = boundary(block, n);
    let first = if n.len() == 0 || n[0].len2 < block.len2 {
        1int
    } else {
        0int
    };
    assert(forall|m: int| first <= m < first + n.len() ==> #[trigger] edge[m] == n[m - first]);
    lemma_boundary(block, n, k);
    let b1 = edge[k];
    let b2 = edge[k + 1];
    let lo = k - first;
    let hi = lo + 1;
    assert(lo >= 0 ==> b1 == n[lo]);
    assert(hi < n.len() ==> b2 == n[hi]);
    let x1 = b1.len1 - 1;
    let x2 = b2.len1 - 1;
    assert forall|x: int| 0 <= x < block.len1 implies #[trigger] known_at(grid, block, x, 0) by {
        assert(grid.known(block.origin1 + x, block.origin2 as int));
    }
    assert forall|y: int| 0 <= y < block.len2 implies #[trigger] known_at(grid, block, 0, y) by {
        assert(grid.known(block.origin1 as int, block.origin2 + y));
    }
    // Between the two blocks the walk does not turn.
    assert forall|x: int| (lo >= 0 ==> x > x1) && (hi < n.len() ==> x < x2) implies !#[trigger] turns_in(
        h,
        i1,
        0,
        false,
        x,
    ) by {
        lemma_no_turn_between(block, n, h, lo, hi, x);
    }
    if hi < n.len() {
        let from = if lo >= 0 {
            x1 + 1
        } else {
            0
        };
        if lo >= 0 {
            assert(n[lo].len1 < n[hi].len1);
        }
        assert(b2.len2 - 1 == h[x2]);
        assert(turns_in(h, i1, 0, false, x2));
        assert forall|x: int| from <= x <= x2 implies #[trigger] known_at(grid, block, x, h[x2]) by {
            lemma_flat(h, i1, x, x2);
            if x < i1 {
                assert(h[x] >= h[x + 1]);
            }
        }
        if lo >= 0 {
            lemma_flat(h, i1, x1 + 1, x2);
            assert(b1.len2 - 1 == h[x1]);
            assert(h[x1] >= h[x1 + 1]);
            assert(known_at(grid, block, x1, h[x2]));
        }
        assert forall|x: int| b1.len1 - 1 <= x < b2.len1 implies #[trigger] known_at(
            grid,
            block,
            x,
            b2.len2 - 1,
        ) by {
            assert(known_at(grid, block, x, h[x2]));
        }
        assert forall|y: int| b2.len2 - 1 <= y < b1.len2 implies #[trigger] known_at(
            grid,
            block,
            b1.len1 - 1,
            y,
        ) by {
            if lo >= 0 {
                assert(h[x1 + 1] <= y <= h[x1]);
            }
        }
    } else {
        assert(b2 == block.part(0, block.len1 as int, 0, 1));
        if lo >= 0 {
            assert(x1 < i1);
            lemma_flat(h, i1, x1 + 1, i1);
            assert(!turns_in(h, i1, 0, false, i1));
            assert(b1.len2 - 1 == h[x1]);
        }
        assert forall|y: int| b2.len2 - 1 <= y < b1.len2 implies #[trigger] known_at(
            grid,
            block,
            b1.len1 - 1,
            y,
        ) by {
            if lo >= 0 {
                assert(h[x1 + 1] <= y <= h[x1]);
            }
        }
    }
    lemma_gap_edges(grid, block, b1, b2);
}

/// The frontier that is read off the grid is a frontier over its window, and
/// every region beyond it has known edges, so that merges can go on from there.
pub proof fn law_known_frontier_is_outlined(grid: GridView, block: Rect)
    requires
        block.len1 >= 1,
        block.len2 >= 1,
        block.fits(),
        edges_known(grid, block),
    ensures
        known_frontier(grid, block) matches Ok((top, blocks)) ==> top == block && is_frontier(
            top,
            blocks,
        ) && is_outlined(grid, top, blocks),
{
    if let Some(path) = first_walk(grid, block, (block.len1 - 1) as usize, 0) {
        let h = heights(path);
        let n = normal_form(corner_blocks(block, path));
        lemma_blocks_fit(grid, block, path);
        law_normal_form_exists(corner_blocks(block, path));
        assert(is_frontier(block, n)) by {
            assert forall|k: int| 0 <= k < n.len() implies !is_empty(#[trigger] n[k]) && contains(
                block,
                n[k],
            ) by {
                assert(h[n[k].len1 - 1] <= h[0]);
            }
        }
        assert forall|k: int| 0 <= k < blockers(block, n).len() implies edges_known(
            grid,
            #[trigger] blockers(block, n)[k],
        ) by {
            lemma_gap_is_outlined(grid, block, n, h, k);
        }
    }
}

/// Whether the same cells of `block` may be entered in two grids.
pub open spec fn same_entries(a: GridView, b: GridView, block: Rect) -> bool {
    forall|i1: int, i2: int|
        0 <= i1 < block.len1 && 0 <= i2 < block.len2 ==> #[trigger] may_enter(a, block, i1, i2)
            == may_enter(b, block, i1, i2)
}

proof fn lemma_same_walk(a: GridView, b: GridView, block: Rect, i1: usize, i2: usize)
    requires
        same_entries(a, b, block),
        i1 < block.len1,
    ensures
        first_walk(a, block, i1, i2) == first_walk(b, block, i1, i2),
        first_walk_left(a, block, i1, i2) == first_walk_left(b, block, i1, i2),
    decreases i1 + (block.len2 - i2),
{
    if i2 < block.len2 {
        if i1 > 0 {
            assert(may_enter(a, block, i1 - 1, i2 as int) == may_enter(
                b,
                block,
                i1 - 1,
                i2 as int,
            ));
            lemma_same_walk(a, b, block, (i1 - 1) as usize, i2);
        }
        if i2 + 1 < block.len2 {
            assert(may_enter(a, block, i1 as int, i2 + 1) == may_enter(
                b,
                block,
                i1 as int,
                i2 + 1,
            ));
            lemma_same_walk(a, b, block, i1, (i2 + 1) as usize);
        }
    }
}

/// The frontier that is read off a grid depends on nothing but which cells are
/// known and not blocked.
pub proof fn law_frontier_depends_on_entries(a: GridView, b: GridView, block: Rect)
    requires
        same_entries(a, b, block),
        block.len1 >= 1,
    ensures
        known_frontier(a, block) == known_frontier(b, block),
{
    lemma_same_walk(a, b, block, (block.len1 - 1) as usize, 0);
}

/// The far corner of every block of the frontier is known.
pub proof fn law_frontier_corners_are_known(grid: GridView, block: Rect)
    requires
        block.len1 >= 1,
        block.len2 >= 1,
    ensures
        known_frontier(grid, block) matches Ok((_, blocks)) ==> forall|k: int|
            0 <= k < blocks.len() ==> grid.known(
                block.origin1 + (#[trigger] blocks[k]).len1 - 1,
                block.origin2 + blocks[k].len2 - 1,
            ),
{
    if let Some(path) = first_walk(grid, block, (block.len1 - 1) as usize, 0) {
        let h = heights(path);
        let n = normal_form(corner_blocks(block, path));
        lemma_blocks_fit(grid, block, path);
        assert forall|k: int| 0 <= k < n.len() implies grid.known(
            block.origin1 + (#[trigger] n[k]).len1 - 1,
            block.origin2 + n[k].len2 - 1,
        ) by {
            let x = n[k].len1 - 1;
            assert(turns_in(h, block.len1 - 1, 0, false, x));
            assert(known_at(grid, block, x, h[x]));
        }
    }
}

/// A frontier that is all of its window has every cell of its last row and of its last
/// column.
pub proof fn law_whole_frontier_has_its_edges(grid: GridView, block: Rect)
    requires
        block.len1 >= 1,
        block.len2 >= 1,
    ensures
        known_frontier(grid, block) matches Ok((_, blocks)) ==> is_whole(block, blocks) ==> {
            &&& forall|i: int|
                0 < i < block.len2 ==> #[trigger] grid.known(
                    block.origin1 + (block.len1 - 1),
                    block.origin2 + i,
                )
            &&& forall|i: int|
                0 <= i < block.len1 - 1 ==> #[trigger] grid.known(
                    block.origin1 + i,
                    block.origin2 + (block.len2 - 1),
                )
        },
{
    if let Some(path) = first_walk(grid, block, (block.len1 - 1) as usize, 0) {
        let h = heights(path);
        let n = normal_form(corner_blocks(block, path));
        lemma_blocks_fit(grid, block, path);
        if is_whole(block, n) {
            let last = block.len1 - 1;
            assert(n[0].len1 == block.len1 && n[0].len2 == block.len2);
            assert(h[last] == block.len2 - 1);
            assert forall|i: int| 0 < i < block.len2 implies #[trigger] grid.known(
                block.origin1 + (block.len1 - 1),
                block.origin2 + i,
            ) by {
                assert(known_at(grid, block, last, i));
            }
            assert forall|i: int| 0 <= i < block.len1 - 1 implies #[trigger] grid.known(
                block.origin1 + i,
                block.origin2 + (block.len2 - 1),
            ) by {
                assert(h[i] >= h[i + 1] && h[i + 1] >= h[last] && h[0] >= h[i]);
                assert(known_at(grid, block, i, block.len2 - 1));
            }
        }
    }
}

proof fn lemma_walks_around(grid: GridView, block: Rect, i1: usize, i2: usize)
    requires
        i1 < block.len1,
        i2 < block.len2,
        forall|y: int| i2 < y < block.len2 ==> #[trigger] may_enter(grid, block, i1 as int, y),
        forall|x: int| 0 <= x < i1 ==> #[trigger] may_enter(grid, block, x, block.len2 - 1),
    ensures
        first_walk(grid, block, i1, i2) matches Some(p) && heights(p).len() == i1 + 1 && heights(
            p,
        )[i1 as int] == block.len2 - 1,
    decreases i1 + (block.len2 - i2),
{
    lemma_heights(grid, block, i1, i2);
    if i2 + 1 < block.len2 {
        assert(may_enter(grid, block, i1 as int, i2 + 1));
        lemma_walks_around(grid, block, i1, (i2 + 1) as usize);
        let rest = first_walk(grid, block, i1, (i2 + 1) as usize)->0;
        let p = seq![(i1, i2, true)] + rest;
        assert(p.skip(1) =~= rest);
        assert(p[0].2);
        assert(heights(p) == heights(rest));
    } else if i1 > 0 {
        assert(may_enter(grid, block, i1 - 1, block.len2 - 1));
        lemma_walks_around(grid, block, (i1 - 1) as usize, i2);
        let rest = first_walk(grid, block, (i1 - 1) as usize, i2)->0;
        let p = seq![(i1, i2, false)] + rest;
        assert(p.skip(1) =~= rest);
        assert(!p[0].2);
        assert(heights(p) == heights(rest).push(i2 as int));
    } else {
        let p = seq![(i1, i2, false)];
        assert(p.skip(1) =~= Seq::empty());
        assert(heights(p.skip(1)) =~= Seq::empty());
        assert(heights(p) == heights(p.skip(1)).push(i2 as int));
    }
}

/// Where the last row and the last column are known and nothing in them blocks, the
/// frontier is all of its window.
pub proof fn law_known_edges_make_a_whole_frontier(grid: GridView, block: Rect)
    requires
        block.len1 >= 1,
        block.len2 >= 2,
        block.fits(),
        forall|y: int|
            0 < y < block.len2 ==> #[trigger] may_enter(grid, block, block.len1 - 1, y),
        forall|x: int|
            0 <= x < block.len1 - 1 ==> #[trigger] may_enter(grid, block, x, block.len2 - 1),
    ensures
        known_frontier(grid, block) matches Ok((_, blocks)) && is_whole(block, blocks),
{
    let last = (block.len1 - 1) as usize;
    lemma_walks_around(grid, block, last, 0);
    let path = first_walk(grid, block, last, 0)->0;
    let h = heights(path);
    let n = normal_form(corner_blocks(block, path));
    lemma_blocks_fit(grid, block, path);
    assert(turns_in(h, last as int, 0, false, last as int));
    assert(has_column(n, last as int));
    let k = choose|k: int| 0 <= k < n.len() && (#[trigger] n[k]).len1 == last + 1;
    assert(n[k].len2 == block.len2);
    assert(n.len() == 1) by {
        if n.len() > 1 {
            let j: int = if k == 0 {
                1
            } else {
                0
            };
            assert(n[j].len1 <= block.len1);
            assert(turns_in(h, last as int, 0, false, n[j].len1 - 1));
            assert(h[n[j].len1 - 1] <= h[0]);
            assert(h[n[j].len1 - 1] >= h[last as int]);
            assert(n[j].len2 == block.len2);
        }
    }
}

} // verus!
