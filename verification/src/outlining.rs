//! What is merged for the outline of a block.
//!
//! A block is outlined by merges along its lower and its right edge, which meet in its
//! corner. The laws here say which commits are merged for each of these cells.
use vstd::prelude::*;

use crate::block::{GridView, Rect};
use crate::error::ErrorView;
use crate::fill::{added, auto_message, recorded, CellsView};
use crate::git::OutcomeView;
use crate::history::{
    commit_text, is_commit, law_reparent_changes_only_parents, new_body, reparented,
};
use crate::merging::{law_merge_of_a_cell, lemma_made_stays, made_at, merge_text};
use crate::outcome::answer_at;
use crate::rewriting::{gave, text_of, tree_of};
use crate::talk::{lemma_grows, lemma_learns_nothing, Talk};
use crate::trace::{asks, did, said};

verus! {

broadcast use lemma_grows, lemma_learns_nothing;

/// After `from`, the cell `(a1, a2)` was merged from `first` and `second`; `result` is
/// what came of it.
#[verifier::opaque]
pub open spec fn is_merged(
    t: Talk,
    from: int,
    grid: GridView,
    first: Seq<char>,
    second: Seq<char>,
    a1: int,
    a2: int,
    single: bool,
    result: Seq<char>,
) -> bool {
    exists|k: int|
        from <= k && #[trigger] made_at(
            t,
            k,
            grid,
            first,
            second,
            Some(merge_text(grid.name, a1, a2)),
            a1,
            a2,
            single,
            result,
        )
}

proof fn lemma_merged_stays(
    g: Talk,
    t: Talk,
    from: int,
    earlier: int,
    grid: GridView,
    first: Seq<char>,
    second: Seq<char>,
    a1: int,
    a2: int,
    single: bool,
    result: Seq<char>,
)
    requires
        g.grows_to(t),
        earlier <= from,
        is_merged(g, from, grid, first, second, a1, a2, single, result),
    ensures
        is_merged(t, earlier, grid, first, second, a1, a2, single, result),
{
    reveal(is_merged);
    let msg = Some(merge_text(grid.name, a1, a2));
    let k = choose|k: int|
        from <= k && #[trigger] made_at(
            g,
            k,
            grid,
            first,
            second,
            msg,
            a1,
            a2,
            single,
            result,
        );
    lemma_made_stays(g, t, k, grid, first, second, msg, a1, a2, single, result);
}

/// The merge result for a cell of an outline: the one that is known, or a new one.
proof fn lemma_outline_cell(
    g: Talk,
    grid: GridView,
    rect: Rect,
    n1: usize,
    first: Seq<char>,
    n2: usize,
    second: Seq<char>,
    way: Seq<char>,
    single: bool,
)
    ensures
        ({
            let (t, r) = g.outline_cell(grid, rect, n1, first, n2, second, way, single);
            let a1 = rect.origin1 + n1;
            let a2 = rect.origin2 + n2;
            &&& g.grows_to(t)
            &&& r matches Ok((sha1, new)) ==> {
                &&& new == !grid.known(a1, a2)
                &&& !new ==> sha1 == grid.commit(a1, a2)
                &&& new ==> is_merged(
                    t,
                    g.asked.len() as int,
                    grid,
                    first,
                    second,
                    a1,
                    a2,
                    single,
                    sha1,
                )
            }
        }),
{
    broadcast use crate::replay::goes_on_outline_cell;

    reveal(Talk::outline_cell);
    reveal(is_merged);
    let a1 = rect.origin1 + n1;
    let a2 = rect.origin2 + n2;
    let k = g.asked.len() as int;
    let msg = Some(merge_text(grid.name, a1, a2));
    assert(auto_message(grid.name, a1, a2) =~= merge_text(grid.name, a1, a2));
    let told = g.tell("Autofilling "@ + crate::fill::coordinates(a1, a2) + way);
    law_merge_of_a_cell(told, grid, first, second, msg, a1, a2, single);
    let (h, outcome) = told.merge_cell(grid, first, second, msg, a1, a2, single);
    let (t, r) = g.outline_cell(grid, rect, n1, first, n2, second, way, single);
    if let Ok(OutcomeView::Success(sha1)) = outcome {
        if !grid.known(a1, a2) {
            assert(h.grows_to(t));
            lemma_made_stays(h, t, k, grid, first, second, msg, a1, a2, single, sha1);
        }
    }
}

/// There is an entry for the cell `(n1, n2)` of the window.
#[verifier::opaque]
spec fn has_entry(merges: CellsView, n1: int, n2: int, sha1: Seq<char>) -> bool {
    exists|k: int|
        0 <= k < merges.len() && (#[trigger] merges[k]).0 == n1 && merges[k].1 == n2 && merges[k].2
            == sha1
}

/// There is no entry for the cell `(n1, n2)` of the window.
#[verifier::opaque]
spec fn no_entry(merges: CellsView, n1: int, n2: int) -> bool {
    forall|k: int|
        0 <= k < merges.len() ==> (#[trigger] merges[k]).0 != n1 || merges[k].1 != n2
}

/// Every entry is for a cell of the window that has no merge result yet, and no cell
/// has two.
#[verifier::opaque]
spec fn is_orderly(grid: GridView, rect: Rect, merges: CellsView) -> bool {
    &&& forall|k: int|
        0 <= k < merges.len() ==> (#[trigger] merges[k]).0 < rect.len1 && merges[k].1 < rect.len2
            && !grid.known(rect.origin1 + merges[k].0, rect.origin2 + merges[k].1)
    &&& forall|k: int, l: int|
        0 <= k < l < merges.len() ==> (#[trigger] merges[k]).0 != (#[trigger] merges[l]).0
            || merges[k].1 != merges[l].1
}

proof fn lemma_recorded_exactly(grid: GridView, rect: Rect, merges: CellsView)
    requires
        grid.wf(),
        grid.sound(),
        rect.within(grid),
        is_orderly(grid, rect, merges),
    ensures
        ({
            let later = recorded(grid, rect, merges);
            &&& later.wf()
            &&& forall|b1: int, b2: int|
                grid.has(b1, b2) && no_entry(merges, b1 - rect.origin1, b2 - rect.origin2)
                    ==> #[trigger] later.cell(b1, b2) == grid.cell(b1, b2)
            &&& forall|n1: int, n2: int, sha1: Seq<char>| #[trigger]
                has_entry(merges, n1, n2, sha1) ==> later.cell(
                    rect.origin1 + n1,
                    rect.origin2 + n2,
                ).sha1 == Some(sha1)
        }),
    decreases merges.len(),
{
    reveal(has_entry);
    reveal(no_entry);
    reveal(is_orderly);
    if merges.len() > 0 {
        let front = merges.drop_last();
        let (m1, m2, s) = merges.last();
        let a1 = rect.origin1 + m1;
        let a2 = rect.origin2 + m2;
        assert(merges[merges.len() - 1] == merges.last());
        assert forall|k: int| 0 <= k < front.len() implies merges[k] == #[trigger] front[k] by {}
        assert(is_orderly(grid, rect, front));
        lemma_recorded_exactly(grid, rect, front);
        let before = recorded(grid, rect, front);
        let later = recorded(grid, rect, merges);
        assert(before.len1 == grid.len1 && before.len2 == grid.len2) by {
            lemma_shape(grid, rect, front);
        }
        assert(no_entry(front, m1 as int, m2 as int)) by {
            assert forall|k: int| 0 <= k < front.len() implies (#[trigger] front[k]).0 != m1
                || front[k].1 != m2 by {
                assert(merges[k].0 != merges[merges.len() - 1].0 || merges[k].1
                    != merges[merges.len() - 1].1);
            }
        }
        assert(before.cell(a1, a2) == grid.cell(a1, a2));
        let r = grid.cell(a1, a2);
        assert(r.consistent());
        let f = r.flags;
        assert(f & 0x0f == 0 ==> f & 0x0c == 0) by (bit_vector);
        assert(before.cells[a1].len() == before.len2);
        assert(later.cell(a1, a2).sha1 == Some(s));
        assert forall|b1: int, b2: int|
            grid.has(b1, b2) && (b1 != a1 || b2 != a2) implies #[trigger] later.cell(b1, b2)
            == before.cell(b1, b2) by {
            assert(before.cells[b1].len() == before.len2);
        }
        assert forall|b1: int, b2: int|
            grid.has(b1, b2) && no_entry(
                merges,
                b1 - rect.origin1,
                b2 - rect.origin2,
            ) implies #[trigger] later.cell(b1, b2) == grid.cell(b1, b2) by {
            assert(no_entry(front, b1 - rect.origin1, b2 - rect.origin2));
            assert(before.cell(b1, b2) == grid.cell(b1, b2));
            assert(b1 != a1 || b2 != a2) by {
                let k = merges.len() - 1;
                assert(merges[k].0 != b1 - rect.origin1 || merges[k].1 != b2 - rect.origin2);
            }
        }
        assert forall|n1: int, n2: int, sha1: Seq<char>| #[trigger]
            has_entry(merges, n1, n2, sha1) implies later.cell(
            rect.origin1 + n1,
            rect.origin2 + n2,
        ).sha1 == Some(sha1) by {
            let k = choose|k: int|
                0 <= k < merges.len() && (#[trigger] merges[k]).0 == n1 && merges[k].1 == n2
                    && merges[k].2 == sha1;
            if k < front.len() {
                assert(front[k] == merges[k]);
                assert(has_entry(front, n1, n2, sha1));
                assert(merges[k].0 != merges[merges.len() - 1].0 || merges[k].1
                    != merges[merges.len() - 1].1);
                assert(grid.has(rect.origin1 + n1, rect.origin2 + n2));
                assert(later.cell(rect.origin1 + n1, rect.origin2 + n2) == before.cell(
                    rect.origin1 + n1,
                    rect.origin2 + n2,
                ));
            }
        }
    }
}

proof fn lemma_shape(grid: GridView, rect: Rect, merges: CellsView)
    ensures
        recorded(grid, rect, merges).len1 == grid.len1,
        recorded(grid, rect, merges).len2 == grid.len2,
    decreases merges.len(),
{
    if merges.len() > 0 {
        lemma_shape(grid, rect, merges.drop_last());
    }
}

/// One more entry keeps a list orderly.
proof fn lemma_added(
    grid: GridView,
    rect: Rect,
    merges: CellsView,
    n1: usize,
    n2: usize,
    sha1: Seq<char>,
    new: bool,
)
    requires
        n1 < rect.len1,
        n2 < rect.len2,
        is_orderly(grid, rect, merges),
        no_entry(merges, n1 as int, n2 as int),
        new ==> !grid.known(rect.origin1 + n1, rect.origin2 + n2),
    ensures
        is_orderly(grid, rect, added(merges, n1, n2, sha1, new)),
        new ==> has_entry(added(merges, n1, n2, sha1, new), n1 as int, n2 as int, sha1),
        forall|x: int, y: int, s: Seq<char>|
            has_entry(merges, x, y, s) ==> #[trigger] has_entry(
                added(merges, n1, n2, sha1, new),
                x,
                y,
                s,
            ),
        forall|x: int, y: int|
            no_entry(merges, x, y) && (x != n1 || y != n2) ==> #[trigger] no_entry(
                added(merges, n1, n2, sha1, new),
                x,
                y,
            ),
{
    reveal(has_entry);
    reveal(no_entry);
    reveal(is_orderly);
    let more = added(merges, n1, n2, sha1, new);
    assert forall|k: int| 0 <= k < merges.len() implies more[k] == #[trigger] merges[k] by {}
    if new {
        assert(more[merges.len() as int] == (n1, n2, sha1));
    }
    assert forall|x: int, y: int, s: Seq<char>| has_entry(merges, x, y, s) implies #[trigger]
    has_entry(more, x, y, s) by {
        let k = choose|k: int|
            0 <= k < merges.len() && (#[trigger] merges[k]).0 == x && merges[k].1 == y
                && merges[k].2 == s;
        assert(more[k] == merges[k]);
    }
    assert forall|x: int, y: int|
        no_entry(merges, x, y) && (x != n1 || y != n2) implies #[trigger] no_entry(more, x, y) by {
        assert forall|k: int| 0 <= k < more.len() implies (#[trigger] more[k]).0 != x || more[k].1
            != y by {
            if k < merges.len() {
                assert(more[k] == merges[k]);
            }
        }
    }
    assert(is_orderly(grid, rect, more)) by {
        assert forall|k: int| 0 <= k < more.len() implies (#[trigger] more[k]).0 < rect.len1
            && more[k].1 < rect.len2 && !grid.known(
            rect.origin1 + more[k].0,
            rect.origin2 + more[k].1,
        ) by {
            if k < merges.len() {
                assert(more[k] == merges[k]);
            }
        }
        assert forall|k: int, l: int| 0 <= k < l < more.len() implies (#[trigger] more[k]).0 != (
        #[trigger] more[l]).0 || more[k].1 != more[l].1 by {
            assert(more[k] == merges[k]);
            if l < merges.len() {
                assert(more[l] == merges[l]);
            }
        }
    }
}

/// The merge result before place `i`, or the one that they all start from.
pub open spec fn prior(start: Seq<char>, vals: Seq<Seq<char>>, i: int) -> Seq<char> {
    if i == 0 {
        start
    } else {
        vals[i - 1]
    }
}

/// What is known of one cell on the lower edge.
#[verifier::opaque]
spec fn is_on_lower(
    t: Talk,
    from: int,
    grid: GridView,
    rect: Rect,
    n1: int,
    merges: CellsView,
    before: Seq<char>,
    value: Seq<char>,
) -> bool {
    let a1 = rect.origin1 + n1;
    let a2 = rect.origin2 + rect.len2 - 1;
    if grid.known(a1, a2) {
        value == grid.commit(a1, a2)
    } else {
        &&& has_entry(merges, n1, rect.len2 - 1, value)
        &&& is_merged(
            t,
            from,
            grid,
            grid.commit(a1, rect.origin2 as int),
            before,
            a1,
            a2,
            rect.len2 == 2,
            value,
        )
    }
}

proof fn lemma_lower_stays(
    t: Talk,
    from: int,
    earlier: int,
    grid: GridView,
    rect: Rect,
    n: int,
    merges: CellsView,
    before: Seq<char>,
    value: Seq<char>,
)
    requires
        t.grows_to(t),
        earlier <= from,
        is_on_lower(t, from, grid, rect, n, merges, before, value),
    ensures
        is_on_lower(t, earlier, grid, rect, n, merges, before, value),
{
    reveal(is_on_lower);
    let a1 = rect.origin1 + n;
    let a2 = rect.origin2 + rect.len2 - 1;
    if !grid.known(a1, a2) {
        lemma_merged_stays(
            t,
            t,
            from,
            earlier,
            grid,
            grid.commit(a1, rect.origin2 as int),
            before,
            a1,
            a2,
            rect.len2 == 2,
            value,
        );
    }
}

proof fn lemma_lower(
    g: Talk,
    grid: GridView,
    rect: Rect,
    n1: usize,
    left: Seq<char>,
    merges: CellsView,
) -> (vals: Seq<Seq<char>>)
    requires
        rect.len1 >= 2,
        rect.len2 >= 2,
        1 <= n1,
        n1 < rect.len1,
        is_orderly(grid, rect, merges),
        forall|x: int| n1 <= x < rect.len1 - 1 ==> #[trigger] no_entry(merges, x, rect.len2 - 1),
    ensures
        g.grows_to(g.outline_lower(grid, rect, n1, left, merges).0),
        g.outline_lower(grid, rect, n1, left, merges) matches (t, Ok((end, later))) ==> {
            &&& vals.len() == rect.len1 - 1 - n1
            &&& is_orderly(grid, rect, later)
            &&& forall|x: int, y: int, s: Seq<char>|
                has_entry(merges, x, y, s) ==> #[trigger] has_entry(later, x, y, s)
            &&& forall|x: int, y: int|
                no_entry(merges, x, y) && !(y == rect.len2 - 1 && n1 <= x < rect.len1 - 1) ==> #[trigger] no_entry(
                    later,
                    x,
                    y,
                )
            &&& forall|i: int|
                0 <= i < vals.len() ==> is_on_lower(
                    t,
                    g.asked.len() as int,
                    grid,
                    rect,
                    n1 + i,
                    later,
                    #[trigger] prior(left, vals, i),
                    vals[i],
                )
            &&& end == if vals.len() > 0 {
                vals.last()
            } else {
                left
            }
        },
    decreases rect.len1 - n1,
{
    let from = g.asked.len() as int;
    if n1 + 1 >= rect.len1 {
        Seq::empty()
    } else {
        let n2 = (rect.len2 - 1) as usize;
        let a1 = rect.origin1 + n1;
        let a2 = rect.origin2 + n2;
        let first = grid.commit(a1, rect.origin2 as int);
        let second = left;
        let single = n2 == 1;
        lemma_outline_cell(g, grid, rect, n1, first, n2, second, "..."@, single);
        let (h, step) = g.outline_cell(grid, rect, n1, first, n2, second, "..."@, single);
        if let Ok((sha1, new)) = step {
            let more = added(merges, n1, n2, sha1, new);
            assert(no_entry(merges, n1 as int, n2 as int));
            lemma_added(grid, rect, merges, n1, n2, sha1, new);
            assert forall|x: int| n1 + 1 <= x < rect.len1 - 1 implies #[trigger] no_entry(
                more,
                x, rect.len2 - 1,
            ) by {
                assert(no_entry(merges, x, rect.len2 - 1));
            }
            let rest = lemma_lower(h, grid, rect, (n1 + 1) as usize, sha1, more);
            let vals = seq![sha1] + rest;
            if let (t, Ok((end, later))) = h.outline_lower(grid, rect, (n1 + 1) as usize, sha1, more) {
                assert(g.outline_lower(grid, rect, n1, left, merges) == (
                    t,
                    Ok::<(Seq<char>, CellsView), ErrorView>((end, later)),
                ));
                assert forall|x: int, y: int, s: Seq<char>|
                    has_entry(merges, x, y, s) implies #[trigger] has_entry(later, x, y, s) by {
                    assert(has_entry(more, x, y, s));
                }
                assert forall|x: int, y: int|
                    no_entry(merges, x, y) && !(y == rect.len2 - 1 && n1 <= x < rect.len1 - 1) implies #[trigger] no_entry(
                    later,
                    x,
                    y,
                ) by {
                    assert(no_entry(more, x, y));
                }
                assert forall|i: int| 0 <= i < vals.len() implies is_on_lower(
                    t,
                    from,
                    grid,
                    rect,
                    n1 + i,
                    later,
                    #[trigger] prior(left, vals, i),
                    vals[i],
                ) by {
                    if i == 0 {
                        reveal(is_on_lower);
                        if new {
                            assert(has_entry(more, n1 as int, n2 as int, sha1));
                            assert(has_entry(later, n1 as int, n2 as int, sha1));
                            lemma_merged_stays(h, t, from, from, grid, first, second, a1, a2, single, sha1);
                        }
                    } else {
                        assert(vals[i] == rest[i - 1]);
                        let before = if i == 1 {
                            sha1
                        } else {
                            rest[i - 2]
                        };
                        assert(before == prior(sha1, rest, i - 1));
                        assert(before == prior(left, vals, i));
                        assert(is_on_lower(
                            t,
                            h.asked.len() as int,
                            grid,
                            rect,
                            n1 + 1 + (i - 1),
                            later,
                            before,
                            rest[i - 1],
                        ));
                        lemma_lower_stays(
                            t,
                            h.asked.len() as int,
                            from,
                            grid,
                            rect,
                            n1 + i,
                            later,
                            before,
                            rest[i - 1],
                        );
                    }
                }
                if rest.len() > 0 {
                    assert(vals.last() == rest.last());
                }
            }
            vals
        } else {
            Seq::empty()
        }
    }
}

/// What is known of one cell on the right edge.
#[verifier::opaque]
spec fn is_on_right(
    t: Talk,
    from: int,
    grid: GridView,
    rect: Rect,
    n2: int,
    merges: CellsView,
    before: Seq<char>,
    value: Seq<char>,
) -> bool {
    let a1 = rect.origin1 + rect.len1 - 1;
    let a2 = rect.origin2 + n2;
    if grid.known(a1, a2) {
        value == grid.commit(a1, a2)
    } else {
        &&& has_entry(merges, rect.len1 - 1, n2, value)
        &&& is_merged(
            t,
            from,
            grid,
            before,
            grid.commit(rect.origin1 as int, a2),
            a1,
            a2,
            rect.len1 == 2,
            value,
        )
    }
}

proof fn lemma_right_stays(
    t: Talk,
    from: int,
    earlier: int,
    grid: GridView,
    rect: Rect,
    n: int,
    merges: CellsView,
    before: Seq<char>,
    value: Seq<char>,
)
    requires
        t.grows_to(t),
        earlier <= from,
        is_on_right(t, from, grid, rect, n, merges, before, value),
    ensures
        is_on_right(t, earlier, grid, rect, n, merges, before, value),
{
    reveal(is_on_right);
    let a1 = rect.origin1 + rect.len1 - 1;
    let a2 = rect.origin2 + n;
    if !grid.known(a1, a2) {
        lemma_merged_stays(
            t,
            t,
            from,
            earlier,
            grid,
            before,
            grid.commit(rect.origin1 as int, a2),
            a1,
            a2,
            rect.len1 == 2,
            value,
        );
    }
}

proof fn lemma_right(
    g: Talk,
    grid: GridView,
    rect: Rect,
    n2: usize,
    above: Seq<char>,
    merges: CellsView,
) -> (vals: Seq<Seq<char>>)
    requires
        rect.len1 >= 2,
        rect.len2 >= 2,
        1 <= n2,
        n2 < rect.len2,
        is_orderly(grid, rect, merges),
        forall|x: int| n2 <= x < rect.len2 - 1 ==> #[trigger] no_entry(merges, rect.len1 - 1, x),
    ensures
        g.grows_to(g.outline_right(grid, rect, n2, above, merges).0),
        g.outline_right(grid, rect, n2, above, merges) matches (t, Ok((end, later))) ==> {
            &&& vals.len() == rect.len2 - 1 - n2
            &&& is_orderly(grid, rect, later)
            &&& forall|x: int, y: int, s: Seq<char>|
                has_entry(merges, x, y, s) ==> #[trigger] has_entry(later, x, y, s)
            &&& forall|x: int, y: int|
                no_entry(merges, x, y) && !(x == rect.len1 - 1 && n2 <= y < rect.len2 - 1) ==> #[trigger] no_entry(
                    later,
                    x,
                    y,
                )
            &&& forall|i: int|
                0 <= i < vals.len() ==> is_on_right(
                    t,
                    g.asked.len() as int,
                    grid,
                    rect,
                    n2 + i,
                    later,
                    #[trigger] prior(above, vals, i),
                    vals[i],
                )
            &&& end == if vals.len() > 0 {
                vals.last()
            } else {
                above
            }
        },
    decreases rect.len2 - n2,
{
    let from = g.asked.len() as int;
    if n2 + 1 >= rect.len2 {
        Seq::empty()
    } else {
        let n1 = (rect.len1 - 1) as usize;
        let a1 = rect.origin1 + n1;
        let a2 = rect.origin2 + n2;
        let first = above;
        let second = grid.commit(rect.origin1 as int, a2);
        let single = n1 == 1;
        lemma_outline_cell(g, grid, rect, n1, first, n2, second, "..."@, single);
        let (h, step) = g.outline_cell(grid, rect, n1, first, n2, second, "..."@, single);
        if let Ok((sha1, new)) = step {
            let more = added(merges, n1, n2, sha1, new);
            assert(no_entry(merges, n1 as int, n2 as int));
            lemma_added(grid, rect, merges, n1, n2, sha1, new);
            assert forall|x: int| n2 + 1 <= x < rect.len2 - 1 implies #[trigger] no_entry(
                more,
                rect.len1 - 1, x,
            ) by {
                assert(no_entry(merges, rect.len1 - 1, x));
            }
            let rest = lemma_right(h, grid, rect, (n2 + 1) as usize, sha1, more);
            let vals = seq![sha1] + rest;
            if let (t, Ok((end, later))) = h.outline_right(grid, rect, (n2 + 1) as usize, sha1, more) {
                assert(g.outline_right(grid, rect, n2, above, merges) == (
                    t,
                    Ok::<(Seq<char>, CellsView), ErrorView>((end, later)),
                ));
                assert forall|x: int, y: int, s: Seq<char>|
                    has_entry(merges, x, y, s) implies #[trigger] has_entry(later, x, y, s) by {
                    assert(has_entry(more, x, y, s));
                }
                assert forall|x: int, y: int|
                    no_entry(merges, x, y) && !(x == rect.len1 - 1 && n2 <= y < rect.len2 - 1) implies #[trigger] no_entry(
                    later,
                    x,
                    y,
                ) by {
                    assert(no_entry(more, x, y));
                }
                assert forall|i: int| 0 <= i < vals.len() implies is_on_right(
                    t,
                    from,
                    grid,
                    rect,
                    n2 + i,
                    later,
                    #[trigger] prior(above, vals, i),
                    vals[i],
                ) by {
                    if i == 0 {
                        reveal(is_on_right);
                        if new {
                            assert(has_entry(more, n1 as int, n2 as int, sha1));
                            assert(has_entry(later, n1 as int, n2 as int, sha1));
                            lemma_merged_stays(h, t, from, from, grid, first, second, a1, a2, single, sha1);
                        }
                    } else {
                        assert(vals[i] == rest[i - 1]);
                        let before = if i == 1 {
                            sha1
                        } else {
                            rest[i - 2]
                        };
                        assert(before == prior(sha1, rest, i - 1));
                        assert(before == prior(above, vals, i));
                        assert(is_on_right(
                            t,
                            h.asked.len() as int,
                            grid,
                            rect,
                            n2 + 1 + (i - 1),
                            later,
                            before,
                            rest[i - 1],
                        ));
                        lemma_right_stays(
                            t,
                            h.asked.len() as int,
                            from,
                            grid,
                            rect,
                            n2 + i,
                            later,
                            before,
                            rest[i - 1],
                        );
                    }
                }
                if rest.len() > 0 {
                    assert(vals.last() == rest.last());
                }
            }
            vals
        } else {
            Seq::empty()
        }
    }
}

/// The command that writes a commit.
pub open spec fn write_commit() -> Seq<Seq<char>> {
    seq!["hash-object"@, "-t"@, "commit"@, "-w"@, "--stdin"@]
}

/// From `k` on, `commit` was read and written once more with these parents; the new
/// commit is `result`. Tree, author, message and all else are those of `commit`.
pub open spec fn reparented_at(
    t: Talk,
    k: int,
    commit: Seq<char>,
    parents: Seq<Seq<char>>,
    result: Seq<char>,
) -> bool {
    &&& did(t, k, text_of(commit))
    &&& exists|text: Seq<char>|
        {
            &&& asks(t, k + 1, write_commit(), Some(text), None, false)
            &&& #[trigger] has_parents_instead(said(t, k), text, parents)
        }
    &&& gave(t, k + 1, result)
}

/// `text` is the text of the commit in `orig`, but with these parents.
pub open spec fn has_parents_instead(
    orig: Seq<char>,
    text: Seq<char>,
    parents: Seq<Seq<char>>,
) -> bool {
    forall|tree: Seq<char>, present: Seq<Seq<char>>, others: Seq<Seq<char>>, body: Seq<char>|
        is_commit(tree, present, others) && orig == #[trigger] commit_text(
            tree,
            present,
            others,
            body,
        ) ==> text == commit_text(tree, parents, others, body)
}

pub(crate) proof fn lemma_reparented(g: Talk, commit: Seq<char>, parents: Seq<Seq<char>>)
    ensures
        g.reparent(commit, parents, None) matches (t, Ok(result)) ==> {
            &&& g.grows_to(t)
            &&& t.asked.len() == g.asked.len() + 2
            &&& reparented_at(t, g.asked.len() as int, commit, parents, result)
        },
{
    let k = g.asked.len() as int;
    if let (t, Ok(result)) = g.reparent(commit, parents, None) {
        let orig = said(t, k);
        let text = reparented(orig, parents, None)->0;
        assert(asks(t, k + 1, write_commit(), Some(text), None, false));
        assert forall|
            tree: Seq<char>,
            present: Seq<Seq<char>>,
            others: Seq<Seq<char>>,
            body: Seq<char>,
        |
            is_commit(tree, present, others) && orig == #[trigger] commit_text(
                tree,
                present,
                others,
                body,
            ) implies text == commit_text(tree, parents, others, body) by {
            law_reparent_changes_only_parents(tree, present, others, body, parents, None);
            assert(new_body(body, None) == body);
        }
        assert(has_parents_instead(orig, text, parents));
    }
}

/// The corner was merged in both ways, which gave the same tree; the result is the
/// first of these merges, with the two neighbours of the corner as its parents.
#[verifier::opaque]
pub open spec fn is_corner(
    t: Talk,
    from: int,
    grid: GridView,
    rect: Rect,
    above: Seq<char>,
    left: Seq<char>,
    result: Seq<char>,
) -> bool {
    let a1 = rect.origin1 + rect.len1 - 1;
    let a2 = rect.origin2 + rect.len2 - 1;
    exists|v1: Seq<char>, v2: Seq<char>, k: int|
        {
            &&& is_merged(
                t,
                from,
                grid,
                grid.commit(a1, rect.origin2 as int),
                left,
                a1,
                a2,
                false,
                v1,
            )
            &&& is_merged(
                t,
                from,
                grid,
                above,
                grid.commit(rect.origin1 as int, a2),
                a1,
                a2,
                false,
                v2,
            )
            &&& #[trigger] did(t, k, tree_of(v1))
            &&& #[trigger] did(t, k + 1, tree_of(v2))
            &&& answer_at(t, k) == answer_at(t, k + 1)
            &&& reparented_at(t, k + 2, v1, seq![above, left], result)
        }
}

proof fn lemma_vertex(g: Talk, grid: GridView, rect: Rect, above: Seq<char>, left: Seq<char>)
    requires
        rect.len1 >= 2,
        rect.len2 >= 2,
        !grid.known(rect.origin1 + rect.len1 - 1, rect.origin2 + rect.len2 - 1),
    ensures
        g.outline_vertex(grid, rect, above, left) matches (t, Ok(result)) ==> {
            &&& g.grows_to(t)
            &&& is_corner(t, g.asked.len() as int, grid, rect, above, left, result)
        },
{
    reveal(Talk::outline_vertex);
    reveal(is_corner);
    let from = g.asked.len() as int;
    let n1 = (rect.len1 - 1) as usize;
    let n2 = (rect.len2 - 1) as usize;
    let a1 = rect.origin1 + n1;
    let a2 = rect.origin2 + n2;
    let c1 = grid.commit(a1, rect.origin2 as int);
    let c2 = grid.commit(rect.origin1 as int, a2);
    lemma_outline_cell(g, grid, rect, n1, c1, n2, left, " (first way)..."@, false);
    let (g1, r1) = g.outline_cell(grid, rect, n1, c1, n2, left, " (first way)..."@, false);
    if let Ok((v1, _)) = r1 {
        lemma_outline_cell(g1, grid, rect, n1, above, n2, c2, " (second way)..."@, false);
        let (g2, r2) = g1.outline_cell(grid, rect, n1, above, n2, c2, " (second way)..."@, false);
        if let Ok((v2, _)) = r2 {
            let k = g2.asked.len() as int;
            let (g3, r3) = g2.get_tree(v1);
            let (g4, r4) = g3.get_tree(v2);
            if r3 is Ok && r4 is Ok && r3 == r4 {
                let told = g4.note(
                    "The two ways of autofilling "@ + crate::fill::coordinates(a1, a2) + " agree."@,
                );
                lemma_reparented(told, v1, seq![above, left]);
                let (t, r5) = told.reparent(v1, seq![above, left], None);
                if r5 is Ok {
                    assert(g2.grows_to(g3) && g3.grows_to(g4) && g4.grows_to(told) && told.grows_to(
                        t,
                    ));
                    lemma_merged_stays(g1, t, from, from, grid, c1, left, a1, a2, false, v1);
                    lemma_merged_stays(
                        g2,
                        t,
                        g1.asked.len() as int,
                        from,
                        grid,
                        above,
                        c2,
                        a1,
                        a2,
                        false,
                        v2,
                    );
                    assert(did(g3, k, tree_of(v1)));
                    assert(did(g4, k + 1, tree_of(v2)));
                    assert(did(t, k, tree_of(v1)));
                    assert(did(t, k + 1, tree_of(v2)));
                }
            }
        }
    }
}

/// A new merge result on the lower edge comes from the commit of the first branch and
/// the merge result before it.
pub open spec fn is_lower_cell(
    t: Talk,
    from: int,
    grid: GridView,
    later: GridView,
    rect: Rect,
    a1: int,
) -> bool {
    let last1 = rect.origin1 + rect.len1 - 1;
    let last2 = rect.origin2 + rect.len2 - 1;
    rect.origin1 < a1 < last1 && !grid.known(a1, last2) ==> later.known(a1, last2) && is_merged(
        t,
        from,
        grid,
        grid.commit(a1, rect.origin2 as int),
        later.commit(a1 - 1, last2),
        a1,
        last2,
        rect.len2 == 2,
        later.commit(a1, last2),
    )
}

/// A new merge result on the right edge comes from the merge result before it and the
/// commit of the second branch.
pub open spec fn is_right_cell(
    t: Talk,
    from: int,
    grid: GridView,
    later: GridView,
    rect: Rect,
    a2: int,
) -> bool {
    let last1 = rect.origin1 + rect.len1 - 1;
    let last2 = rect.origin2 + rect.len2 - 1;
    rect.origin2 < a2 < last2 && !grid.known(last1, a2) ==> later.known(last1, a2) && is_merged(
        t,
        from,
        grid,
        later.commit(last1, a2 - 1),
        grid.commit(rect.origin1 as int, a2),
        last1,
        a2,
        rect.len1 == 2,
        later.commit(last1, a2),
    )
}

/// How the cells of an outline came about, from the grid before and after.
pub open spec fn is_outline(
    t: Talk,
    from: int,
    grid: GridView,
    later: GridView,
    rect: Rect,
) -> bool {
    let o1 = rect.origin1 as int;
    let o2 = rect.origin2 as int;
    let last1 = o1 + rect.len1 - 1;
    let last2 = o2 + rect.len2 - 1;
    &&& forall|a1: int| #[trigger] is_lower_cell(t, from, grid, later, rect, a1)
    &&& forall|a2: int| #[trigger] is_right_cell(t, from, grid, later, rect, a2)
    &&& !grid.known(last1, last2) ==> {
        let above = later.commit(last1, last2 - 1);
        let left = later.commit(last1 - 1, last2);
        &&& later.known(last1, last2)
        &&& if rect.len1 > 2 && rect.len2 > 2 {
            is_corner(t, from, grid, rect, above, left, later.commit(last1, last2))
        } else {
            is_merged(
                t,
                from,
                grid,
                above,
                left,
                last1,
                last2,
                true,
                later.commit(last1, last2),
            )
        }
    }
    &&& forall|a1: int, a2: int|
        grid.has(a1, a2) && (a1 != last1 || a2 != last2) && (grid.known(a1, a2) || !(a2 == last2
            && o1 < a1 < last1 || a1 == last1 && o2 < a2 < last2)) ==> #[trigger] later.cell(a1, a2)
            == grid.cell(a1, a2)
}

proof fn lemma_lower_edge(
    g: Talk,
    t: Talk,
    from: int,
    earlier: int,
    grid: GridView,
    mid: GridView,
    rect: Rect,
    vals: Seq<Seq<char>>,
    merges: CellsView,
    all: CellsView,
)
    requires
        g.grows_to(t),
        earlier <= from,
        rect.within(grid),
        rect.len1 >= 2,
        rect.len2 >= 2,
        vals.len() == rect.len1 - 2,
        ({
            let o1 = rect.origin1 as int;
            let o2 = rect.origin2 as int;
            let last1 = o1 + rect.len1 - 1;
            let last2 = o2 + rect.len2 - 1;
            &&& forall|i: int|
                0 <= i < vals.len() ==> is_on_lower(
                    g,
                    from,
                    grid,
                    rect,
                    1 + i,
                    merges,
                    #[trigger] prior(grid.commit(o1, last2), vals, i),
                    vals[i],
                )
            &&& mid.cell(o1, last2) == grid.cell(o1, last2)
            &&& forall|a: int|
                o1 < a < o1 + rect.len1 - 1 && grid.known(a, last2) ==> #[trigger] mid.cell(a, last2)
                    == grid.cell(a, last2)
        }),
        forall|x: int, y: int, s: Seq<char>|
            has_entry(merges, x, y, s) ==> #[trigger] has_entry(all, x, y, s),
        forall|x: int, y: int, s: Seq<char>| #[trigger]
            has_entry(all, x, y, s) ==> mid.cell(rect.origin1 + x, rect.origin2 + y).sha1 == Some(s),
    ensures
        ({
            let o1 = rect.origin1 as int;
            let o2 = rect.origin2 as int;
            let last1 = o1 + rect.len1 - 1;
            let last2 = o2 + rect.len2 - 1;
            &&& prior(grid.commit(o1, last2), vals, rect.len1 - 2) == mid.commit(o1 + rect.len1 - 2, last2)
            &&& forall|a: int| #[trigger] is_lower_cell(t, earlier, grid, mid, rect, a)
        }),
{
    reveal(is_on_lower);
    let o1 = rect.origin1 as int;
    let o2 = rect.origin2 as int;
    let last1 = o1 + rect.len1 - 1;
    let last2 = o2 + rect.len2 - 1;
    let start = grid.commit(o1, last2);
    assert forall|i: int| 0 <= i < vals.len() implies #[trigger] vals[i] == mid.commit(o1 + 1 + i, last2) by {
        let before = prior(start, vals, i);
        let a = o1 + 1 + i;
        assert(is_on_lower(g, from, grid, rect, 1 + i, merges, before, vals[i]));
        if !grid.known(a, last2) {
            assert(has_entry(merges, 1 + i, rect.len2 - 1, vals[i]));
            assert(has_entry(all, 1 + i, rect.len2 - 1, vals[i]));
            assert(mid.cell(rect.origin1 + (1 + i), rect.origin2 + (rect.len2 - 1)).sha1 == Some(vals[i]));
        } else {
            assert(mid.cell(a, last2) == grid.cell(a, last2));
        }
    }
    assert forall|i: int| 0 <= i <= vals.len() implies #[trigger] prior(start, vals, i) == mid.commit(o1 + i, last2) by {
        if i > 0 {
            assert(vals[i - 1] == mid.commit(o1 + 1 + (i - 1), last2));
        }
    }
    assert(prior(start, vals, vals.len() as int) == mid.commit(o1 + rect.len1 - 2, last2));
    assert forall|a: int| #[trigger] is_lower_cell(t, earlier, grid, mid, rect, a) by {
        if o1 < a < o1 + rect.len1 - 1 && !grid.known(a, last2) {
            let i = a - o1 - 1;
            let before = prior(start, vals, i);
            assert(before == mid.commit(a - 1, last2));
            assert(vals[i] == mid.commit(a, last2));
            assert(is_on_lower(g, from, grid, rect, 1 + i, merges, before, vals[i]));
            assert(has_entry(merges, 1 + i, rect.len2 - 1, vals[i]));
            assert(has_entry(all, 1 + i, rect.len2 - 1, vals[i]));
            assert(mid.cell(rect.origin1 + (1 + i), rect.origin2 + (rect.len2 - 1)).sha1 == Some(vals[i]));
            lemma_merged_stays(
                g,
                t,
                from,
                earlier,
                grid,
                grid.commit(a, o2),
                before,
                a,
                last2,
                rect.len2 == 2,
                vals[i],
            );
        }
    }
}

proof fn lemma_right_edge(
    g: Talk,
    t: Talk,
    from: int,
    earlier: int,
    grid: GridView,
    mid: GridView,
    rect: Rect,
    vals: Seq<Seq<char>>,
    merges: CellsView,
    all: CellsView,
)
    requires
        g.grows_to(t),
        earlier <= from,
        rect.within(grid),
        rect.len1 >= 2,
        rect.len2 >= 2,
        vals.len() == rect.len2 - 2,
        ({
            let o1 = rect.origin1 as int;
            let o2 = rect.origin2 as int;
            let last1 = o1 + rect.len1 - 1;
            let last2 = o2 + rect.len2 - 1;
            &&& forall|i: int|
                0 <= i < vals.len() ==> is_on_right(
                    g,
                    from,
                    grid,
                    rect,
                    1 + i,
                    merges,
                    #[trigger] prior(grid.commit(last1, o2), vals, i),
                    vals[i],
                )
            &&& mid.cell(last1, o2) == grid.cell(last1, o2)
            &&& forall|a: int|
                o2 < a < o2 + rect.len2 - 1 && grid.known(last1, a) ==> #[trigger] mid.cell(last1, a)
                    == grid.cell(last1, a)
        }),
        forall|x: int, y: int, s: Seq<char>|
            has_entry(merges, x, y, s) ==> #[trigger] has_entry(all, x, y, s),
        forall|x: int, y: int, s: Seq<char>| #[trigger]
            has_entry(all, x, y, s) ==> mid.cell(rect.origin1 + x, rect.origin2 + y).sha1 == Some(s),
    ensures
        ({
            let o1 = rect.origin1 as int;
            let o2 = rect.origin2 as int;
            let last1 = o1 + rect.len1 - 1;
            let last2 = o2 + rect.len2 - 1;
            &&& prior(grid.commit(last1, o2), vals, rect.len2 - 2) == mid.commit(last1, o2 + rect.len2 - 2)
            &&& forall|a: int| #[trigger] is_right_cell(t, earlier, grid, mid, rect, a)
        }),
{
    reveal(is_on_right);
    let o1 = rect.origin1 as int;
    let o2 = rect.origin2 as int;
    let last1 = o1 + rect.len1 - 1;
    let last2 = o2 + rect.len2 - 1;
    let start = grid.commit(last1, o2);
    assert forall|i: int| 0 <= i < vals.len() implies #[trigger] vals[i] == mid.commit(last1, o2 + 1 + i) by {
        let before = prior(start, vals, i);
        let a = o2 + 1 + i;
        assert(is_on_right(g, from, grid, rect, 1 + i, merges, before, vals[i]));
        if !grid.known(last1, a) {
            assert(has_entry(merges, rect.len1 - 1, 1 + i, vals[i]));
            assert(has_entry(all, rect.len1 - 1, 1 + i, vals[i]));
            assert(mid.cell(rect.origin1 + (rect.len1 - 1), rect.origin2 + (1 + i)).sha1 == Some(vals[i]));
        } else {
            assert(mid.cell(last1, a) == grid.cell(last1, a));
        }
    }
    assert forall|i: int| 0 <= i <= vals.len() implies #[trigger] prior(start, vals, i) == mid.commit(last1, o2 + i) by {
        if i > 0 {
            assert(vals[i - 1] == mid.commit(last1, o2 + 1 + (i - 1)));
        }
    }
    assert(prior(start, vals, vals.len() as int) == mid.commit(last1, o2 + rect.len2 - 2));
    assert forall|a: int| #[trigger] is_right_cell(t, earlier, grid, mid, rect, a) by {
        if o2 < a < o2 + rect.len2 - 1 && !grid.known(last1, a) {
            let i = a - o2 - 1;
            let before = prior(start, vals, i);
            assert(before == mid.commit(last1, a - 1));
            assert(vals[i] == mid.commit(last1, a));
            assert(is_on_right(g, from, grid, rect, 1 + i, merges, before, vals[i]));
            assert(has_entry(merges, rect.len1 - 1, 1 + i, vals[i]));
            assert(has_entry(all, rect.len1 - 1, 1 + i, vals[i]));
            assert(mid.cell(rect.origin1 + (rect.len1 - 1), rect.origin2 + (1 + i)).sha1 == Some(vals[i]));
            lemma_merged_stays(
                g,
                t,
                from,
                earlier,
                grid,
                before,
                grid.commit(o1, a),
                last1,
                a,
                rect.len1 == 2,
                vals[i],
            );
        }
    }
}

/// The corner, once the edges are there.
proof fn lemma_corner(
    g: Talk,
    grid: GridView,
    rect: Rect,
    above: Seq<char>,
    left: Seq<char>,
    merges: CellsView,
)
    requires
        grid.wf(),
        grid.sound(),
        rect.within(grid),
        rect.len1 >= 2,
        rect.len2 >= 2,
        recorded(grid, rect, merges).wf(),
        recorded(grid, rect, merges).cell(
            rect.origin1 + rect.len1 - 1,
            rect.origin2 + rect.len2 - 1,
        ) == grid.cell(rect.origin1 + rect.len1 - 1, rect.origin2 + rect.len2 - 1),
    ensures
        g.outline_corner(grid, rect, above, left, merges) matches (t, Ok(all)) ==> {
            let last1 = rect.origin1 + rect.len1 - 1;
            let last2 = rect.origin2 + rect.len2 - 1;
            let mid = recorded(grid, rect, merges);
            let later = recorded(grid, rect, all);
            let from = g.asked.len() as int;
            &&& g.grows_to(t)
            &&& forall|a1: int, a2: int|
                grid.has(a1, a2) && (a1 != last1 || a2 != last2) ==> #[trigger] later.cell(a1, a2)
                    == mid.cell(a1, a2)
            &&& !grid.known(last1, last2) ==> later.known(last1, last2) && if rect.len1 > 2
                && rect.len2 > 2 {
                is_corner(t, from, grid, rect, above, left, later.commit(last1, last2))
            } else {
                is_merged(
                    t,
                    from,
                    grid,
                    above,
                    left,
                    last1,
                    last2,
                    true,
                    later.commit(last1, last2),
                )
            }
        },
{
    let n1 = (rect.len1 - 1) as usize;
    let n2 = (rect.len2 - 1) as usize;
    let a1 = rect.origin1 + n1;
    let a2 = rect.origin2 + n2;
    let mid = recorded(grid, rect, merges);
    lemma_shape(grid, rect, merges);
    assert(grid.has(a1, a2));
    assert(mid.cells[a1].len() == mid.len2);
    let r = grid.cell(a1, a2);
    assert(r.consistent());
    let f = r.flags;
    assert(f & 0x0f == 0 ==> f & 0x0c == 0) by (bit_vector);
    if let (t, Ok(all)) = g.outline_corner(grid, rect, above, left, merges) {
        let later = recorded(grid, rect, all);
        if n1 > 1 && n2 > 1 {
            let sha1 = g.outline_vertex(grid, rect, above, left).1->Ok_0;
            assert(all == merges.push((n1, n2, sha1)));
            assert(all.drop_last() =~= merges);
            if !grid.known(a1, a2) {
                lemma_vertex(g, grid, rect, above, left);
            } else {
                crate::replay::goes_on_outline_vertex(g, grid, rect, above, left);
            }
        } else {
            lemma_outline_cell(g, grid, rect, n1, above, n2, left, "..."@, true);
            let (h, step) = g.outline_cell(grid, rect, n1, above, n2, left, "..."@, true);
            let (sha1, new) = step->Ok_0;
            assert(all == added(merges, n1, n2, sha1, new));
            if new {
                assert(all.drop_last() =~= merges);
            }
        }
        assert forall|b1: int, b2: int|
            grid.has(b1, b2) && (b1 != a1 || b2 != a2) implies #[trigger] later.cell(b1, b2)
            == mid.cell(b1, b2) by {
            assert(mid.cells[b1].len() == mid.len2);
        }
    }
}

/// Cells that are known get no entry.
proof fn lemma_known_not_entered(grid: GridView, rect: Rect, merges: CellsView, n1: int, n2: int)
    requires
        is_orderly(grid, rect, merges),
        grid.known(rect.origin1 + n1, rect.origin2 + n2),
    ensures
        no_entry(merges, n1, n2),
{
    reveal(is_orderly);
    reveal(no_entry);
}

proof fn lemma_corner_stays(
    g: Talk,
    t: Talk,
    from: int,
    earlier: int,
    grid: GridView,
    rect: Rect,
    above: Seq<char>,
    left: Seq<char>,
    result: Seq<char>,
)
    requires
        g.grows_to(t),
        earlier <= from,
        is_corner(g, from, grid, rect, above, left, result),
    ensures
        is_corner(t, earlier, grid, rect, above, left, result),
{
    reveal(is_corner);
    let a1 = rect.origin1 + rect.len1 - 1;
    let a2 = rect.origin2 + rect.len2 - 1;
    let c1 = grid.commit(a1, rect.origin2 as int);
    let c2 = grid.commit(rect.origin1 as int, a2);
    let (v1, v2, k) = choose|v1: Seq<char>, v2: Seq<char>, k: int|
        {
            &&& is_merged(g, from, grid, c1, left, a1, a2, false, v1)
            &&& is_merged(g, from, grid, above, c2, a1, a2, false, v2)
            &&& #[trigger] did(g, k, tree_of(v1))
            &&& #[trigger] did(g, k + 1, tree_of(v2))
            &&& answer_at(g, k) == answer_at(g, k + 1)
            &&& reparented_at(g, k + 2, v1, seq![above, left], result)
        };
    lemma_merged_stays(g, t, from, earlier, grid, c1, left, a1, a2, false, v1);
    lemma_merged_stays(g, t, from, earlier, grid, above, c2, a1, a2, false, v2);
    assert(did(t, k, tree_of(v1)));
    assert(did(t, k + 1, tree_of(v2)));
    lemma_reparented_stays(g, t, k + 2, v1, seq![above, left], result);
}

pub(crate) proof fn lemma_reparented_stays(
    g: Talk,
    t: Talk,
    k: int,
    commit: Seq<char>,
    parents: Seq<Seq<char>>,
    result: Seq<char>,
)
    requires
        g.grows_to(t),
        reparented_at(g, k, commit, parents, result),
    ensures
        reparented_at(t, k, commit, parents, result),
{
    let text = choose|text: Seq<char>|
        {
            &&& asks(g, k + 1, write_commit(), Some(text), None, false)
            &&& #[trigger] has_parents_instead(said(g, k), text, parents)
        };
    assert(has_parents_instead(said(t, k), text, parents));
}

/// The outline of a block is merged along its edges: on the lower edge each commit of
/// the first branch with the merge result before it, on the right edge the merge result
/// before it with each commit of the second branch. Where both edges are longer than
/// one step the corner is merged in both ways, which have to agree. What was known is
/// kept, and nothing else changes.
pub proof fn law_outline_merges_along_the_edges(g: Talk, grid: GridView, rect: Rect)
    requires
        grid.wf(),
        grid.sound(),
        rect.within(grid),
        rect.len1 >= 2,
        rect.len2 >= 2,
    ensures
        g.auto_outline(grid, rect) matches (t, later, Ok(_)) ==> is_outline(
            t,
            g.asked.len() as int,
            grid,
            later,
            rect,
        ),
{
    let from = g.asked.len() as int;
    let o1 = rect.origin1 as int;
    let o2 = rect.origin2 as int;
    let last1 = o1 + rect.len1 - 1;
    let last2 = o2 + rect.len2 - 1;
    let none = Seq::<(usize, usize, Seq<char>)>::empty();
    assert(is_orderly(grid, rect, none) && forall|x: int, y: int| #[trigger] no_entry(none, x, y))
        by {
        reveal(is_orderly);
        reveal(no_entry);
    }
    let start = grid.commit(o1, last2);
    let lower = lemma_lower(g, grid, rect, 1, start, none);
    let (g1, r1) = g.outline_lower(grid, rect, 1, start, none);
    if let Ok((left, m1)) = r1 {
        let start2 = grid.commit(last1, o2);
        assert forall|x: int| 1 <= x < rect.len2 - 1 implies #[trigger] no_entry(
            m1,
            rect.len1 - 1,
            x,
        ) by {
            assert(no_entry(none, rect.len1 - 1, x));
        }
        let right = lemma_right(g1, grid, rect, 1, start2, m1);
        let (g2, r2) = g1.outline_right(grid, rect, 1, start2, m1);
        if let Ok((above, m2)) = r2 {
            lemma_recorded_exactly(grid, rect, m2);
            let mid = recorded(grid, rect, m2);
            assert forall|x: int, y: int|
                !(y == rect.len2 - 1 && 1 <= x < rect.len1 - 1) && !(x == rect.len1 - 1 && 1 <= y
                    < rect.len2 - 1) implies #[trigger] no_entry(m2, x, y) by {
                assert(no_entry(none, x, y));
                assert(no_entry(m1, x, y));
            }
            assert(grid.has(last1, last2) && grid.has(o1, last2) && grid.has(last1, o2));
            assert(no_entry(m2, last1 - o1, last2 - o2));
            assert(no_entry(m2, o1 - o1, last2 - o2));
            assert(no_entry(m2, last1 - o1, o2 - o2));
            assert forall|a1: int, a2: int| grid.has(a1, a2) && grid.known(a1, a2) implies #[trigger]
            mid.cell(a1, a2) == grid.cell(a1, a2) by {
                lemma_known_not_entered(grid, rect, m2, a1 - o1, a2 - o2);
            }
            lemma_corner(g2, grid, rect, above, left, m2);
            if let (t, later, Ok(_)) = g.auto_outline(grid, rect) {
                let (g3, r3) = g2.outline_corner(grid, rect, above, left, m2);
                assert(later == recorded(grid, rect, r3->Ok_0));
                assert(g3.grows_to(t));
                lemma_lower_edge(g1, t, from, from, grid, mid, rect, lower, m1, m2);
                lemma_right_edge(g2, t, g1.asked.len() as int, from, grid, mid, rect, right, m2, m2);
                assert(left == prior(start, lower, rect.len1 - 2));
                assert(above == prior(start2, right, rect.len2 - 2));
                assert(later.cell(last1 - 1, last2) == mid.cell(last1 - 1, last2));
                assert(later.cell(last1, last2 - 1) == mid.cell(last1, last2 - 1));
                lemma_is_outline(g3, t, g2.asked.len() as int, from, grid, mid, later, rect, above, left, m2);
            }
        }
    }
}

proof fn lemma_is_outline(
    g: Talk,
    t: Talk,
    corner: int,
    from: int,
    grid: GridView,
    mid: GridView,
    later: GridView,
    rect: Rect,
    above: Seq<char>,
    left: Seq<char>,
    merges: CellsView,
)
    requires
        g.grows_to(t),
        from <= corner,
        rect.within(grid),
        rect.len1 >= 2,
        rect.len2 >= 2,
        ({
            let o1 = rect.origin1 as int;
            let o2 = rect.origin2 as int;
            let last1 = o1 + rect.len1 - 1;
            let last2 = o2 + rect.len2 - 1;
            &&& forall|a1: int, a2: int|
                grid.has(a1, a2) && (a1 != last1 || a2 != last2) ==> #[trigger] later.cell(a1, a2)
                    == mid.cell(a1, a2)
            &&& forall|a1: int, a2: int|
                grid.has(a1, a2) && no_entry(merges, a1 - o1, a2 - o2) ==> #[trigger] mid.cell(
                    a1,
                    a2,
                ) == grid.cell(a1, a2)
            &&& forall|a1: int, a2: int|
                grid.has(a1, a2) && grid.known(a1, a2) ==> #[trigger] mid.cell(a1, a2)
                    == grid.cell(a1, a2)
            &&& forall|x: int, y: int|
                !(y == rect.len2 - 1 && 1 <= x < rect.len1 - 1) && !(x == rect.len1 - 1 && 1 <= y
                    < rect.len2 - 1) ==> #[trigger] no_entry(merges, x, y)
            &&& forall|a: int| #[trigger] is_lower_cell(t, from, grid, mid, rect, a)
            &&& forall|a: int| #[trigger] is_right_cell(t, from, grid, mid, rect, a)
            &&& above == later.commit(last1, last2 - 1)
            &&& left == later.commit(last1 - 1, last2)
            &&& !grid.known(last1, last2) ==> later.known(last1, last2) && if rect.len1 > 2
                && rect.len2 > 2 {
                is_corner(g, corner, grid, rect, above, left, later.commit(last1, last2))
            } else {
                is_merged(
                    g,
                    corner,
                    grid,
                    above,
                    left,
                    last1,
                    last2,
                    true,
                    later.commit(last1, last2),
                )
            }
        }),
    ensures
        is_outline(t, from, grid, later, rect),
{
    let o1 = rect.origin1 as int;
    let o2 = rect.origin2 as int;
    let last1 = o1 + rect.len1 - 1;
    let last2 = o2 + rect.len2 - 1;
    assert forall|a: int| #[trigger] is_lower_cell(t, from, grid, later, rect, a) by {
        if o1 < a < last1 && !grid.known(a, last2) {
            assert(is_lower_cell(t, from, grid, mid, rect, a));
            assert(grid.has(a, last2) && grid.has(a - 1, last2));
            assert(later.cell(a, last2) == mid.cell(a, last2));
            assert(later.cell(a - 1, last2) == mid.cell(a - 1, last2));
        }
    }
    assert forall|a: int| #[trigger] is_right_cell(t, from, grid, later, rect, a) by {
        if o2 < a < last2 && !grid.known(last1, a) {
            assert(is_right_cell(t, from, grid, mid, rect, a));
            assert(grid.has(last1, a) && grid.has(last1, a - 1));
            assert(later.cell(last1, a) == mid.cell(last1, a));
            assert(later.cell(last1, a - 1) == mid.cell(last1, a - 1));
        }
    }
    if !grid.known(last1, last2) {
        let v = later.commit(last1, last2);
        if rect.len1 > 2 && rect.len2 > 2 {
            lemma_corner_stays(g, t, corner, from, grid, rect, above, left, v);
        } else {
            lemma_merged_stays(g, t, corner, from, grid, above, left, last1, last2, true, v);
        }
    }
    assert forall|a1: int, a2: int|
        grid.has(a1, a2) && (a1 != last1 || a2 != last2) && (grid.known(a1, a2) || !(a2 == last2
            && o1 < a1 < last1 || a1 == last1 && o2 < a2 < last2)) implies #[trigger] later.cell(
        a1,
        a2,
    ) == grid.cell(a1, a2) by {
        assert(later.cell(a1, a2) == mid.cell(a1, a2));
        if !grid.known(a1, a2) {
            assert(no_entry(merges, a1 - o1, a2 - o2));
        }
    }
}

} // verus!
