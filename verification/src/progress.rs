//! How an incremental merge goes on.
//!
//! The laws here say what a full merge has filled in when it ends, what the user is
//! asked for where it does not end, and what is taken over of a merge by the user.
use vstd::prelude::*;

use crate::block::{law_marks, law_records_stay_consistent, GridView, MergeRecord};
use crate::error::ErrorView;
use crate::imerge::{full_window, lemma_stays_manual, lemma_stays_ready, MergeStateView};
use crate::known::law_known_frontier_is_outlined;
use crate::manual::{
    law_user_merge_is_recorded, law_user_merges_neighbours, prepared_at, work_branch,
};
use crate::merging::{is_made, law_full_frontier_merges_neighbours, lemma_filled_stays, same_edges};
use crate::rowwise::{all_known, is_inner, law_rows_are_taken_in_order};
use crate::strategy::{lemma_unblocks, FrontierView};
use crate::talk::{lemma_grows, lemma_learns_nothing, MessageView, Talk};
use crate::trace::did;
use crate::work::{
    frontier_of, law_merge_place, law_save_is_complete, lemma_grown_ready, merge_place, same_result,
    same_results,
};

verus! {

broadcast use lemma_grows, lemma_learns_nothing;

/// A full merge that comes to its end has a merge result in every cell. Each new one was
/// merged from the cell before it in its row and the cell above it, as they are in the
/// end; what was known before is kept.
pub proof fn law_full_merge_fills_every_cell(g: Talk, s: MergeStateView, progress: bool)
    requires
        s.wf(),
        s.goal == "full"@,
        !s.manual,
    ensures
        g.complete_frontier(s, progress) matches (t, later, Ok(_)) ==> {
            &&& all_known(later.grid, full_window(s.grid))
            &&& forall|a1: int, a2: int|
                s.grid.has_inside(a1, a2) ==> #[trigger] is_filled_in(
                    t,
                    g.asked.len() as int,
                    s.grid,
                    later.grid,
                    a1,
                    a2,
                )
        },
{
    broadcast use crate::replay::goes_on_save_imerge, crate::replay::goes_on_frontier;

    let full = full_window(s.grid);
    let f = FrontierView::Full(full);
    let from = g.asked.len() as int;
    assert(frontier_of(s) == Ok::<FrontierView, ErrorView>(f));
    law_full_frontier_merges_neighbours(g, s.grid, full);
    law_rows_are_taken_in_order(f, g, s.grid);
    let (h, grid, result) = f.auto_expand(g, s.grid);
    let filled = s.with_grid(grid);
    lemma_grown_ready(s.grid, grid);
    law_save_is_complete(h, filled);
    reveal(Talk::save_imerge);
    let (t, later, saved) = h.save_imerge(filled);
    if g.complete_frontier(s, progress).2 is Ok {
        assert(result is Err);
        assert(result == Err::<(), ErrorView>(ErrorView::BlockComplete));
        assert(g.complete_frontier(s, progress).0 == t);
        assert(g.complete_frontier(s, progress).1 == later);
        assert(h.grows_to(t));
        assert(same_results(grid, later.grid));
        assert forall|b1: int, b2: int| is_inner(full, b1, b2) implies #[trigger] later.grid.known(
            b1,
            b2,
        ) by {
            assert(grid.known(b1, b2));
            assert(same_result(grid.cell(b1, b2), later.grid.cell(b1, b2)));
        }
        assert forall|a1: int, a2: int| s.grid.has_inside(a1, a2) implies #[trigger] is_filled_in(
            t,
            from,
            s.grid,
            later.grid,
            a1,
            a2,
        ) by {
            assert(crate::merging::is_filled(h, from, s.grid, grid, a1, a2));
            assert(grid.has(a1, a2) && grid.has(a1 - 1, a2) && grid.has(a1, a2 - 1));
            assert(same_result(grid.cell(a1, a2), later.grid.cell(a1, a2)));
            assert(same_result(grid.cell(a1 - 1, a2), later.grid.cell(a1 - 1, a2)));
            assert(same_result(grid.cell(a1, a2 - 1), later.grid.cell(a1, a2 - 1)));
            assert(same_edges(s.grid, s.grid));
            lemma_filled_stays(h, t, from, s.grid, s.grid, grid, later.grid, a1, a2);
            assert(is_inner(full, a1, a2));
            assert(grid.known(a1, a2));
        }
    }
}

/// What was known of the cell is kept, and what is new was merged from its neighbours.
pub open spec fn is_filled_in(
    t: Talk,
    from: int,
    grid: GridView,
    later: GridView,
    a1: int,
    a2: int,
) -> bool {
    if grid.known(a1, a2) {
        later.commit(a1, a2) == grid.commit(a1, a2)
    } else {
        is_made(t, from, grid, later, a1, a2)
    }
}

/// Where automatic merges do not lead to the end, the user is asked for the merge that
/// blocks them, from the merge results next to it. Otherwise the user is told that the
/// merge is complete, and nothing more is asked for.
pub proof fn law_user_is_asked_for_what_blocks(g: Talk, s: MergeStateView)
    ensures
        g.drive(s) matches (t, Ok(_)) ==> match g.complete_frontier(s, false) {
            (h, later, Ok(_)) => {
                &&& t.asked == h.asked
                &&& t.told == h.told.push(MessageView::Stderr("Merge is complete!\n"@))
            },
            (h, later, Err(ErrorView::FrontierBlocked { i1, i2, .. })) => prepared_at(
                t,
                h.asked.len() as int,
                later.grid.name,
                i1 as int,
                i2 as int,
                later.grid.commit(i1 as int, i2 - 1),
                later.grid.commit(i1 - 1, i2 as int),
                later.grid.commit(i1 as int, 0),
                later.grid.commit(0, i2 as int),
            ),
            _ => false,
        },
{
    reveal(Talk::drive);
    reveal_strlit("Merge is complete!");
    reveal_strlit("\n");
    reveal_strlit("Merge is complete!\n");
    assert("Merge is complete!"@ + "\n"@ =~= "Merge is complete!\n"@);
    if let (h, later, Err(ErrorView::FrontierBlocked { i1, i2, .. })) = g.complete_frontier(
        s,
        false,
    ) {
        law_user_merges_neighbours(h, later, i1, i2);
    }
}

/// From `k` on, the branch on which the user makes merges was left and deleted.
pub open spec fn left_at(t: Talk, k: int, name: Seq<char>) -> bool {
    &&& did(
        t,
        k,
        seq![
            "update-ref"@,
            "--no-deref"@,
            "-m"@,
            "Detach HEAD from "@ + work_branch(name),
            "HEAD"@,
            "HEAD^0"@,
        ],
    )
    &&& did(
        t,
        k + 1,
        seq![
            "update-ref"@,
            "-m"@,
            "imerge '"@ + name + "': remove scratch reference"@,
            "-d"@,
            work_branch(name),
        ],
    )
}

proof fn lemma_recorded_ready(g: Talk, s: MergeStateView, commit: Seq<char>)
    requires
        s.wf(),
    ensures
        g.incorporate_manual_merge(s, commit) matches (_, recorded, Ok(_)) ==> recorded.wf(),
{
    if let (_, recorded, Ok((i1, i2))) = g.incorporate_manual_merge(s, commit) {
        let (h, r) = g.get_commit_parents(commit);
        let parents = r->Ok_0;
        law_merge_place(s.grid, commit, parents);
        let (_, _, swapped) = merge_place(s.grid, commit, parents)->Ok_0;
        let sha1 = h.ordered(commit, parents, swapped).1->Ok_0;
        let cell = s.grid.cell(i1 as int, i2 as int);
        assert(cell.consistent());
        law_records_stay_consistent(cell, sha1, MergeRecord::NEW_MANUAL, false);
        lemma_stays_manual(cell, sha1, MergeRecord::NEW_MANUAL, false);
        lemma_stays_ready(
            s.grid,
            i1 as int,
            i2 as int,
            cell.merged(sha1, MergeRecord::NEW_MANUAL),
        );
    }
}

proof fn lemma_unblocked(
    s: MergeStateView,
    f: FrontierView,
    i1: usize,
    i2: usize,
    a1: usize,
    a2: usize,
)
    requires
        s.wf(),
        frontier_of(s) == Ok::<FrontierView, ErrorView>(f),
        f.unblocks(s.grid, i1, i2) == Ok::<(usize, usize), ErrorView>((a1, a2)),
    ensures
        ({
            let cell = s.grid.cell(a1 as int, a2 as int);
            let later = s.grid.with(a1 as int, a2 as int, cell.marked(false));
            &&& s.with_grid(later).wf()
            &&& forall|b1: int, b2: int|
                s.grid.has(b1, b2) ==> (#[trigger] later.cell(b1, b2)).sha1 == s.grid.cell(
                    b1,
                    b2,
                ).sha1 && later.cell(b1, b2).manual() == s.grid.cell(b1, b2).manual()
        }),
{
    let full = full_window(s.grid);
    law_known_frontier_is_outlined(s.grid, full);
    lemma_unblocks(f, s.grid, i1, i2);
    let cell = s.grid.cell(a1 as int, a2 as int);
    let later = s.grid.with(a1 as int, a2 as int, cell.marked(false));
    assert(cell.consistent());
    law_records_stay_consistent(cell, Seq::empty(), MergeRecord::NEW_AUTO, false);
    lemma_stays_manual(cell, Seq::empty(), MergeRecord::NEW_AUTO, false);
    law_marks(cell, false);
    lemma_stays_ready(s.grid, a1 as int, a2 as int, cell.marked(false));
    assert(s.grid.cells[a1 as int].len() == s.grid.len2);
    assert forall|b1: int, b2: int| s.grid.has(b1, b2) implies (#[trigger] later.cell(b1, b2)).sha1
        == s.grid.cell(b1, b2).sha1 && later.cell(b1, b2).manual() == s.grid.cell(
        b1,
        b2,
    ).manual() by {
        assert(s.grid.cells[b1].len() == s.grid.len2);
    }
}

/// What the user has merged is taken over: the commit on the work branch is recorded for
/// its cell as a manual merge, the work branch is left and deleted, and the cell no
/// longer blocks the frontier. Every other merge result stays.
pub proof fn law_user_merge_is_taken_over(
    g: Talk,
    s: MergeStateView,
    edit_log_msg: Option<bool>,
) -> (r: (Talk, Talk, Seq<char>, usize, usize))
    requires
        s.wf(),
    ensures
        g.incorporate_user_merge(s, edit_log_msg) matches (t, later, Ok(_)) ==> {
            let (h, k, commit, i1, i2) = r;
            let recorded = h.incorporate_manual_merge(s, commit).1;
            &&& g.user_commit(s, edit_log_msg) == (h, Ok::<Seq<char>, ErrorView>(commit))
            &&& h.incorporate_manual_merge(s, commit) == (
                k,
                recorded,
                Ok::<(usize, usize), ErrorView>((i1, i2)),
            )
            &&& left_at(t, k.asked.len() as int, s.grid.name)
            &&& later == s.with_grid(later.grid)
            &&& later.grid.cell(i1 as int, i2 as int).sha1 == recorded.grid.cell(
                i1 as int,
                i2 as int,
            ).sha1
            &&& later.grid.cell(i1 as int, i2 as int).manual()
            &&& forall|b1: int, b2: int|
                s.grid.has(b1, b2) && (b1 != i1 || b2 != i2) ==> (#[trigger] later.grid.cell(
                    b1,
                    b2,
                )).sha1 == s.grid.cell(b1, b2).sha1
        },
{
    broadcast use crate::replay::goes_on_save_imerge;

    reveal(Talk::incorporate_user_merge);
    reveal(Talk::save_imerge);
    let (h, r1) = g.user_commit(s, edit_log_msg);
    if let Ok(commit) = r1 {
        law_user_merge_is_recorded(h, s, commit);
        let (k, recorded, r2) = h.incorporate_manual_merge(s, commit);
        if let Ok((i1, i2)) = r2 {
            let (l, r3) = k.drop_scratch(recorded.grid.name);
            if g.incorporate_user_merge(s, edit_log_msg).2 is Ok {
                assert(recorded.grid.name == s.grid.name);
                assert(left_at(l, k.asked.len() as int, s.grid.name));
                let frontier = frontier_of(recorded)->Ok_0;
                let (a1, a2) = frontier.unblocks(recorded.grid, i1, i2)->Ok_0;
                let unblocked = recorded.with_grid(
                    recorded.grid.with(
                        a1 as int,
                        a2 as int,
                        recorded.grid.cell(a1 as int, a2 as int).marked(false),
                    ),
                );
                lemma_recorded_ready(h, s, commit);
                lemma_unblocked(recorded, frontier, i1, i2, a1, a2);
                let told = l.note(
                    "Merge has been recorded for merge "@ + crate::fill::coordinates(
                        i1 as int,
                        i2 as int,
                    ) + "."@,
                );
                law_save_is_complete(told, unblocked);
                let (t, later, saved) = told.save_imerge(unblocked);
                assert(told.grows_to(t));
                assert(same_results(unblocked.grid, later.grid));
                assert(later == g.incorporate_user_merge(s, edit_log_msg).1);
                assert(same_result(
                    unblocked.grid.cell(i1 as int, i2 as int),
                    later.grid.cell(i1 as int, i2 as int),
                ));
                assert(recorded.grid.has(i1 as int, i2 as int));
                assert(unblocked.grid.cell(i1 as int, i2 as int).sha1 == recorded.grid.cell(
                    i1 as int,
                    i2 as int,
                ).sha1);
                assert forall|b1: int, b2: int|
                    s.grid.has(b1, b2) && (b1 != i1 || b2 != i2) implies (#[trigger] later.grid.cell(
                    b1,
                    b2,
                )).sha1 == s.grid.cell(b1, b2).sha1 by {
                    assert(recorded.grid.cell(b1, b2) == s.grid.cell(b1, b2));
                    assert(same_result(unblocked.grid.cell(b1, b2), later.grid.cell(b1, b2)));
                }
            }
            (h, k, commit, i1, i2)
        } else {
            (h, k, commit, 0, 0)
        }
    } else {
        (h, h, Seq::empty(), 0, 0)
    }
}

} // verus!
