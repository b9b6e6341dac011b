//! What a command that starts an incremental merge records.
//!
//! The laws here speak of the state that is stored: of every one that is stored while
//! the command runs, in terms of its arguments and of what `git` says.
use vstd::prelude::*;

use crate::block::{GridView, MergeRecord, RecordView, Rect};
use crate::cli::{InitArgsView, MergeArgsView, RangeArgsView, RebaseArgsView};
use crate::commands::{checked_goal, SetupView};
use crate::error::ErrorView;
use crate::expand::{after_failure, failure_marked, first_with_blocks};
use crate::fill::{recorded, CellsView};
use crate::frontier::{blockers, both_sides, normal_form, without_failure};
use crate::imerge::{edge_cell, law_edge_grid_is_ready, MergeStateView};
use crate::kept::{is_below, law_a_new_grid_agrees, law_save_leaves_what_is_kept, refs_after, Refs};
use crate::lineage::resolve;
use crate::outcome::answer_at;
use crate::state::{GoalOptsView, StateDictView};
use crate::strategy::{by_origin, FrontierView};
use crate::talk::{lemma_grows, lemma_learns_nothing, MessageView, RequestView, Talk};
use crate::text::decimal;
use crate::trace::{asks, did, ended, works, works_call, works_on, works_same};
use crate::work::{frontier_of, stored_state};

verus! {

broadcast use lemma_grows, lemma_learns_nothing, works_call, works_on, works_same;

/// The stored state is this one, whatever is blocked.
pub open spec fn is_stored(d: StateDictView, p: StateDictView) -> bool {
    d == (StateDictView { version: d.version, blockers: d.blockers, ..p })
}

/// From `g` to `t` every state that is stored is this one, whatever is blocked.
#[verifier::opaque]
pub open spec fn stores(g: Talk, t: Talk, p: StateDictView) -> bool {
    &&& g.asked.len() <= t.asked.len()
    &&& forall|k: int| 0 <= k < g.asked.len() ==> #[trigger] t.asked[k] == g.asked[k]
    &&& forall|k: int|
        g.asked.len() <= k < t.asked.len() ==> (#[trigger] t.asked[k] matches
            RequestView::EncodeState(d) ==> is_stored(d, p))
}

broadcast proof fn stores_on(a: Talk, b: Talk, c: Talk, p: StateDictView)
    requires
        #[trigger] stores(a, b, p),
        #[trigger] stores(b, c, p),
    ensures
        stores(a, c, p),
{
    reveal(stores);
    assert forall|k: int| a.asked.len() <= k < c.asked.len() implies (#[trigger] c.asked[k] matches
        RequestView::EncodeState(d) ==> is_stored(d, p)) by {
        if k < b.asked.len() {
            assert(c.asked[k] == b.asked[k]);
        }
    }
}

broadcast proof fn stores_nothing(a: Talk, b: Talk, p: StateDictView)
    requires
        works(a, b),
    ensures
        #[trigger] stores(a, b, p),
{
    reveal(stores);
    reveal(works);
}

proof fn stores_save_cell(
    g: Talk,
    r: RecordView,
    name: Seq<char>,
    i1: usize,
    i2: usize,
    p: StateDictView,
)
    ensures
        stores(g, g.save_cell(r, name, i1, i2).0, p),
{
    reveal(stores);
}

proof fn stores_save_cells(
    g: Talk,
    grid: GridView,
    i1: usize,
    i2: usize,
    blockers: Seq<(usize, usize)>,
    p: StateDictView,
)
    ensures
        stores(g, g.save_cells(grid, i1, i2, blockers).0, p),
    decreases grid.len2 - i2, grid.len1 - i1,
{
    broadcast use stores_on, stores_nothing;

    if i2 < grid.len2 {
        if i1 >= grid.len1 {
            stores_save_cells(g, grid, 0, (i2 + 1) as usize, blockers, p);
        } else {
            let (h, next, r) = g.save_at(grid, i1, i2);
            assert(stores(g, h, p)) by {
                stores_save_cell(g, grid.cell(i1 as int, i2 as int), grid.name, i1, i2, p);
            }
            if r is Ok {
                let more = if next.blocked(i1 as int, i2 as int) {
                    blockers.push((i1, i2))
                } else {
                    blockers
                };
                stores_save_cells(h, next, (i1 + 1) as usize, i2, more, p);
            }
        }
    }
}

/// Saving stores the state of the incremental merge.
proof fn stores_save(g: Talk, s: MergeStateView, p: StateDictView)
    requires
        is_stored(stored_state(s, Seq::empty()), p),
    ensures
        stores(g, g.save_imerge(s).0, p),
        g.save_imerge(s).1 == s.with_grid(g.save_imerge(s).1.grid),
        g.save_imerge(s).1.grid.dedupe_patches == s.grid.dedupe_patches,
        g.save_imerge(s).1.grid.name == s.grid.name,
{
    broadcast use stores_on;

    reveal(Talk::save_imerge);
    let none = Seq::<(usize, usize)>::empty();
    let (h, grid, r) = g.save_cells(s.grid, 0, 0, none);
    stores_save_cells(g, s.grid, 0, 0, none, p);
    lemma_saved_grid(g, s.grid, 0, 0, none);
    if let Ok(blockers) = r {
        let t = h.write_imerge_state_dict(s.grid.name, stored_state(s, blockers)).0;
        assert(stores(h, t, p)) by {
            reveal(stores);
        }
    }
}

proof fn lemma_saved_grid(
    g: Talk,
    grid: GridView,
    i1: usize,
    i2: usize,
    blockers: Seq<(usize, usize)>,
)
    ensures
        g.save_cells(grid, i1, i2, blockers).1.name == grid.name,
        g.save_cells(grid, i1, i2, blockers).1.dedupe_patches == grid.dedupe_patches,
    decreases grid.len2 - i2, grid.len1 - i1,
{
    if i2 < grid.len2 {
        if i1 >= grid.len1 {
            lemma_saved_grid(g, grid, 0, (i2 + 1) as usize, blockers);
        } else {
            let (h, next, r) = g.save_at(grid, i1, i2);
            if r is Ok {
                let more = if next.blocked(i1 as int, i2 as int) {
                    blockers.push((i1, i2))
                } else {
                    blockers
                };
                lemma_saved_grid(h, next, (i1 + 1) as usize, i2, more);
            }
        }
    }
}

// ---------------------------------------------------------------------
// Going on
// ---------------------------------------------------------------------

/// The two grids have the same name, the same shape, and look for equal changes alike.
spec fn same_frame(a: GridView, b: GridView) -> bool {
    &&& a.name == b.name
    &&& a.dedupe_patches == b.dedupe_patches
    &&& a.len1 == b.len1
    &&& a.len2 == b.len2
}

proof fn frame_recorded(grid: GridView, rect: Rect, merges: CellsView)
    ensures
        same_frame(grid, recorded(grid, rect, merges)),
    decreases merges.len(),
{
    if merges.len() > 0 {
        frame_recorded(grid, rect, merges.drop_last());
    }
}

proof fn frame_pursue(
    g: Talk,
    grid: GridView,
    top: Rect,
    top_blocks: Seq<Rect>,
    cur: Rect,
    cur_blocks: Seq<Rect>,
    is_top: bool,
)
    ensures
        same_frame(grid, g.pursue(grid, top, top_blocks, cur, cur_blocks, is_top).1),
    decreases g.remaining(), cur.len1,
{
    if cur_blocks.len() > 0 {
        let target = cur_blocks[0];
        if let Ok(merges) = g.outline(grid, target).1 {
            frame_recorded(grid, target, merges);
        }
        match g.auto_outline(grid, target) {
            (h, after, Err(ErrorView::UnexpectedMergeFailure { i1, i2, .. })) => {
                let left = without_failure(cur_blocks, i1 as int, i2 as int);
                let top_left = if is_top {
                    left
                } else {
                    after_failure(top, top_blocks, target, i1, i2)
                };
                if h.remaining() < g.remaining() {
                    let marked = failure_marked(after, target, i1, i2);
                    frame_pursue(h, marked, top, top_left, cur, left, is_top);
                }
            },
            (h, after, Ok(_)) => {
                if let Some((next, next_blocks)) = first_with_blocks(
                    both_sides(cur, cur_blocks, target),
                ) {
                    if h.remaining() <= g.remaining() && next.len1 < cur.len1 {
                        frame_pursue(h, after, top, top_blocks, next, next_blocks, false);
                    }
                }
            },
            _ => {},
        }
    }
}

proof fn frame_regions(g: Talk, grid: GridView, regions: Seq<Rect>, k: nat)
    ensures
        same_frame(grid, g.expand_regions(grid, regions, k).1),
    decreases regions.len() - k,
{
    if k < regions.len() {
        reveal(Talk::initiate_merge);
        let block = regions[k as int];
        let (h, found, r) = g.find_frontier_blocks(grid, block);
        assert(same_frame(grid, found));
        if let Ok(list) = r {
            frame_pursue(h, found, block, normal_form(list), block, normal_form(list), true);
        }
        let (h, next, r) = g.initiate_merge(grid, block);
        assert(same_frame(grid, next));
        if r is Ok {
            frame_regions(h, next, regions, k + 1);
        }
    }
}

proof fn frame_row(g: Talk, grid: GridView, block: Rect, i1: usize, i2: usize, len2: usize)
    ensures
        same_frame(grid, g.fill_row(grid, block, i1, i2, len2).1),
    decreases len2 - i2,
{
    let a1 = (block.origin1 + i1) as usize;
    let a2 = (block.origin2 + i2) as usize;
    if i2 < len2 {
        if grid.known(a1 as int, a2 as int) {
            frame_row(g, grid, block, i1, (i2 + 1) as usize, len2);
        } else if !grid.blocked(a1 as int, a2 as int) {
            let (h, next, r) = g.fill_cell(
                grid,
                (a1, a2),
                ((a1 - 1) as usize, a2),
                (a1, (a2 - 1) as usize),
            );
            if r == Ok::<bool, ErrorView>(true) {
                frame_row(h, next, block, i1, (i2 + 1) as usize, len2);
            }
        }
    }
}

proof fn frame_rows(
    g: Talk,
    grid: GridView,
    block: Rect,
    i1: usize,
    len2: usize,
    blocker: Option<(usize, usize)>,
)
    ensures
        same_frame(grid, g.fill_rows(grid, block, i1, len2, blocker).1),
    decreases block.len1 - i1,
{
    if i1 < block.len1 {
        frame_row(g, grid, block, i1, 1, len2);
        let (h, next, r) = g.fill_row(grid, block, i1, 1, len2);
        match r {
            Ok(None) => frame_rows(h, next, block, (i1 + 1) as usize, len2, blocker),
            Ok(Some(i2)) => {
                let more = match blocker {
                    Some(b) => Some(b),
                    None => Some(((block.origin1 + i1) as usize, (block.origin2 + i2) as usize)),
                };
                frame_rows(h, next, block, (i1 + 1) as usize, i2, more);
            },
            _ => {},
        }
    }
}

proof fn frame_frontier(f: FrontierView, g: Talk, grid: GridView)
    ensures
        same_frame(grid, f.auto_expand(g, grid).1),
{
    match f {
        FrontierView::Full(b) => frame_rows(g, grid, b, 1, b.len2, None),
        FrontierView::Manual(_) => {},
        FrontierView::Blockwise { top, blocks } => frame_regions(
            g,
            grid,
            by_origin(blockers(top, blocks)),
            0,
        ),
    }
}

/// Pushing the frontier of an incremental merge forward changes nothing about it but
/// its grid, and stores only its state.
pub proof fn law_progress_keeps_the_plan(g: Talk, s: MergeStateView, progress: bool)
    ensures
        ({
            let (t, later, _) = g.complete_frontier(s, progress);
            &&& later == s.with_grid(later.grid)
            &&& later.grid.name == s.grid.name
            &&& later.grid.dedupe_patches == s.grid.dedupe_patches
            &&& stores(g, t, stored_state(s, Seq::empty()))
        }),
    decreases g.remaining(),
{
    broadcast use stores_on, stores_nothing, crate::harmless::works_frontier;

    let p = stored_state(s, Seq::empty());
    if let Ok(f) = frontier_of(s) {
        let (h, grid, result) = f.auto_expand(g, s.grid);
        frame_frontier(f, g, s.grid);
        assert(stores(g, h, p));
        if result != Err::<(), ErrorView>(ErrorView::Suspended) {
            stores_save(h, s.with_grid(grid), p);
            let (k, next, saved) = h.save_imerge(s.with_grid(grid));
            if saved is Ok && result is Ok && k.remaining() < g.remaining() {
                law_progress_keeps_the_plan(k, next, true);
                assert(stored_state(next, Seq::empty()) == p);
            }
        }
    } else {
        assert(works(g, g));
        assert(stores(g, g, p));
    }
}

proof fn stores_request(g: Talk, s: MergeStateView, i1: usize, i2: usize, p: StateDictView)
    ensures
        stores(g, g.request_user_merge(s, i1, i2).0, p),
{
    reveal(stores);
}

proof fn stores_default(g: Talk, name: Seq<char>, p: StateDictView)
    ensures
        stores(g, g.maybe_set_default(name).0, p),
{
    reveal(stores);
}

proof fn stores_drive(g: Talk, s: MergeStateView)
    ensures
        stores(g, g.drive(s).0, stored_state(s, Seq::empty())),
{
    broadcast use stores_on, stores_nothing;

    reveal(Talk::drive);
    let p = stored_state(s, Seq::empty());
    law_progress_keeps_the_plan(g, s, false);
    let (h, later, r) = g.complete_frontier(s, false);
    if let Err(ErrorView::FrontierBlocked { i1, i2, .. }) = r {
        stores_request(h, later, i1, i2, p);
    }
    if r is Ok {
        assert(works(h, h.note("Merge is complete!"@)));
        assert(stores(h, h.note("Merge is complete!"@), p));
    }
}

/// What a setup stores.
pub open spec fn stored_setup(setup: SetupView) -> StateDictView {
    StateDictView {
        version: Seq::empty(),
        blockers: Seq::empty(),
        tip1: Some(setup.tip1),
        tip2: Some(setup.tip2),
        goal: setup.goal,
        goalopts: setup.goalopts,
        manual: setup.manual,
        dedupe_patches: setup.dedupe_patches,
        branch: match setup.branch {
            Some(b) => if b.len() > 0 {
                Some(b)
            } else {
                Some(setup.name)
            },
            None => Some(setup.name),
        },
    }
}

proof fn stores_launch(
    g: Talk,
    setup: SetupView,
    bounds: (Seq<char>, Seq<Seq<char>>, Seq<Seq<char>>),
)
    ensures
        stores(g, g.launch(setup, bounds).0, stored_setup(setup)),
        g.launch(setup, bounds).1 matches Ok(s) ==> is_stored(
            stored_state(s, Seq::empty()),
            stored_setup(setup),
        ),
{
    broadcast use stores_on, stores_nothing, crate::harmless::works_initialize;

    reveal(Talk::launch);
    reveal(Talk::keep);
    let p = stored_setup(setup);
    let (h, r) = g.begin(setup, bounds);
    assert(works(g, h));
    assert(stores(g, h, p));
    if let Ok(s) = r {
        stores_save(h, s, p);
        let (k, saved, done) = h.save_imerge(s);
        if done is Ok {
            stores_default(k, s.grid.name, p);
        }
    }
}

/// What is stored for one setup is stored for another that stores the same.
proof fn lemma_stores_same(g: Talk, t: Talk, p: StateDictView, q: StateDictView)
    requires
        stores(g, t, p),
        is_stored(p, q),
    ensures
        stores(g, t, q),
{
    reveal(stores);
}

/// A command that starts an incremental merge stores only what was set up.
pub(crate) proof fn stores_launch_and_drive(g: Talk, setup: SetupView, first_parent: bool)
    ensures
        stores(g, g.launch_and_drive(setup, first_parent).0, stored_setup(setup)),
{
    broadcast use stores_on, stores_nothing, crate::harmless::works_get_boundaries;

    let p = stored_setup(setup);
    let t = g.launch_and_drive(setup, first_parent).0;
    let (h, r) = g.get_boundaries(setup.tip1, setup.tip2, first_parent);
    assert(stores(g, h, p));
    match r {
        Err(ErrorView::NothingToDo) => {
            assert(works(h, t));
            assert(stores(h, t, p));
        },
        Err(_) => {},
        Ok(bounds) => {
            stores_launch(h, setup, bounds);
            let (k, launched) = h.launch(setup, bounds);
            if let Ok(s) = launched {
                stores_drive(k, s);
                lemma_stores_same(k, k.drive(s).0, stored_state(s, Seq::empty()), p);
            }
        },
    }
}

// ---------------------------------------------------------------------
// The commands
// ---------------------------------------------------------------------

/// The command that prints the name of the current branch.
pub open spec fn current_branch() -> Seq<Seq<char>> {
    seq!["symbolic-ref"@, "--quiet"@, "--short"@, "HEAD"@]
}

/// At `k`, `git` says that `name` can name a branch.
pub open spec fn is_branch_at(t: Talk, k: int, name: Seq<char>) -> bool {
    asks(t, k, seq!["check-ref-format"@, "refs/heads/"@ + name], None, None, false) && ended(
        t,
        k,
        true,
    )
}

/// The name, or another one if it is empty.
pub open spec fn not_empty(name: Seq<char>, other: Seq<char>) -> Seq<char> {
    if name.len() > 0 {
        name
    } else {
        other
    }
}

/// The branch for the result of a command whose question for the current branch stands
/// at `k`: the branch that was given; otherwise the current one if its name is a good
/// one; otherwise the name of the incremental merge.
pub open spec fn result_branch(
    t: Talk,
    k: int,
    given: Option<Seq<char>>,
    name: Seq<char>,
) -> Seq<char> {
    match given {
        Some(b) => not_empty(b, name),
        None => match answer_at(t, k) {
            Some(head) => if is_branch_at(t, k + 1, head) {
                not_empty(head, name)
            } else {
                name
            },
            None => name,
        },
    }
}

/// Every state that was stored from `from` on tells of these tips, this goal, this
/// branch and these choices.
pub open spec fn all_stored(
    t: Talk,
    from: int,
    tip1: Seq<char>,
    tip2: Seq<char>,
    goal: Seq<char>,
    goalopts: Option<GoalOptsView>,
    manual: bool,
    dedupe_patches: bool,
    branch: Seq<char>,
) -> bool {
    forall|k: int|
        from <= k < t.asked.len() ==> (#[trigger] t.asked[k] matches RequestView::EncodeState(d)
            ==> {
            &&& d.tip1 == Some(tip1)
            &&& d.tip2 == Some(tip2)
            &&& d.goal == goal
            &&& d.goalopts == goalopts
            &&& d.manual == manual
            &&& d.dedupe_patches == dedupe_patches
            &&& d.branch == Some(branch)
        })
}

/// No state was stored from `from` on.
pub open spec fn none_stored(t: Talk, from: int) -> bool {
    forall|k: int| from <= k < t.asked.len() ==> !(#[trigger] t.asked[k] is EncodeState)
}

/// Looking whether the work tree is clean takes four requests.
pub(crate) proof fn lemma_clean(g: Talk)
    ensures
        g.require_clean_work_tree("proceed"@) matches (t, Ok(_)) ==> {
            &&& g.grows_to(t)
            &&& t.asked.len() == g.asked.len() + 4
        },
{
    let (g1, r1) = g.output(seq!["rev-parse"@, "--verify"@, "HEAD"@]);
    if r1 is Ok {
        let (g2, r2) = g1.refresh_index();
        if r2 is Ok {
            let (g3, r3) = g2.unstaged_changes();
            if r3 is Ok {
                let (g4, r4) = g3.uncommitted_changes();
            }
        }
    }
}

pub(crate) proof fn lemma_stored(g: Talk, h: Talk, t: Talk, setup: SetupView)
    requires
        works(g, h),
        stores(h, t, stored_setup(setup)),
    ensures
        all_stored(
            t,
            g.asked.len() as int,
            setup.tip1,
            setup.tip2,
            setup.goal,
            setup.goalopts,
            setup.manual,
            setup.dedupe_patches,
            match setup.branch {
                Some(b) => not_empty(b, setup.name),
                None => setup.name,
            },
        ),
{
    broadcast use stores_on, stores_nothing;

    assert(stores(g, h, stored_setup(setup)));
    assert(stores(g, t, stored_setup(setup)));
    reveal(stores);
}

pub(crate) proof fn lemma_none_stored(g: Talk, t: Talk)
    requires
        works(g, t),
    ensures
        none_stored(t, g.asked.len() as int),
{
    reveal(works);
}

proof fn lemma_head(g: Talk)
    ensures
        ({
            let (t, r) = g.get_head_refname(true);
            let k = g.asked.len() as int;
            &&& g.grows_to(t)
            &&& r matches Ok(head) ==> {
                &&& t.asked.len() == k + 1
                &&& asks(t, k, current_branch(), None, None, false)
                &&& head == answer_at(t, k)
            }
        }),
{
}

proof fn lemma_branch_for(g: Talk, branch: Option<Seq<char>>, head: Seq<char>)
    ensures
        ({
            let (t, r) = g.branch_for(branch, head);
            let k = g.asked.len() as int;
            &&& g.grows_to(t)
            &&& r matches Ok(found) ==> {
                &&& branch is Some ==> found == branch && t == g
                &&& branch is None ==> t.asked.len() == k + 1 && found == if is_branch_at(
                    t,
                    k,
                    head,
                ) {
                    Some(head)
                } else {
                    None
                }
            }
        }),
{
}

/// A merge goes into the current branch. What is stored has the current branch as its
/// first tip and the given branch as its second. Unless another branch is asked for,
/// the result goes to the current branch, if its name is a good one.
pub proof fn law_merge_goes_into_the_current_branch(g: Talk, args: MergeArgsView)
    ensures
        ({
            let t = g.cmd_merge(args).0;
            let from = g.asked.len() as int;
            let (k, name) = match args.name {
                Some(n) => (from + 4, n),
                None => (from + 5, args.tip2),
            };
            none_stored(t, from) || {
                &&& asks(t, k, current_branch(), None, None, false)
                &&& all_stored(
                    t,
                    from,
                    match answer_at(t, k) {
                        Some(head) => head,
                        None => "HEAD"@,
                    },
                    args.tip2,
                    args.goal,
                    None,
                    args.manual,
                    args.dedupe_patches,
                    result_branch(t, k, args.branch, name),
                )
            }
        }),
{
    broadcast use
        crate::harmless::works_require_clean_work_tree,
        crate::harmless::works_merge_name,
        crate::harmless::works_merge_branch,
        crate::replay::goes_on_launch_and_drive,
    ;

    reveal(Talk::cmd_merge);
    let t = g.cmd_merge(args).0;
    let from = g.asked.len() as int;
    lemma_clean(g);
    let (g1, clean) = g.require_clean_work_tree("proceed"@);
    assert(works(g, g1));
    if clean is Ok && checked_goal(args.goal) is Ok {
        let (g2, r2) = g1.merge_name(args);
        assert(works(g, g2));
        if let Ok(name) = r2 {
            let k = g2.asked.len() as int;
            assert(g1.grows_to(g2) && k == match args.name {
                Some(_) => from + 4,
                None => from + 5,
            });
            lemma_merge_branch(g2, args);
            let (g3, r3) = g2.merge_branch(args);
            assert(works(g, g3));
            if let Ok((tip1, branch)) = r3 {
                let setup = SetupView {
                    name,
                    tip1,
                    tip2: args.tip2,
                    goal: args.goal,
                    goalopts: None,
                    manual: args.manual,
                    dedupe_patches: args.dedupe_patches,
                    branch,
                };
                stores_launch_and_drive(g3, setup, args.first_parent);
                assert(t == g3.launch_and_drive(setup, args.first_parent).0);
                assert(g3.grows_to(t));
                lemma_stored(g, g3, t, setup);
            } else {
                lemma_none_stored(g, t);
            }
        } else {
            lemma_none_stored(g, t);
        }
    } else {
        lemma_none_stored(g, t);
    }
}

proof fn lemma_merge_branch(g: Talk, args: MergeArgsView)
    ensures
        g.merge_branch(args) matches (t, Ok((tip1, branch))) ==> {
            let k = g.asked.len() as int;
            let name = match args.name {
                Some(n) => n,
                None => args.tip2,
            };
            &&& g.grows_to(t)
            &&& asks(t, k, current_branch(), None, None, false)
            &&& tip1 == match answer_at(t, k) {
                Some(head) => head,
                None => "HEAD"@,
            }
            &&& branch matches Some(b) && not_empty(b, name) == result_branch(
                t,
                k,
                args.branch,
                name,
            )
            &&& args.branch is None && answer_at(t, k) is Some ==> t.asked.len() > k + 1
        },
{
    lemma_head(g);
    let (h, r) = g.get_head_refname(true);
    if let Ok(Some(head)) = r {
        lemma_branch_for(h, args.branch, head);
    }
}

/// What is checked out, by name if it is a branch, as it was asked for at `k`.
pub open spec fn tip_at(t: Talk, k: int) -> Option<Seq<char>> {
    match answer_at(t, k) {
        Some(head) => Some(head),
        None => answer_at(t, k + 1),
    }
}

/// The name of an incremental merge that starts where `k` says: the given one, or that
/// of the current branch.
pub open spec fn name_at(t: Talk, k: int, given: Option<Seq<char>>) -> Seq<char> {
    match given {
        Some(n) => n,
        None => answer_at(t, k)->0,
    }
}

/// How many requests it takes to find out what is checked out.
pub open spec fn tip_steps(t: Talk, k: int, branch: Option<Seq<char>>) -> int {
    if answer_at(t, k) is Some && branch is Some {
        1
    } else {
        2
    }
}

/// From `k` on it was asked what is checked out.
pub open spec fn asks_tip(t: Talk, k: int) -> bool {
    &&& asks(t, k, current_branch(), None, None, false)
    &&& answer_at(t, k) is None ==> did(t, k + 1, resolve("HEAD"@))
}

pub(crate) proof fn lemma_current_tip(g: Talk, name: Option<Seq<char>>, branch: Option<Seq<char>>)
    ensures
        g.current_tip(name, branch) matches (t, Ok((tip, n, b))) ==> {
            let k = g.asked.len() as int;
            &&& g.grows_to(t)
            &&& asks_tip(t, k)
            &&& tip_at(t, k) == Some(tip)
            &&& n == name_at(t, k, name)
            &&& answer_at(t, k) is None ==> name is Some
            &&& not_empty(b, n) == result_branch(t, k, branch, n)
            &&& t.asked.len() == k + tip_steps(t, k, branch)
        },
{
    lemma_head(g);
    let (h, r) = g.get_head_refname(true);
    if let Ok(Some(head)) = r {
        lemma_branch_for(h, branch, head);
    }
    if let Ok(None) = r {
        let (t, tip) = h.rev_parse_required("HEAD"@);
        assert(h.grows_to(t));
    }
}

/// A rebase moves the current branch. What is stored has the given branch as its first
/// tip and what is checked out as its second. Unless another branch is asked for, the
/// result goes to the current branch, if its name is a good one.
pub proof fn law_rebase_moves_the_current_branch(g: Talk, args: RebaseArgsView)
    ensures
        ({
            let t = g.cmd_rebase(args).0;
            let from = g.asked.len() as int;
            let k = from + 4;
            none_stored(t, from) || {
                &&& asks_tip(t, k)
                &&& tip_at(t, k) is Some
                &&& all_stored(
                    t,
                    from,
                    args.tip1,
                    tip_at(t, k)->0,
                    args.goal,
                    None,
                    args.manual,
                    args.dedupe_patches,
                    result_branch(t, k, args.branch, name_at(t, k, args.name)),
                )
            }
        }),
{
    broadcast use
        crate::harmless::works_require_clean_work_tree,
        crate::harmless::works_current_tip,
        crate::replay::goes_on_launch_and_drive,
    ;

    reveal(Talk::cmd_rebase);
    let t = g.cmd_rebase(args).0;
    lemma_clean(g);
    let (g1, clean) = g.require_clean_work_tree("proceed"@);
    assert(works(g, g1));
    if clean is Ok && checked_goal(args.goal) is Ok {
        lemma_current_tip(g1, args.name, args.branch);
        let (g2, r2) = g1.current_tip(args.name, args.branch);
        assert(works(g, g2));
        if let Ok((tip2, name, branch)) = r2 {
            let setup = SetupView {
                name,
                tip1: args.tip1,
                tip2,
                goal: args.goal,
                goalopts: None,
                manual: args.manual,
                dedupe_patches: args.dedupe_patches,
                branch: Some(branch),
            };
            stores_launch_and_drive(g2, setup, args.first_parent);
            assert(t == g2.launch_and_drive(setup, args.first_parent).0);
            assert(g2.grows_to(t));
            lemma_stored(g, g2, t, setup);
        } else {
            lemma_none_stored(g, t);
        }
    } else {
        lemma_none_stored(g, t);
    }
}

proof fn stores_init(g: Talk, args: InitArgsView)
    ensures
        ({
            let (t, r) = g.init_imerge(args);
            let from = g.asked.len() as int;
            let k = from + 4;
            &&& g.grows_to(t)
            &&& works(g, t) || {
                &&& args.name is Some
                &&& asks(t, k, current_branch(), None, None, false)
                &&& stores(g, t, init_plan(t, k, args))
                &&& r matches Ok(s) ==> is_stored(
                    stored_state(s, Seq::empty()),
                    init_plan(t, k, args),
                )
            }
            &&& r is Ok ==> !works(g, t)
        }),
{
    broadcast use
        stores_on,
        stores_nothing,
        crate::harmless::works_require_clean_work_tree,
        crate::harmless::works_get_head_refname,
        crate::harmless::works_get_boundaries,
        crate::replay::goes_on_get_boundaries,
        crate::replay::goes_on_require_clean_work_tree,
        crate::replay::goes_on_launch,
    ;

    let (t, r) = g.init_imerge(args);
    lemma_clean(g);
    let (g1, clean) = g.require_clean_work_tree("proceed"@);
    assert(works(g, g1));
    if clean is Ok && checked_goal(args.goal) is Ok && args.name is Some {
        lemma_head(g1);
        let (g2, r2) = g1.get_head_refname(true);
        assert(works(g, g2));
        if let Ok(head) = r2 {
            let tip1 = match head {
                Some(h) => h,
                None => "HEAD"@,
            };
            let (g3, r3) = g2.get_boundaries(tip1, args.tip2, args.first_parent);
            assert(works(g, g3));
            if let Ok(bounds) = r3 {
                let setup = SetupView {
                    name: args.name->0,
                    tip1,
                    tip2: args.tip2,
                    goal: args.goal,
                    goalopts: None,
                    manual: args.manual,
                    dedupe_patches: args.dedupe_patches,
                    branch: args.branch,
                };
                stores_launch(g3, setup, bounds);
                assert((t, r) == g3.launch(setup, bounds));
                assert(stores(g, g3, stored_setup(setup)));
                assert(init_plan(t, g.asked.len() as int + 4, args) == stored_setup(setup));
                lemma_launch_stores(g3, setup, bounds);
                if r is Ok {
                    lemma_not_harmless(g, g3, t);
                }
            }
        }
    }
}

/// What `init` and `start` store, where the question for the current branch stands at
/// `k`.
pub open spec fn init_plan(t: Talk, k: int, args: InitArgsView) -> StateDictView {
    StateDictView {
        version: Seq::empty(),
        blockers: Seq::empty(),
        tip1: Some(
            match answer_at(t, k) {
                Some(head) => head,
                None => "HEAD"@,
            },
        ),
        tip2: Some(args.tip2),
        goal: args.goal,
        goalopts: None,
        manual: args.manual,
        dedupe_patches: args.dedupe_patches,
        branch: Some(
            match args.branch {
                Some(b) => not_empty(b, args.name->0),
                None => args.name->0,
            },
        ),
    }
}

/// A new incremental merge is stored.
proof fn lemma_launch_stores(
    g: Talk,
    setup: SetupView,
    bounds: (Seq<char>, Seq<Seq<char>>, Seq<Seq<char>>),
)
    ensures
        g.launch(setup, bounds) matches (t, Ok(_)) ==> !none_stored(t, g.asked.len() as int),
{
    broadcast use
        crate::replay::goes_on_initialize,
        crate::replay::goes_on_save_cells,
        crate::replay::goes_on_maybe_set_default,
        crate::replay::goes_on_write_imerge_state_dict,
    ;

    reveal(Talk::launch);
    reveal(Talk::keep);
    reveal(Talk::save_imerge);
    if let (t, Ok(_)) = g.launch(setup, bounds) {
        let (h, r) = g.begin(setup, bounds);
        let s = r->Ok_0;
        let (k, grid, saved) = h.save_cells(s.grid, 0, 0, Seq::empty());
        let state = stored_state(s, saved->Ok_0);
        let (l, written) = k.write_imerge_state_dict(s.grid.name, state);
        let i = k.asked.len() as int;
        assert(l.asked[i] == RequestView::EncodeState(state));
        assert(g.grows_to(h) && h.grows_to(k) && k.grows_to(l) && l.grows_to(t));
        assert(t.asked[i] == RequestView::EncodeState(state));
    }
}

proof fn lemma_not_harmless(g: Talk, h: Talk, t: Talk)
    requires
        g.asked.len() <= h.asked.len(),
        !none_stored(t, h.asked.len() as int),
    ensures
        !works(g, t),
{
    if works(g, t) {
        reveal(works);
    }
}

/// `init` stores an incremental merge of the given branch into the current one, under
/// the given name. The result goes to the given branch, or to one with that name.
pub proof fn law_init_records_both_branches(g: Talk, args: InitArgsView)
    ensures
        ({
            let (t, r) = g.cmd_init(args);
            let from = g.asked.len() as int;
            let k = from + 4;
            &&& r is Ok ==> !none_stored(t, from)
            &&& none_stored(t, from) || {
                &&& args.name is Some
                &&& asks(t, k, current_branch(), None, None, false)
                &&& stores(g, t, init_plan(t, k, args))
            }
        }),
{
    reveal(Talk::cmd_init);
    stores_init(g, args);
    let (t, r) = g.init_imerge(args);
    if works(g, t) {
        lemma_none_stored(g, t);
    }
    if r is Ok {
        lemma_some_stored(g, args);
    }
}

proof fn lemma_some_stored(g: Talk, args: InitArgsView)
    ensures
        g.init_imerge(args) matches (t, Ok(_)) ==> !none_stored(t, g.asked.len() as int),
{
    broadcast use
        crate::replay::goes_on_get_boundaries,
        crate::replay::goes_on_require_clean_work_tree,
        crate::replay::goes_on_launch,
        crate::replay::goes_on_get_head_refname,
    ;

    let (g1, clean) = g.require_clean_work_tree("proceed"@);
    if clean is Ok && checked_goal(args.goal) is Ok && args.name is Some {
        let (g2, r2) = g1.get_head_refname(true);
        if let Ok(head) = r2 {
            let tip1 = match head {
                Some(h) => h,
                None => "HEAD"@,
            };
            let (g3, r3) = g2.get_boundaries(tip1, args.tip2, args.first_parent);
            if let Ok(bounds) = r3 {
                let setup = SetupView {
                    name: args.name->0,
                    tip1,
                    tip2: args.tip2,
                    goal: args.goal,
                    goalopts: None,
                    manual: args.manual,
                    dedupe_patches: args.dedupe_patches,
                    branch: args.branch,
                };
                lemma_launch_stores(g3, setup, bounds);
                assert(g1.asked.len() >= g.asked.len() && g2.asked.len() >= g1.asked.len()
                    && g3.asked.len() >= g2.asked.len());
            }
        }
    }
}

/// `start` stores the same as `init`, and goes on with it.
pub proof fn law_start_records_both_branches(g: Talk, args: InitArgsView)
    ensures
        ({
            let (t, r) = g.cmd_start(args);
            let from = g.asked.len() as int;
            let k = from + 4;
            &&& r is Ok ==> !none_stored(t, from)
            &&& none_stored(t, from) || {
                &&& args.name is Some
                &&& asks(t, k, current_branch(), None, None, false)
                &&& stores(g, t, init_plan(t, k, args))
            }
        }),
{
    broadcast use stores_on, crate::replay::goes_on_drive;

    reveal(Talk::cmd_start);
    stores_init(g, args);
    lemma_some_stored(g, args);
    let from = g.asked.len() as int;
    let (h, r) = g.init_imerge(args);
    let t = g.cmd_start(args).0;
    if let Ok(s) = r {
        stores_drive(h, s);
        let p = init_plan(h, from + 4, args);
        lemma_stores_same(h, t, stored_state(s, Seq::empty()), p);
        assert(h.grows_to(t));
        assert(init_plan(t, from + 4, args) == p);
        assert(stores(g, t, p));
        let i = choose|i: int| from <= i < h.asked.len() && (#[trigger] h.asked[i] is EncodeState);
        assert(t.asked[i] == h.asked[i]);
    } else if works(g, h) {
        lemma_none_stored(g, h);
    }
}

// ---------------------------------------------------------------------
// Something is stored
// ---------------------------------------------------------------------

/// The user was told that there is nothing to do.
pub open spec fn is_up_to_date(t: Talk) -> bool {
    t.told.len() > 0 && t.told.last() == MessageView::Stdout("Already up-to-date.\n"@)
}

proof fn lemma_launched(g: Talk, setup: SetupView, first_parent: bool, from: int)
    requires
        from <= g.asked.len(),
    ensures
        g.launch_and_drive(setup, first_parent) matches (t, Ok(_)) ==> is_up_to_date(t)
            || !none_stored(t, from),
{
    broadcast use
        crate::replay::goes_on_get_boundaries,
        crate::replay::goes_on_launch,
        crate::replay::goes_on_drive,
    ;

    reveal_strlit("Already up-to-date.");
    reveal_strlit("\n");
    reveal_strlit("Already up-to-date.\n");
    assert("Already up-to-date."@ + "\n"@ =~= "Already up-to-date.\n"@);
    let (h, r) = g.get_boundaries(setup.tip1, setup.tip2, first_parent);
    if let Ok(bounds) = r {
        lemma_launch_stores(h, setup, bounds);
        let (k, launched) = h.launch(setup, bounds);
        if let Ok(s) = launched {
            let t = k.drive(s).0;
            assert(g.grows_to(h) && h.grows_to(k) && k.grows_to(t));
            let i = choose|i: int|
                h.asked.len() <= i < k.asked.len() && (#[trigger] k.asked[i] is EncodeState);
            assert(t.asked[i] == k.asked[i]);
        }
    }
}

/// A merge that succeeds has stored an incremental merge, or there was nothing to do.
pub proof fn law_merge_is_stored(g: Talk, args: MergeArgsView)
    ensures
        g.cmd_merge(args) matches (t, Ok(_)) ==> is_up_to_date(t) || !none_stored(
            t,
            g.asked.len() as int,
        ),
{
    broadcast use
        crate::replay::goes_on_require_clean_work_tree,
        crate::replay::goes_on_merge_name,
        crate::replay::goes_on_merge_branch,
    ;

    reveal(Talk::cmd_merge);
    let (g1, r1) = g.require_clean_work_tree("proceed"@);
    let (g2, r2) = g1.merge_name(args);
    let (g3, r3) = g2.merge_branch(args);
    if g.cmd_merge(args).1 is Ok {
        let (tip1, branch) = r3->Ok_0;
        let setup = SetupView {
            name: r2->Ok_0,
            tip1,
            tip2: args.tip2,
            goal: args.goal,
            goalopts: None,
            manual: args.manual,
            dedupe_patches: args.dedupe_patches,
            branch,
        };
        assert(g.grows_to(g1) && g1.grows_to(g2) && g2.grows_to(g3));
        lemma_launched(g3, setup, args.first_parent, g.asked.len() as int);
    }
}

/// A rebase that succeeds has stored an incremental merge, or there was nothing to do.
pub proof fn law_rebase_is_stored(g: Talk, args: RebaseArgsView)
    ensures
        g.cmd_rebase(args) matches (t, Ok(_)) ==> is_up_to_date(t) || !none_stored(
            t,
            g.asked.len() as int,
        ),
{
    broadcast use
        crate::replay::goes_on_require_clean_work_tree,
        crate::replay::goes_on_current_tip,
    ;

    reveal(Talk::cmd_rebase);
    let (g1, r1) = g.require_clean_work_tree("proceed"@);
    let (g2, r2) = g1.current_tip(args.name, args.branch);
    if g.cmd_rebase(args).1 is Ok {
        let (tip2, name, branch) = r2->Ok_0;
        let setup = SetupView {
            name,
            tip1: args.tip1,
            tip2,
            goal: args.goal,
            goalopts: None,
            manual: args.manual,
            dedupe_patches: args.dedupe_patches,
            branch: Some(branch),
        };
        assert(g.grows_to(g1) && g1.grows_to(g2));
        lemma_launched(g2, setup, args.first_parent, g.asked.len() as int);
    }
}

/// A drop or a revert that succeeds has stored an incremental merge, or there was
/// nothing to do.
pub proof fn law_range_is_stored(g: Talk, args: RangeArgsView, goal: Seq<char>)
    ensures
        g.cmd_drop_or_revert(args, goal) matches (t, Ok(_)) ==> is_up_to_date(t) || !none_stored(
            t,
            g.asked.len() as int,
        ),
{
    broadcast use crate::replay::goes_on_range_setup;

    reveal(Talk::cmd_drop_or_revert);
    let (h, r) = g.range_setup(args, goal);
    if let Ok(setup) = r {
        assert(g.grows_to(h));
        lemma_launched(h, setup, args.first_parent, g.asked.len() as int);
    }
}

/// A new incremental merge keeps both branches: once it is saved there is a ref for the
/// merge base, one for each commit of the first branch along the one axis, and one for
/// each commit of the second branch along the other.
pub proof fn law_new_merge_keeps_both_branches(
    g: Talk,
    setup: SetupView,
    bounds: (Seq<char>, Seq<Seq<char>>, Seq<Seq<char>>),
    refs: Refs,
)
    requires
        forall|refname: Seq<char>| #[trigger]
            refs.contains_key(refname) ==> !is_below(setup.name, refname),
    ensures
        g.begin(setup, bounds) matches (h, Ok(s)) ==> (h.save_imerge(s) matches (t, _, Ok(_)) ==> {
            let left = refs_after(refs, t.asked, h.asked.len());
            let (base, commits1, commits2) = bounds;
            &&& s.grid.name == setup.name
            &&& holds(left, setup.name, 0, 0, base)
            &&& forall|i: int|
                0 <= i < commits1.len() ==> #[trigger] holds(
                    left,
                    setup.name,
                    i + 1,
                    0,
                    commits1[i],
                )
            &&& forall|i: int|
                0 <= i < commits2.len() ==> #[trigger] holds(
                    left,
                    setup.name,
                    0,
                    i + 1,
                    commits2[i],
                )
        }),
{
    let (base, commits1, commits2) = bounds;
    if let (h, Ok(s)) = g.begin(setup, bounds) {
        if let (t, later, Ok(_)) = h.save_imerge(s) {
            let left = refs_after(refs, t.asked, h.asked.len());
            let grid = s.grid;
            law_edge_grid_is_ready(
                setup.name,
                base,
                commits1,
                commits2,
                MergeRecord::NEW_MANUAL,
                setup.dedupe_patches,
            );
            law_a_new_grid_agrees(
                setup.name,
                base,
                commits1,
                commits2,
                setup.dedupe_patches,
                refs,
            );
            law_save_leaves_what_is_kept(h, s, refs);
            assert(((0u8 | 8) & 0xfd) & 0x0c != 0) by (bit_vector);
            assert forall|i1: int, i2: int|
                grid.has(i1, i2) && (i1 == 0 || i2 == 0) implies #[trigger] holds(
                left,
                setup.name,
                i1,
                i2,
                grid.commit(i1, i2),
            ) by {
                assert(grid.cell(i1, i2) == edge_cell(
                    base,
                    commits1,
                    commits2,
                    MergeRecord::NEW_MANUAL,
                    i1,
                    i2,
                ));
                assert(grid.cell(i1 as usize as int, i2 as usize as int).known());
            }
            assert(grid.has(0, 0) && grid.commit(0, 0) == base);
            assert(holds(left, setup.name, 0, 0, grid.commit(0, 0)));
            assert forall|i: int| 0 <= i < commits1.len() implies #[trigger] holds(
                left,
                setup.name,
                i + 1,
                0,
                commits1[i],
            ) by {
                assert(grid.has(i + 1, 0) && grid.commit(i + 1, 0) == commits1[i]);
                assert(holds(left, setup.name, i + 1, 0, grid.commit(i + 1, 0)));
            }
            assert forall|i: int| 0 <= i < commits2.len() implies #[trigger] holds(
                left,
                setup.name,
                0,
                i + 1,
                commits2[i],
            ) by {
                assert(grid.has(0, i + 1) && grid.commit(0, i + 1) == commits2[i]);
                assert(holds(left, setup.name, 0, i + 1, grid.commit(0, i + 1)));
            }
        }
    }
}

/// The ref for a commit of a branch points to it.
pub open spec fn holds(refs: Refs, name: Seq<char>, i1: int, i2: int, commit: Seq<char>) -> bool {
    let refname = "refs/imerge/"@ + name + "/"@ + "manual"@ + "/"@ + decimal(i1 as nat) + "-"@
        + decimal(i2 as nat);
    refs.contains_key(refname) && refs[refname] == commit
}

} // verus!
