//! What is done while merges are made.
//!
//! Before an incremental merge is saved, and while its frontier is pushed forward,
//! commits are looked at, checked out, merged and written. No ref is changed, no state
//! is stored and no branch is moved. The law comes first. Behind it stands one lemma
//! for each operation; they all have the same shape.
use vstd::prelude::*;

use crate::block::{GridView, Rect};
use crate::cli::{MergeArgsView, RangeArgsView};
use crate::error::ErrorView;
use crate::expand::{after_failure, failure_marked, first_with_blocks};
use crate::fill::{added, CellsView};
use crate::frontier::{both_sides, without_failure};
use crate::git::{count_in, merge_args};
use crate::imerge::merge_commits;
use crate::state::GoalOptsView;
use crate::strategy::{manual_request, FrontierView};
use crate::talk::{EMPTY_TREE_SHA1, Talk};
use crate::trace::{works, works_call, works_on, works_same};

verus! {

broadcast use works_call, works_on, works_same;

/// Pushing a frontier forward changes no ref and stores nothing.
pub proof fn law_expanding_is_harmless(f: FrontierView, g: Talk, grid: GridView)
    ensures
        works(g, f.auto_expand(g, grid).0),
{
    broadcast use works_frontier;

}

pub(crate) broadcast proof fn works_tell(g: Talk, text: Seq<char>)
    ensures
        works(g, #[trigger] g.tell(text)),
{
}

pub(crate) broadcast proof fn works_check_imerge_name_format(g: Talk, name: Seq<char>)
    ensures
        works(g, (#[trigger] g.check_imerge_name_format(name)).0),
{
}

pub(crate) broadcast proof fn works_check_branch_name_format(g: Talk, name: Seq<char>)
    ensures
        works(g, (#[trigger] g.check_branch_name_format(name)).0),
{
}

pub(crate) broadcast proof fn works_unstaged_changes(g: Talk)
    ensures
        works(g, (#[trigger] g.unstaged_changes()).0),
{
}

pub(crate) broadcast proof fn works_uncommitted_changes(g: Talk)
    ensures
        works(g, (#[trigger] g.uncommitted_changes()).0),
{
}

pub(crate) broadcast proof fn works_rev_parse(g: Talk, arg: Seq<char>)
    ensures
        works(g, (#[trigger] g.rev_parse(arg)).0),
{
}

pub(crate) broadcast proof fn works_rev_parse_required(g: Talk, arg: Seq<char>)
    ensures
        works(g, (#[trigger] g.rev_parse_required(arg)).0),
{
    broadcast use works_rev_parse;

}

pub(crate) broadcast proof fn works_get_commit_sha1(g: Talk, arg: Seq<char>)
    ensures
        works(g, (#[trigger] g.get_commit_sha1(arg)).0),
{
    broadcast use works_rev_parse;

}

pub(crate) broadcast proof fn works_refresh_index(g: Talk)
    ensures
        works(g, (#[trigger] g.refresh_index()).0),
{
}

pub(crate) broadcast proof fn works_require_clean_work_tree(g: Talk, action: Seq<char>)
    ensures
        works(g, (#[trigger] g.require_clean_work_tree(action)).0),
{
    broadcast use works_refresh_index, works_unstaged_changes, works_uncommitted_changes;

}

pub(crate) broadcast proof fn works_abort_merge(g: Talk)
    ensures
        works(g, (#[trigger] g.abort_merge()).0),
{
}

pub(crate) broadcast proof fn works_automerge_with_strategy(
    g: Talk,
    commit1: Seq<char>,
    commit2: Seq<char>,
    msg: Option<Seq<char>>,
    global_opts: Seq<Seq<char>>,
    extra: Seq<Seq<char>>,
)
    ensures
        works(g, (#[trigger] g.automerge_with_strategy(commit1, commit2, msg, global_opts, extra)).0),
{
    broadcast use works_get_commit_sha1, works_abort_merge;

    assert(merge_args(commit2, msg, global_opts, extra)[0] == "-c"@);
}

pub(crate) broadcast proof fn works_empty_attributes_file(g: Talk)
    ensures
        works(g, (#[trigger] g.empty_attributes_file()).0),
{
    reveal(works);
}

pub(crate) broadcast proof fn works_automerge_prefer_ours(
    g: Talk,
    commit1: Seq<char>,
    commit2: Seq<char>,
    msg: Option<Seq<char>>,
)
    ensures
        works(g, (#[trigger] g.automerge_prefer_ours(commit1, commit2, msg)).0),
{
    broadcast use works_empty_attributes_file, works_automerge_with_strategy;

}

pub(crate) broadcast proof fn works_get_head_refname(g: Talk, short: bool)
    ensures
        works(g, (#[trigger] g.get_head_refname(short)).0),
{
}

pub(crate) broadcast proof fn works_get_commit_parents(g: Talk, commit: Seq<char>)
    ensures
        works(g, (#[trigger] g.get_commit_parents(commit)).0),
{
}

pub(crate) broadcast proof fn works_rev_list_with_parents(g: Talk, args: Seq<Seq<char>>)
    ensures
        works(g, (#[trigger] g.rev_list_with_parents(args)).0),
{
}

pub(crate) broadcast proof fn works_change_id(g: Talk, base: Seq<char>, commit: Seq<char>)
    ensures
        works(g, (#[trigger] g.change_id(base, commit)).0),
{
}

pub(crate) broadcast proof fn works_patch_id(g: Talk, commit: Seq<char>)
    ensures
        works(g, (#[trigger] g.patch_id(commit)).0),
{
    broadcast use works_get_commit_parents, works_change_id;

    let t = g.patch_id(commit).0;
    let (h, parents) = g.get_commit_parents(commit);
    if let Ok(p) = parents {
        let base = if p.len() == 1 {
            p[0]
        } else {
            EMPTY_TREE_SHA1@
        };
        assert(t.asked == h.asked ==> works(h, t));
        assert(t.asked == h.change_id(base, commit).0.asked ==> works(
            h.change_id(base, commit).0,
            t,
        ));
    }
}

pub(crate) broadcast proof fn works_best_base(
    g: Talk,
    bases: Seq<Seq<char>>,
    i: nat,
    tip1: Seq<char>,
    best: Option<(Seq<char>, u64)>,
)
    ensures
        works(g, (#[trigger] g.best_base(bases, i, tip1, best)).0),
    decreases bases.len() - i,
{
    if i < bases.len() {
        let base = bases[i as int];
        if let (h, Ok(out)) = g.run(
            seq!["rev-list"@, "--no-merges"@, "--count"@, base + ".."@ + tip1],
        ) {
            if best is None || count_in(out) < (best->0).1 {
                works_best_base(h, bases, i + 1, tip1, Some((base, count_in(out))));
            } else {
                works_best_base(h, bases, i + 1, tip1, best);
            }
        }
    }
}

pub(crate) broadcast proof fn works_compute_best_merge_base(g: Talk, tip1: Seq<char>, tip2: Seq<char>)
    ensures
        works(g, (#[trigger] g.compute_best_merge_base(tip1, tip2)).0),
{
    broadcast use works_best_base;

}

pub(crate) broadcast proof fn works_linear_ancestry(
    g: Talk,
    commit1: Seq<char>,
    commit2: Seq<char>,
    first_parent: bool,
)
    ensures
        works(g, (#[trigger] g.linear_ancestry(commit1, commit2, first_parent)).0),
{
    broadcast use works_rev_parse_required, works_rev_list_with_parents;

}

pub(crate) broadcast proof fn works_get_boundaries(
    g: Talk,
    tip1: Seq<char>,
    tip2: Seq<char>,
    first_parent: bool,
)
    ensures
        works(g, (#[trigger] g.get_boundaries(tip1, tip2, first_parent)).0),
{
    broadcast use works_compute_best_merge_base, works_linear_ancestry;

}

pub(crate) broadcast proof fn works_reparent(
    g: Talk,
    commit: Seq<char>,
    parents: Seq<Seq<char>>,
    msg: Option<Seq<char>>,
)
    ensures
        works(g, (#[trigger] g.reparent(commit, parents, msg)).0),
{
}

pub(crate) broadcast proof fn works_for_each_ref(g: Talk, pattern: Seq<char>)
    ensures
        works(g, (#[trigger] g.for_each_ref(pattern)).0),
{
}

pub(crate) broadcast proof fn works_verify_imerge_name_available(g: Talk, name: Seq<char>)
    ensures
        works(g, (#[trigger] g.verify_imerge_name_available(name)).0),
{
    broadcast use works_check_imerge_name_format, works_for_each_ref;

}

pub(crate) broadcast proof fn works_same_patch(g: Talk, grid: GridView, a1: int, a2: int)
    ensures
        works(g, (#[trigger] g.same_patch(grid, a1, a2)).0),
{
    broadcast use works_patch_id;

}

pub(crate) broadcast proof fn works_merge_cell(
    g: Talk,
    grid: GridView,
    commit1: Seq<char>,
    commit2: Seq<char>,
    msg: Option<Seq<char>>,
    a1: int,
    a2: int,
    single: bool,
)
    ensures
        works(g, (#[trigger] g.merge_cell(grid, commit1, commit2, msg, a1, a2, single)).0),
{
    broadcast use works_automerge_with_strategy, works_same_patch, works_automerge_prefer_ours;

    reveal(Talk::merge_cell);
}

pub(crate) broadcast proof fn works_probe(g: Talk, grid: GridView, rect: Rect, n1: int, n2: int)
    ensures
        works(g, (#[trigger] g.probe(grid, rect, n1, n2)).0),
{
    broadcast use works_tell, works_merge_cell;

}

pub(crate) broadcast proof fn works_fill_cell(
    g: Talk,
    grid: GridView,
    at: (usize, usize),
    above: (usize, usize),
    left: (usize, usize),
)
    ensures
        works(g, (#[trigger] g.fill_cell(grid, at, above, left)).0),
{
    broadcast use works_tell, works_merge_cell;

}

pub(crate) broadcast proof fn works_outline_cell(
    g: Talk,
    grid: GridView,
    rect: Rect,
    n1: usize,
    commit1: Seq<char>,
    n2: usize,
    commit2: Seq<char>,
    way: Seq<char>,
    single: bool,
)
    ensures
        works(g, (#[trigger] g.outline_cell(grid, rect, n1, commit1, n2, commit2, way, single)).0),
{
    broadcast use works_tell, works_merge_cell;

    reveal(Talk::outline_cell);
}

pub(crate) broadcast proof fn works_outline_lower(
    g: Talk,
    grid: GridView,
    rect: Rect,
    n1: usize,
    left: Seq<char>,
    merges: CellsView,
)
    ensures
        works(g, (#[trigger] g.outline_lower(grid, rect, n1, left, merges)).0),
    decreases rect.len1 - n1,
{
    broadcast use works_outline_cell;

    let n2 = (rect.len2 - 1) as usize;
    if n1 + 1 < rect.len1 {
        let commit1 = grid.commit(rect.origin1 + n1, rect.origin2 as int);
        let cell = g.outline_cell(grid, rect, n1, commit1, n2, left, "..."@, n2 == 1);
        if let (h, Ok((sha1, new))) = cell {
            let next = added(merges, n1, n2, sha1, new);
            works_outline_lower(h, grid, rect, (n1 + 1) as usize, sha1, next);
        }
    }
}

pub(crate) broadcast proof fn works_outline_right(
    g: Talk,
    grid: GridView,
    rect: Rect,
    n2: usize,
    above: Seq<char>,
    merges: CellsView,
)
    ensures
        works(g, (#[trigger] g.outline_right(grid, rect, n2, above, merges)).0),
    decreases rect.len2 - n2,
{
    broadcast use works_outline_cell;

    let n1 = (rect.len1 - 1) as usize;
    if n2 + 1 < rect.len2 {
        let commit2 = grid.commit(rect.origin1 as int, rect.origin2 + n2);
        let cell = g.outline_cell(grid, rect, n1, above, n2, commit2, "..."@, n1 == 1);
        if let (h, Ok((sha1, new))) = cell {
            let next = added(merges, n1, n2, sha1, new);
            works_outline_right(h, grid, rect, (n2 + 1) as usize, sha1, next);
        }
    }
}

pub(crate) broadcast proof fn works_outline_vertex(
    g: Talk,
    grid: GridView,
    rect: Rect,
    above: Seq<char>,
    left: Seq<char>,
)
    ensures
        works(g, (#[trigger] g.outline_vertex(grid, rect, above, left)).0),
{
    broadcast use works_tell, works_outline_cell, works_rev_parse_required, works_reparent;

    reveal(Talk::outline_vertex);
}

pub(crate) broadcast proof fn works_outline_corner(
    g: Talk,
    grid: GridView,
    rect: Rect,
    above: Seq<char>,
    left: Seq<char>,
    merges: CellsView,
)
    ensures
        works(g, (#[trigger] g.outline_corner(grid, rect, above, left, merges)).0),
{
    broadcast use works_outline_vertex, works_outline_cell;

}

pub(crate) broadcast proof fn works_outline(g: Talk, grid: GridView, rect: Rect)
    ensures
        works(g, (#[trigger] g.outline(grid, rect)).0),
{
    broadcast use works_outline_lower, works_outline_right, works_outline_corner;

}

pub(crate) broadcast proof fn works_auto_outline(g: Talk, grid: GridView, rect: Rect)
    ensures
        works(g, (#[trigger] g.auto_outline(grid, rect)).0),
{
    broadcast use works_tell, works_outline;

}

pub(crate) broadcast proof fn works_bisect(
    g: Talk,
    grid: GridView,
    block: Rect,
    along1: bool,
    fixed: usize,
    lo: usize,
    hi: usize,
)
    ensures
        works(g, (#[trigger] g.bisect(grid, block, along1, fixed, lo, hi)).0),
    decreases hi - lo,
{
    broadcast use works_probe;

    if lo < hi {
        let mid = (lo + (hi - lo) / 2) as usize;
        let (h, answer) = if along1 {
            g.probe(grid, block, mid as int, fixed as int)
        } else {
            g.probe(grid, block, fixed as int, mid as int)
        };
        if let Ok(can) = answer {
            if can {
                works_bisect(h, grid, block, along1, fixed, (mid + 1) as usize, hi);
            } else {
                works_bisect(h, grid, block, along1, fixed, lo, mid);
            }
        }
    }
}

pub(crate) broadcast proof fn works_reaches_end(g: Talk, grid: GridView, block: Rect, i1: usize, i2: usize)
    ensures
        works(g, (#[trigger] g.reaches_end(grid, block, i1, i2)).0),
{
    broadcast use works_probe;

}

pub(crate) broadcast proof fn works_descend(
    g: Talk,
    grid: GridView,
    block: Rect,
    i1: usize,
    i2: usize,
    found: Seq<Rect>,
)
    ensures
        works(g, (#[trigger] g.descend(grid, block, i1, i2, found)).0),
    decreases i2,
{
    broadcast use works_reaches_end, works_bisect, works_probe;

    if i2 > 2 {
        if let (h, Ok(false)) = g.reaches_end(grid, block, i1, i2) {
            let last = (block.len1 - 1) as usize;
            if let (h, Ok(n1)) = h.bisect(
                grid,
                block,
                true,
                (i2 - 1) as usize,
                (i1 + 1) as usize,
                last,
            ) {
                let next = found.push(block.part(0, n1 as int, 0, i2 as int));
                if let (h, Ok(true)) = h.probe(grid, block, n1 as int, 1) {
                    if let (h, Ok(n2)) = h.bisect(grid, block, false, n1, 2, (i2 - 1) as usize) {
                        if n2 < i2 {
                            works_descend(h, grid, block, n1, n2, next);
                        }
                    }
                }
            }
        }
    }
}

pub(crate) broadcast proof fn works_find_frontier_blocks(g: Talk, grid: GridView, block: Rect)
    ensures
        works(g, (#[trigger] g.find_frontier_blocks(grid, block)).0),
{
    broadcast use works_probe, works_bisect, works_descend;

}

pub(crate) broadcast proof fn works_pursue(
    g: Talk,
    grid: GridView,
    top: Rect,
    top_blocks: Seq<Rect>,
    cur: Rect,
    cur_blocks: Seq<Rect>,
    is_top: bool,
)
    ensures
        works(g, (#[trigger] g.pursue(grid, top, top_blocks, cur, cur_blocks, is_top)).0),
    decreases g.remaining(), cur.len1,
{
    broadcast use works_auto_outline;

    if cur_blocks.len() > 0 {
        let target = cur_blocks[0];
        match g.auto_outline(grid, target) {
            (h, after, Err(ErrorView::UnexpectedMergeFailure { i1, i2, .. })) => {
                let left = without_failure(cur_blocks, i1 as int, i2 as int);
                let top_left = if is_top {
                    left
                } else {
                    after_failure(top, top_blocks, target, i1, i2)
                };
                if h.remaining() < g.remaining() {
                    let marked = failure_marked(after, target, i1, i2);
                    works_pursue(h, marked, top, top_left, cur, left, is_top);
                }
            },
            (h, after, Ok(_)) => {
                if let Some((next, next_blocks)) = first_with_blocks(
                    both_sides(cur, cur_blocks, target),
                ) {
                    if h.remaining() <= g.remaining() && next.len1 < cur.len1 {
                        works_pursue(h, after, top, top_blocks, next, next_blocks, false);
                    }
                }
            },
            _ => {},
        }
    }
}

pub(crate) broadcast proof fn works_initiate_merge(g: Talk, grid: GridView, block: Rect)
    ensures
        works(g, (#[trigger] g.initiate_merge(grid, block)).0),
{
    broadcast use works_find_frontier_blocks, works_pursue;

    reveal(Talk::initiate_merge);
}

pub(crate) broadcast proof fn works_fill_row(
    g: Talk,
    grid: GridView,
    block: Rect,
    i1: usize,
    i2: usize,
    len2: usize,
)
    ensures
        works(g, (#[trigger] g.fill_row(grid, block, i1, i2, len2)).0),
    decreases len2 - i2,
{
    broadcast use works_fill_cell;

    if i2 < len2 {
        let a1 = (block.origin1 + i1) as usize;
        let a2 = (block.origin2 + i2) as usize;
        if grid.known(a1 as int, a2 as int) {
            works_fill_row(g, grid, block, i1, (i2 + 1) as usize, len2);
        } else if let (h, after, Ok(true)) = g.fill_cell(
            grid,
            (a1, a2),
            ((a1 - 1) as usize, a2),
            (a1, (a2 - 1) as usize),
        ) {
            works_fill_row(h, after, block, i1, (i2 + 1) as usize, len2);
        }
    }
}

pub(crate) broadcast proof fn works_fill_rows(
    g: Talk,
    grid: GridView,
    block: Rect,
    i1: usize,
    len2: usize,
    blocker: Option<(usize, usize)>,
)
    ensures
        works(g, (#[trigger] g.fill_rows(grid, block, i1, len2, blocker)).0),
    decreases block.len1 - i1,
{
    broadcast use works_fill_row;

    if i1 < block.len1 {
        if let (h, after, Ok(stop)) = g.fill_row(grid, block, i1, 1, len2) {
            match stop {
                None => {
                    works_fill_rows(h, after, block, (i1 + 1) as usize, len2, blocker);
                },
                Some(i2) => {
                    let first = match blocker {
                        Some(b) => Some(b),
                        None => Some(
                            ((block.origin1 + i1) as usize, (block.origin2 + i2) as usize),
                        ),
                    };
                    works_fill_rows(h, after, block, (i1 + 1) as usize, i2, first);
                },
            }
        }
    }
}

pub(crate) broadcast proof fn works_full_auto_expand(g: Talk, grid: GridView, block: Rect)
    ensures
        works(g, (#[trigger] g.full_auto_expand(grid, block)).0),
{
    broadcast use works_fill_rows;

}

pub(crate) broadcast proof fn works_expand_regions(g: Talk, grid: GridView, regions: Seq<Rect>, k: nat)
    ensures
        works(g, (#[trigger] g.expand_regions(grid, regions, k)).0),
    decreases regions.len() - k,
{
    broadcast use works_initiate_merge;

    if k < regions.len() {
        if let (h, after, Ok(_)) = g.initiate_merge(grid, regions[k as int]) {
            works_expand_regions(h, after, regions, k + 1);
        }
    }
}

pub(crate) broadcast proof fn works_blockwise_auto_expand(
    g: Talk,
    grid: GridView,
    top: Rect,
    blocks: Seq<Rect>,
)
    ensures
        works(g, (#[trigger] g.blockwise_auto_expand(grid, top, blocks)).0),
{
    broadcast use works_expand_regions;

}

pub(crate) broadcast proof fn works_frontier(f: FrontierView, g: Talk, grid: GridView)
    ensures
        works(g, (#[trigger] f.auto_expand(g, grid)).0),
{
    broadcast use works_full_auto_expand, works_blockwise_auto_expand;

    if let FrontierView::Manual(b) = f {
        assert(!(manual_request(grid, b) is Suspended));
    }
}

pub(crate) broadcast proof fn works_merge_commits(
    g: Talk,
    commits: Seq<Seq<char>>,
    i: nat,
    bad: Seq<Seq<char>>,
)
    ensures
        works(g, (#[trigger] merge_commits(g, commits, i, bad)).0),
    decreases commits.len() - i,
{
    broadcast use works_get_commit_parents;

    if i < commits.len() {
        if let (h, Ok(parents)) = g.get_commit_parents(commits[i as int]) {
            works_merge_commits(h, commits, i + 1, bad.push(commits[i as int]));
            works_merge_commits(h, commits, i + 1, bad);
        }
    }
}

pub(crate) broadcast proof fn works_check_no_merges(g: Talk, commits: Seq<Seq<char>>)
    ensures
        works(g, (#[trigger] g.check_no_merges(commits)).0),
{
    broadcast use works_merge_commits;

}

pub(crate) broadcast proof fn works_chosen_branch(g: Talk, name: Seq<char>, branch: Option<Seq<char>>)
    ensures
        works(g, (#[trigger] g.chosen_branch(name, branch)).0),
{
    broadcast use works_check_branch_name_format;

}

pub(crate) broadcast proof fn works_initialize(
    g: Talk,
    name: Seq<char>,
    base: Seq<char>,
    tips: (Seq<char>, Seq<char>),
    commits: (Seq<Seq<char>>, Seq<Seq<char>>),
    goal: Seq<char>,
    goalopts: Option<GoalOptsView>,
    manual: bool,
    dedupe_patches: bool,
    branch: Option<Seq<char>>,
)
    ensures
        works(g, (#[trigger] g.initialize(
                name,
                base,
                tips,
                commits,
                goal,
                goalopts,
                manual,
                dedupe_patches,
                branch,
            )).0),
{
    broadcast use
        works_verify_imerge_name_available,
        works_chosen_branch,
        works_check_no_merges,
    ;

}

pub(crate) broadcast proof fn works_parse_range(g: Talk, range: Seq<char>)
    ensures
        works(g, (#[trigger] g.parse_range(range)).0),
{
    broadcast use works_rev_parse_required;

}

pub(crate) broadcast proof fn works_is_branch_name(g: Talk, name: Seq<char>)
    ensures
        works(g, (#[trigger] g.is_branch_name(name)).0),
{
    broadcast use works_check_branch_name_format;

}

pub(crate) broadcast proof fn works_branch_for(g: Talk, branch: Option<Seq<char>>, current: Seq<char>)
    ensures
        works(g, (#[trigger] g.branch_for(branch, current)).0),
{
    broadcast use works_is_branch_name;

}

pub(crate) broadcast proof fn works_current_tip(g: Talk, name: Option<Seq<char>>, branch: Option<Seq<char>>)
    ensures
        works(g, (#[trigger] g.current_tip(name, branch)).0),
{
    broadcast use works_get_head_refname, works_branch_for, works_rev_parse_required;

}

pub(crate) broadcast proof fn works_merge_name(g: Talk, args: MergeArgsView)
    ensures
        works(g, (#[trigger] g.merge_name(args)).0),
{
    broadcast use works_check_imerge_name_format;

}

pub(crate) broadcast proof fn works_merge_branch(g: Talk, args: MergeArgsView)
    ensures
        works(g, (#[trigger] g.merge_branch(args)).0),
{
    broadcast use works_get_head_refname, works_branch_for;

}

pub(crate) broadcast proof fn works_revert(g: Talk, commit: Seq<char>)
    ensures
        works(g, (#[trigger] g.revert(commit)).0),
{
    broadcast use works_get_commit_parents;

}

pub(crate) broadcast proof fn works_revert_all(g: Talk, commits: Seq<Seq<char>>, n: nat)
    ensures
        works(g, (#[trigger] g.revert_all(commits, n)).0),
    decreases n,
{
    broadcast use works_revert;

    if n > 0 {
        if let (h, Ok(_)) = g.revert(commits[n - 1]) {
            works_revert_all(h, commits, (n - 1) as nat);
        }
    }
}

pub(crate) broadcast proof fn works_undo(g: Talk, end: Seq<char>, commits: Seq<Seq<char>>)
    ensures
        works(g, (#[trigger] g.undo(end, commits)).0),
{
    broadcast use works_revert_all, works_rev_parse_required;

}

pub(crate) broadcast proof fn works_range_setup(g: Talk, args: RangeArgsView, goal: Seq<char>)
    ensures
        works(g, (#[trigger] g.range_setup(args, goal)).0),
{
    broadcast use
        works_require_clean_work_tree,
        works_parse_range,
        works_linear_ancestry,
        works_current_tip,
        works_undo,
    ;

}

} // verus!
