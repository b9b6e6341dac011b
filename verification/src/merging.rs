//! What is merged for a cell of the grid.
//!
//! The laws here speak of the commands that were run: which commit was checked out,
//! which one was merged into it, and what is recorded of the outcome.
use vstd::prelude::*;

use crate::block::{lemma_grid_grows, lemma_with_grows, GridView, Rect};
use crate::error::ErrorView;
use crate::fill::{auto_message, coordinates};
use crate::git::{as_commit, merge_args, OutcomeView};
use crate::history::{law_known_patch_id_stays_known, law_patch_id_of_a_new_commit};
use crate::rowwise::{is_outside, lemma_fill_row, lemma_merge_error};
use crate::strategy::FrontierView;
use crate::talk::{latest, ReplyView, Talk, Told};
use crate::text::{decimal, trimmed};
use crate::trace::{asks, did, failed, said};

verus! {

/// The command that merges `second` into what is checked out.
pub open spec fn plain_merge(second: Seq<char>, msg: Option<Seq<char>>) -> Seq<Seq<char>> {
    match msg {
        Some(m) => seq!["-c"@, "rerere.enabled=false"@, "merge"@, "-m"@, m, second],
        None => seq!["-c"@, "rerere.enabled=false"@, "merge"@, second],
    }
}

/// The command that does the same, with what is checked out preferred and with the
/// attributes in the file `path`.
pub open spec fn preferring_merge(path: Seq<char>, second: Seq<char>, msg: Option<Seq<char>>) -> Seq<
    Seq<char>,
> {
    match msg {
        Some(m) => seq![
            "-c"@,
            "rerere.enabled=false"@,
            "-c"@,
            "core.attributesFile="@ + path,
            "merge"@,
            "-X"@,
            "ours"@,
            "-m"@,
            m,
            second,
        ],
        None => seq![
            "-c"@,
            "rerere.enabled=false"@,
            "-c"@,
            "core.attributesFile="@ + path,
            "merge"@,
            "-X"@,
            "ours"@,
            second,
        ],
    }
}

/// The command that checks a commit out, whatever the work tree holds.
pub open spec fn forced_checkout(commit: Seq<char>) -> Seq<Seq<char>> {
    seq!["checkout"@, "-f"@, commit]
}

/// The command that prints the current commit.
pub open spec fn current_commit() -> Seq<Seq<char>> {
    seq!["rev-parse"@, "--verify"@, "--quiet"@, "HEAD^{commit}"@]
}

/// From `k` on, `first` was checked out and `second` merged into it; the commit that
/// was made is `result`.
pub open spec fn merged_at(
    t: Talk,
    k: int,
    first: Seq<char>,
    second: Seq<char>,
    msg: Option<Seq<char>>,
    result: Seq<char>,
) -> bool {
    &&& did(t, k, forced_checkout(first))
    &&& did(t, k + 1, plain_merge(second, msg))
    &&& did(t, k + 2, current_commit())
    &&& result == trimmed(said(t, k + 2))
}

/// From `k` on, `first` was checked out, but `second` could not be merged into it;
/// the merge was given up.
pub open spec fn conflicted_at(
    t: Talk,
    k: int,
    first: Seq<char>,
    second: Seq<char>,
    msg: Option<Seq<char>>,
) -> bool {
    &&& did(t, k, forced_checkout(first))
    &&& failed(t, k + 1, plain_merge(second, msg))
    &&& asks(t, k + 2, seq!["reset"@, "--merge"@], None, None, false)
}

/// From `k` on, `first` was checked out and `second` merged into it with `first`
/// preferred; the commit that was made is `result`.
pub open spec fn preferred_at(
    t: Talk,
    k: int,
    first: Seq<char>,
    second: Seq<char>,
    msg: Option<Seq<char>>,
    result: Seq<char>,
) -> bool {
    &&& 0 <= k < t.asked.len()
    &&& k < t.replies.len()
    &&& t.asked[k] is EmptyAttributesFile
    &&& t.replies[k] matches ReplyView::Text(path) && {
        &&& did(t, k + 1, forced_checkout(first))
        &&& did(t, k + 2, preferring_merge(path, second, msg))
        &&& did(t, k + 3, current_commit())
        &&& result == trimmed(said(t, k + 3))
    }
}

/// From `k` on, `first` was checked out, but even with `first` preferred `second`
/// could not be merged into it.
pub open spec fn not_preferred_at(
    t: Talk,
    k: int,
    first: Seq<char>,
    second: Seq<char>,
    msg: Option<Seq<char>>,
) -> bool {
    &&& 0 <= k < t.asked.len()
    &&& k < t.replies.len()
    &&& t.asked[k] is EmptyAttributesFile
    &&& t.replies[k] matches ReplyView::Text(path) && {
        &&& did(t, k + 1, forced_checkout(first))
        &&& failed(t, k + 2, preferring_merge(path, second, msg))
    }
}

/// The grid asks for equal changes to be found, and the two branch commits that meet
/// in the cell `(a1, a2)` have the same patch id.
pub open spec fn is_same_change(t: Talk, grid: GridView, a1: int, a2: int) -> bool {
    &&& grid.dedupe_patches
    &&& grid.known(a1, 0)
    &&& grid.known(0, a2)
    &&& latest(t.patch_ids, grid.commit(a1, 0)) matches Some(Some(_))
    &&& latest(t.patch_ids, grid.commit(a1, 0)) == latest(t.patch_ids, grid.commit(0, a2))
}

/// The grid does not ask for equal changes to be found, or the two branch commits
/// that meet in the cell `(a1, a2)` have not the same patch id.
pub open spec fn is_other_change(t: Talk, grid: GridView, a1: int, a2: int) -> bool {
    ||| !grid.dedupe_patches
    ||| !grid.known(a1, 0)
    ||| !grid.known(0, a2)
    ||| latest(t.patch_ids, grid.commit(a1, 0)) == Some(None::<Seq<char>>)
    ||| {
        &&& latest(t.patch_ids, grid.commit(a1, 0)) is Some
        &&& latest(t.patch_ids, grid.commit(0, a2)) is Some
        &&& latest(t.patch_ids, grid.commit(a1, 0)) != latest(t.patch_ids, grid.commit(0, a2))
    }
}

/// The cell `(a1, a2)` was merged from `first` and `second` at `k`: plainly, or, after
/// a conflict between two commits that make the same change, with `first` preferred.
pub open spec fn made_at(
    t: Talk,
    k: int,
    grid: GridView,
    first: Seq<char>,
    second: Seq<char>,
    msg: Option<Seq<char>>,
    a1: int,
    a2: int,
    single: bool,
    result: Seq<char>,
) -> bool {
    ||| merged_at(t, k, first, second, msg, result)
    ||| {
        &&& conflicted_at(t, k, first, second, msg)
        &&& single
        &&& is_same_change(t, grid, a1, a2)
        &&& exists|j: int| k + 2 < j && #[trigger] preferred_at(t, j, first, second, msg, result)
    }
}

/// The cell `(a1, a2)` could not be merged from `first` and `second` at `k`, not even
/// with `first` preferred where the two sides make the same change.
pub open spec fn refused_at(
    t: Talk,
    k: int,
    grid: GridView,
    first: Seq<char>,
    second: Seq<char>,
    msg: Option<Seq<char>>,
    a1: int,
    a2: int,
    single: bool,
) -> bool {
    &&& conflicted_at(t, k, first, second, msg)
    &&& !single || is_other_change(t, grid, a1, a2) || exists|j: int|
        k + 2 < j && #[trigger] not_preferred_at(t, j, first, second, msg)
}

proof fn lemma_merge_commands(path: Seq<char>, second: Seq<char>, msg: Option<Seq<char>>)
    ensures
        merge_args(second, msg, seq![], seq![]) == plain_merge(second, msg),
        merge_args(
            second,
            msg,
            seq!["-c"@, "core.attributesFile="@ + path],
            seq!["-X"@, "ours"@],
        ) == preferring_merge(path, second, msg),
        as_commit("HEAD"@) == "HEAD^{commit}"@,
{
    reveal_strlit("HEAD");
    reveal_strlit("^{commit}");
    reveal_strlit("HEAD^{commit}");
    assert(as_commit("HEAD"@) =~= "HEAD^{commit}"@);
    assert(merge_args(second, msg, seq![], seq![]) =~= plain_merge(second, msg));
    assert(merge_args(
        second,
        msg,
        seq!["-c"@, "core.attributesFile="@ + path],
        seq!["-X"@, "ours"@],
    ) =~= preferring_merge(path, second, msg));
}

proof fn lemma_automerge(
    g: Talk,
    first: Seq<char>,
    second: Seq<char>,
    msg: Option<Seq<char>>,
    opts: Seq<Seq<char>>,
    extra: Seq<Seq<char>>,
)
    ensures
        ({
            let (t, r) = g.automerge_with_strategy(first, second, msg, opts, extra);
            let k = g.asked.len() as int;
            let args = merge_args(second, msg, opts, extra);
            &&& g.grows_to(t)
            &&& match r {
                Ok(OutcomeView::Success(result)) => {
                    &&& did(t, k, forced_checkout(first))
                    &&& did(t, k + 1, args)
                    &&& did(t, k + 2, current_commit())
                    &&& result == trimmed(said(t, k + 2))
                    &&& t.asked.len() == k + 3
                },
                Ok(OutcomeView::Conflict) => {
                    &&& did(t, k, forced_checkout(first))
                    &&& failed(t, k + 1, args)
                    &&& asks(t, k + 2, seq!["reset"@, "--merge"@], None, None, false)
                    &&& t.asked.len() == k + 3
                },
                Err(e) => true,
            }
        }),
{
    broadcast use crate::talk::lemma_learns_nothing;

    lemma_merge_commands(Seq::empty(), second, msg);
}

/// Whether two commits make the same change is found out by their patch ids.
proof fn lemma_same_patch(g: Talk, grid: GridView, a1: int, a2: int)
    ensures
        ({
            let (t, r) = g.same_patch(grid, a1, a2);
            &&& g.grows_to(t)
            &&& r matches Ok(same) ==> if same {
                is_same_change(t, grid, a1, a2)
            } else {
                is_other_change(t, grid, a1, a2)
            }
        }),
{
    broadcast use crate::replay::goes_on_patch_id;

    broadcast use crate::talk::lemma_grows, crate::talk::lemma_learns_nothing;

    if grid.known(a1, 0) && grid.known(0, a2) && grid.dedupe_patches {
        let c1 = grid.commit(a1, 0);
        let c2 = grid.commit(0, a2);
        let (h, r1) = g.patch_id(c1);
        if let Ok(id1) = r1 {
            lemma_known_id(g, c1);
            if id1 is Some {
                let (t, r2) = h.patch_id(c2);
                if let Ok(id2) = r2 {
                    lemma_known_id(h, c2);
                    law_known_patch_id_stays_known(h, t, c1);
                    lemma_kept_id(h, t, c1);
                }
            }
        }
    }
}

proof fn lemma_known_id(g: Talk, commit: Seq<char>)
    ensures
        g.patch_id(commit) matches (t, Ok(id)) ==> latest(t.patch_ids, commit) == Some(id),
{
    if latest(g.patch_ids, commit) is None {
        law_patch_id_of_a_new_commit(g, commit);
    }
}

proof fn lemma_kept_id(g: Talk, t: Talk, commit: Seq<char>)
    requires
        g.grows_to(t),
        latest(g.patch_ids, commit) is Some,
    ensures
        latest(t.patch_ids, commit) == latest(g.patch_ids, commit),
{
    reveal(Talk::learns);
    assert(g.learns_id(t, commit));
}

/// An automatic merge for a cell checks the first commit out, merges the second one
/// into it, and takes the commit that comes of it. If that conflicts although the two
/// branch commits that meet in the cell make the same change, it is made once more
/// with the first side preferred.
pub proof fn law_merge_of_a_cell(
    g: Talk,
    grid: GridView,
    first: Seq<char>,
    second: Seq<char>,
    msg: Option<Seq<char>>,
    a1: int,
    a2: int,
    single: bool,
)
    ensures
        ({
            let (t, r) = g.merge_cell(grid, first, second, msg, a1, a2, single);
            let k = g.asked.len() as int;
            &&& g.grows_to(t)
            &&& match r {
                Ok(OutcomeView::Success(result)) => made_at(
                    t,
                    k,
                    grid,
                    first,
                    second,
                    msg,
                    a1,
                    a2,
                    single,
                    result,
                ),
                Ok(OutcomeView::Conflict) => refused_at(
                    t,
                    k,
                    grid,
                    first,
                    second,
                    msg,
                    a1,
                    a2,
                    single,
                ),
                Err(e) => is_outside(e),
            }
        }),
{
    broadcast use
        crate::replay::goes_on_merge_cell,
        crate::talk::lemma_grows,
        crate::talk::lemma_learns_nothing,
    ;

    reveal(Talk::merge_cell);
    lemma_merge_error(g, grid, first, second, msg, a1, a2, single);
    lemma_automerge(g, first, second, msg, seq![], seq![]);
    lemma_merge_commands(Seq::empty(), second, msg);
    let (g1, r1) = g.automerge(first, second, msg);
    let k = g.asked.len() as int;
    if r1 == Ok::<OutcomeView, ErrorView>(OutcomeView::Conflict) && single {
        assert(conflicted_at(g1, k, first, second, msg));
        lemma_same_patch(g1, grid, a1, a2);
        let (g2, r2) = g1.same_patch(grid, a1, a2);
        lemma_merge_stays(g1, g2, k, first, second, msg, Seq::empty());
        if r2 == Ok::<bool, ErrorView>(true) {
            let j = g2.asked.len() as int;
            let (g3, r3) = g2.empty_attributes_file();
            if let Ok(path) = r3 {
                let opts = seq!["-c"@, "core.attributesFile="@ + path];
                let extra = seq!["-X"@, "ours"@];
                lemma_automerge(g3, first, second, msg, opts, extra);
                lemma_merge_commands(path, second, msg);
                let (t, r4) = g3.automerge_with_strategy(first, second, msg, opts, extra);
                lemma_same_change_stays(g2, t, grid, a1, a2);
                lemma_merge_stays(g2, t, k, first, second, msg, Seq::empty());
                if let Ok(OutcomeView::Success(result)) = r4 {
                    assert(preferred_at(t, j, first, second, msg, result));
                }
                if let Ok(OutcomeView::Conflict) = r4 {
                    assert(not_preferred_at(t, j, first, second, msg));
                }
            }
        }
    }
}

/// What an exchange shows of a merge, a later one shows, too.
pub(crate) proof fn lemma_merge_stays(
    g: Talk,
    t: Talk,
    k: int,
    first: Seq<char>,
    second: Seq<char>,
    msg: Option<Seq<char>>,
    result: Seq<char>,
)
    requires
        g.grows_to(t),
    ensures
        merged_at(g, k, first, second, msg, result) ==> merged_at(t, k, first, second, msg, result),
        conflicted_at(g, k, first, second, msg) ==> conflicted_at(t, k, first, second, msg),
        preferred_at(g, k, first, second, msg, result) ==> preferred_at(
            t,
            k,
            first,
            second,
            msg,
            result,
        ),
        not_preferred_at(g, k, first, second, msg) ==> not_preferred_at(t, k, first, second, msg),
{
}

proof fn lemma_same_change_stays(g: Talk, t: Talk, grid: GridView, a1: int, a2: int)
    requires
        g.grows_to(t),
        is_same_change(g, grid, a1, a2),
    ensures
        is_same_change(t, grid, a1, a2),
{
    lemma_kept_id(g, t, grid.commit(a1, 0));
    lemma_kept_id(g, t, grid.commit(0, a2));
}

pub(crate) proof fn lemma_made_stays(
    g: Talk,
    t: Talk,
    k: int,
    grid: GridView,
    first: Seq<char>,
    second: Seq<char>,
    msg: Option<Seq<char>>,
    a1: int,
    a2: int,
    single: bool,
    result: Seq<char>,
)
    requires
        g.grows_to(t),
        made_at(g, k, grid, first, second, msg, a1, a2, single, result),
    ensures
        made_at(t, k, grid, first, second, msg, a1, a2, single, result),
{
    lemma_merge_stays(g, t, k, first, second, msg, result);
    if !merged_at(g, k, first, second, msg, result) {
        lemma_same_change_stays(g, t, grid, a1, a2);
        let j = choose|j: int|
            k + 2 < j && #[trigger] preferred_at(g, j, first, second, msg, result);
        lemma_merge_stays(g, t, j, first, second, msg, result);
        assert(preferred_at(t, j, first, second, msg, result));
    }
}

proof fn lemma_other_change_stays(g: Talk, t: Talk, grid: GridView, a1: int, a2: int)
    requires
        g.grows_to(t),
        is_other_change(g, grid, a1, a2),
    ensures
        is_other_change(t, grid, a1, a2),
{
    if latest(g.patch_ids, grid.commit(a1, 0)) is Some {
        lemma_kept_id(g, t, grid.commit(a1, 0));
    }
    if latest(g.patch_ids, grid.commit(0, a2)) is Some {
        lemma_kept_id(g, t, grid.commit(0, a2));
    }
}

// ---------------------------------------------------------------------
// Filling every cell
// ---------------------------------------------------------------------

/// The log message of an automatic merge.
pub open spec fn merge_text(name: Seq<char>, a1: int, a2: int) -> Seq<char> {
    "imerge '"@ + name + "': automatic merge "@ + decimal(a1 as nat) + "-"@ + decimal(a2 as nat)
}

/// After `from`, the commit of the cell before `(a1, a2)` in its row was checked out
/// and that of the cell above merged into it, and the cell has the outcome.
pub open spec fn is_made(
    t: Talk,
    from: int,
    grid: GridView,
    later: GridView,
    a1: int,
    a2: int,
) -> bool {
    exists|k: int|
        from <= k && #[trigger] made_at(
            t,
            k,
            grid,
            later.commit(a1, a2 - 1),
            later.commit(a1 - 1, a2),
            Some(merge_text(grid.name, a1, a2)),
            a1,
            a2,
            true,
            later.commit(a1, a2),
        )
}

/// After `from`, the same was tried for `(a1, a2)`, but it was a conflict.
pub open spec fn is_refused(
    t: Talk,
    from: int,
    grid: GridView,
    later: GridView,
    a1: int,
    a2: int,
) -> bool {
    exists|k: int|
        from <= k && #[trigger] refused_at(
            t,
            k,
            grid,
            later.commit(a1, a2 - 1),
            later.commit(a1 - 1, a2),
            Some(merge_text(grid.name, a1, a2)),
            a1,
            a2,
            true,
        )
}

/// What was known of the cell is kept. What is new comes from a merge of the cell
/// before it with the cell above it.
pub open spec fn is_filled(
    t: Talk,
    from: int,
    grid: GridView,
    later: GridView,
    a1: int,
    a2: int,
) -> bool {
    &&& grid.known(a1, a2) ==> later.cell(a1, a2) == grid.cell(a1, a2)
    &&& !grid.known(a1, a2) && later.known(a1, a2) ==> is_made(t, from, grid, later, a1, a2)
    &&& !grid.blocked(a1, a2) && later.blocked(a1, a2) ==> is_refused(
        t,
        from,
        grid,
        later,
        a1,
        a2,
    )
}

/// The two grids have the same edges and look for equal changes alike.
pub open spec fn same_edges(a: GridView, b: GridView) -> bool {
    &&& a.name == b.name
    &&& a.dedupe_patches == b.dedupe_patches
    &&& a.len1 == b.len1
    &&& a.len2 == b.len2
    &&& forall|i: int| 0 <= i < a.len1 ==> #[trigger] a.cell(i, 0) == b.cell(i, 0)
    &&& forall|i: int| 0 <= i < a.len2 ==> #[trigger] a.cell(0, i) == b.cell(0, i)
}

/// What an exchange shows of a filled cell, a later one shows of a grid in which the
/// cell and its neighbours are the same.
pub(crate) proof fn lemma_filled_stays(
    g: Talk,
    t: Talk,
    from: int,
    first: GridView,
    grid: GridView,
    later: GridView,
    last: GridView,
    a1: int,
    a2: int,
)
    requires
        g.grows_to(t),
        first.has(a1, a2),
        same_edges(first, grid),
        grid.has(a1, a2),
        from <= g.asked.len(),
        last.commit(a1, a2) == later.commit(a1, a2),
        last.commit(a1 - 1, a2) == later.commit(a1 - 1, a2),
        last.commit(a1, a2 - 1) == later.commit(a1, a2 - 1),
    ensures
        is_made(g, from, grid, later, a1, a2) ==> is_made(t, from, first, last, a1, a2),
        is_refused(g, from, grid, later, a1, a2) ==> is_refused(t, from, first, last, a1, a2),
{
    let c1 = later.commit(a1, a2 - 1);
    let c2 = later.commit(a1 - 1, a2);
    let c = later.commit(a1, a2);
    let msg = Some(merge_text(grid.name, a1, a2));
    assert(last.commit(a1, a2 - 1) == c1);
    assert(last.commit(a1 - 1, a2) == c2);
    assert(last.commit(a1, a2) == c);
    assert(first.cell(a1, 0) == grid.cell(a1, 0));
    assert(first.cell(0, a2) == grid.cell(0, a2));
    if is_made(g, from, grid, later, a1, a2) {
        let k = choose|k: int|
            from <= k && #[trigger] made_at(g, k, grid, c1, c2, msg, a1, a2, true, c);
        lemma_merge_stays(g, t, k, c1, c2, msg, c);
        if !merged_at(g, k, c1, c2, msg, c) {
            lemma_same_change_stays(g, t, grid, a1, a2);
            let j = choose|j: int| k + 2 < j && #[trigger] preferred_at(g, j, c1, c2, msg, c);
            lemma_merge_stays(g, t, j, c1, c2, msg, c);
        }
        assert(made_at(t, k, first, c1, c2, msg, a1, a2, true, c));
    }
    if is_refused(g, from, grid, later, a1, a2) {
        let k = choose|k: int|
            from <= k && #[trigger] refused_at(g, k, grid, c1, c2, msg, a1, a2, true);
        lemma_merge_stays(g, t, k, c1, c2, msg, c);
        if is_other_change(g, grid, a1, a2) {
            lemma_other_change_stays(g, t, grid, a1, a2);
        } else {
            let j = choose|j: int| k + 2 < j && #[trigger] not_preferred_at(g, j, c1, c2, msg);
            lemma_merge_stays(g, t, j, c1, c2, msg, c);
            assert(not_preferred_at(t, j, c1, c2, msg));
        }
        assert(refused_at(t, k, first, c1, c2, msg, a1, a2, true));
    }
}

proof fn lemma_row_is_filled(g: Talk, grid: GridView, block: Rect, i1: usize, i2: usize, len2: usize)
    requires
        grid.wf(),
        grid.sound(),
        block.within(grid),
        1 <= i1 < block.len1,
        1 <= i2,
        len2 <= block.len2,
    ensures
        ({
            let (t, later, r) = g.fill_row(grid, block, i1, i2, len2);
            &&& g.grows_to(t)
            &&& same_edges(grid, later)
            &&& forall|a2: int|
                1 <= a2 < grid.len2 ==> #[trigger] is_filled(
                    t,
                    g.asked.len() as int,
                    grid,
                    later,
                    block.origin1 + i1,
                    a2,
                )
        }),
    decreases len2 - i2,
{
    broadcast use
        crate::replay::goes_on_fill_row,
        crate::replay::goes_on_fill_cell,
        crate::talk::lemma_grows,
        crate::talk::lemma_learns_nothing,
    ;

    let a1 = (block.origin1 + i1) as usize;
    let a2 = (block.origin2 + i2) as usize;
    let from = g.asked.len() as int;
    lemma_fill_row(g, grid, block, i1, i2, len2);
    let (t, later, r) = g.fill_row(grid, block, i1, i2, len2);
    if i2 >= len2 {
        assert(later == grid);
    }
    assert(i2 < len2 ==> grid.has(block.origin1 + i1, block.origin2 + i2));
    assert(same_edges(grid, later)) by {
        assert forall|i: int| 0 <= i < grid.len1 implies #[trigger] grid.cell(i, 0) == later.cell(
            i,
            0,
        ) by {
            assert(i2 < len2 ==> grid.has(i, 0));
        }
        assert forall|i: int| 0 <= i < grid.len2 implies #[trigger] grid.cell(0, i) == later.cell(
            0,
            i,
        ) by {
            assert(i2 < len2 ==> grid.has(0, i));
        }
    }
    if i2 < len2 {
        assert(grid.has(a1 as int, a2 as int));
        if grid.known(a1 as int, a2 as int) {
            lemma_row_is_filled(g, grid, block, i1, (i2 + 1) as usize, len2);
        } else if grid.blocked(a1 as int, a2 as int) {
            assert(later == grid);
        } else {
            let above = ((a1 - 1) as usize, a2);
            let left = (a1, (a2 - 1) as usize);
            let (h, next, done) = g.fill_cell(grid, (a1, a2), above, left);
            lemma_cell_is_filled(g, grid, a1, a2);
            assert(grid.cells[a1 as int].len() == grid.len2);
            if done == Ok::<bool, ErrorView>(true) {
                lemma_row_is_filled(h, next, block, i1, (i2 + 1) as usize, len2);
                lemma_fill_row(h, next, block, i1, (i2 + 1) as usize, len2);
                assert forall|b2: int| 1 <= b2 < grid.len2 implies #[trigger] is_filled(
                    t,
                    from,
                    grid,
                    later,
                    a1 as int,
                    b2,
                ) by {
                    assert(is_filled(t, h.asked.len() as int, next, later, a1 as int, b2));
                    assert(grid.has(a1 as int, b2) && grid.has(a1 - 1, b2) && grid.has(
                        a1 as int,
                        b2 - 1,
                    ));
                    assert(grid.cells[a1 - 1].len() == grid.len2);
                    assert(later.cell(a1 - 1, b2) == next.cell(a1 - 1, b2));
                    if b2 == a2 {
                        assert(later.cell(a1 as int, b2) == next.cell(a1 as int, b2));
                        assert(later.cell(a1 as int, b2 - 1) == next.cell(a1 as int, b2 - 1));
                        lemma_filled_stays(h, t, from, grid, grid, next, later, a1 as int, b2);
                    } else {
                        assert(next.cell(a1 as int, b2) == grid.cell(a1 as int, b2));
                        lemma_from_earlier(
                            t,
                            h.asked.len() as int,
                            from,
                            next,
                            later,
                            a1 as int,
                            b2,
                        );
                        lemma_filled_stays(t, t, from, grid, next, later, later, a1 as int, b2);
                    }
                }
            } else {
                assert forall|b2: int| 1 <= b2 < grid.len2 implies #[trigger] is_filled(
                    t,
                    from,
                    grid,
                    later,
                    a1 as int,
                    b2,
                ) by {
                    assert(grid.has(a1 as int, b2) && grid.has(a1 - 1, b2));
                    assert(grid.cells[a1 - 1].len() == grid.len2);
                    if b2 == a2 {
                        if later.blocked(a1 as int, a2 as int) {
                            lemma_flags(grid.cell(a1 as int, a2 as int).flags);
                            lemma_filled_stays(h, t, from, grid, grid, next, later, a1 as int, b2);
                        }
                    } else {
                        assert(later.cell(a1 as int, b2) == grid.cell(a1 as int, b2));
                    }
                }
            }
        }
    }
}

proof fn lemma_from_earlier(
    t: Talk,
    from: int,
    earlier: int,
    grid: GridView,
    later: GridView,
    a1: int,
    a2: int,
)
    requires
        earlier <= from,
    ensures
        is_made(t, from, grid, later, a1, a2) ==> is_made(t, earlier, grid, later, a1, a2),
        is_refused(t, from, grid, later, a1, a2) ==> is_refused(t, earlier, grid, later, a1, a2),
{
}

/// One cell is merged from the cell before it and the cell above it.
proof fn lemma_cell_is_filled(g: Talk, grid: GridView, a1: usize, a2: usize)
    requires
        grid.wf(),
        grid.sound(),
        grid.has_inside(a1 as int, a2 as int),
        !grid.known(a1 as int, a2 as int),
        !grid.blocked(a1 as int, a2 as int),
    ensures
        ({
            let (t, later, r) = g.fill_cell(
                grid,
                (a1, a2),
                ((a1 - 1) as usize, a2),
                (a1, (a2 - 1) as usize),
            );
            &&& g.grows_to(t)
            &&& later.wf()
            &&& later.sound()
            &&& same_edges(grid, later)
            &&& forall|b1: int, b2: int|
                grid.has(b1, b2) && (b1 != a1 || b2 != a2) ==> #[trigger] later.cell(b1, b2)
                    == grid.cell(b1, b2)
            &&& match r {
                Ok(true) => later.known(a1 as int, a2 as int) && !later.blocked(
                    a1 as int,
                    a2 as int,
                ) && is_made(t, g.asked.len() as int, grid, later, a1 as int, a2 as int),
                Ok(false) => !later.known(a1 as int, a2 as int) && later.blocked(
                    a1 as int,
                    a2 as int,
                ) && is_refused(t, g.asked.len() as int, grid, later, a1 as int, a2 as int),
                Err(e) => later == grid && is_outside(e),
            }
        }),
{
    broadcast use
        crate::replay::goes_on_fill_cell,
        crate::talk::lemma_grows,
        crate::talk::lemma_learns_nothing,
    ;

    let told = g.tell("Attempting to merge "@ + coordinates(a1 as int, a2 as int) + "..."@);
    let c1 = grid.commit(a1 as int, a2 - 1);
    let c2 = grid.commit(a1 - 1, a2 as int);
    let msg = Some(merge_text(grid.name, a1 as int, a2 as int));
    assert(auto_message(grid.name, a1 as int, a2 as int) =~= merge_text(
        grid.name,
        a1 as int,
        a2 as int,
    ));
    law_merge_of_a_cell(told, grid, c1, c2, msg, a1 as int, a2 as int, true);
    let (h, outcome) = told.merge_cell(grid, c1, c2, msg, a1 as int, a2 as int, true);
    let (t, later, r) = g.fill_cell(
        grid,
        (a1, a2),
        ((a1 - 1) as usize, a2),
        (a1, (a2 - 1) as usize),
    );
    let k = g.asked.len() as int;
    let cell = grid.cell(a1 as int, a2 as int);
    assert(cell.consistent());
    assert(grid.cells[a1 as int].len() == grid.len2);
    assert forall|b1: int, b2: int|
        grid.has(b1, b2) && (b1 != a1 || b2 != a2) implies #[trigger] later.cell(b1, b2)
        == grid.cell(b1, b2) by {
        assert(grid.cells[b1].len() == grid.len2);
    }
    assert(same_edges(grid, later)) by {
        assert forall|i: int| 0 <= i < grid.len1 implies #[trigger] grid.cell(i, 0) == later.cell(
            i,
            0,
        ) by {
            assert(grid.has(i, 0));
        }
        assert forall|i: int| 0 <= i < grid.len2 implies #[trigger] grid.cell(0, i) == later.cell(
            0,
            i,
        ) by {
            assert(grid.has(0, i));
        }
    }
    assert(grid.has(a1 - 1, a2 as int) && grid.has(a1 as int, a2 - 1));
    assert(later.cell(a1 - 1, a2 as int) == grid.cell(a1 - 1, a2 as int));
    assert(later.cell(a1 as int, a2 - 1) == grid.cell(a1 as int, a2 - 1));
    assert(later.commit(a1 as int, a2 - 1) == c1);
    assert(later.commit(a1 - 1, a2 as int) == c2);
    lemma_with_grows(grid, a1 as int, a2 as int, Seq::empty());
    lemma_flags(cell.flags);
    match outcome {
        Ok(OutcomeView::Success(sha1)) => {
            lemma_with_grows(grid, a1 as int, a2 as int, sha1);
            lemma_merge_stays(h, t, k, c1, c2, msg, sha1);
            if !merged_at(h, k, c1, c2, msg, sha1) {
                let j = choose|j: int| k + 2 < j && #[trigger] preferred_at(h, j, c1, c2, msg, sha1);
                lemma_merge_stays(h, t, j, c1, c2, msg, sha1);
                assert(preferred_at(t, j, c1, c2, msg, sha1));
            }
            assert(later.commit(a1 as int, a2 as int) == sha1);
            assert(made_at(t, k, grid, c1, c2, msg, a1 as int, a2 as int, true, sha1));
        },
        Ok(OutcomeView::Conflict) => {
            lemma_merge_stays(h, t, k, c1, c2, msg, Seq::empty());
            if !is_other_change(h, grid, a1 as int, a2 as int) {
                let j = choose|j: int| k + 2 < j && #[trigger] not_preferred_at(h, j, c1, c2, msg);
                lemma_merge_stays(h, t, j, c1, c2, msg, Seq::empty());
                assert(not_preferred_at(t, j, c1, c2, msg));
            }
            assert(refused_at(t, k, grid, c1, c2, msg, a1 as int, a2 as int, true));
        },
        Err(_) => {},
    }
}

proof fn lemma_flags(x: u8)
    ensures
        x & 0x0f == 0 ==> x & 0x0c == 0 && (x | 2) & 0x10 == x & 0x10,
        (x | 0x10) | 0x10 == x | 0x10,
        (x | 0x10) & 0x10 != 0,
{
    assert((x & 0x0f == 0 ==> x & 0x0c == 0 && (x | 2) & 0x10 == x & 0x10) && (x | 0x10) | 0x10 == x
        | 0x10 && (x | 0x10) & 0x10 != 0) by (bit_vector);
}

/// Every cell of the grid off its first row and column is filled.
pub open spec fn are_filled(t: Talk, from: int, grid: GridView, later: GridView) -> bool {
    forall|a1: int, a2: int|
        grid.has_inside(a1, a2) ==> #[trigger] is_filled(t, from, grid, later, a1, a2)
}

proof fn lemma_rows_are_filled(
    g: Talk,
    grid: GridView,
    block: Rect,
    i1: usize,
    len2: usize,
    blocker: Option<(usize, usize)>,
)
    requires
        grid.wf(),
        grid.sound(),
        block.within(grid),
        1 <= i1,
        len2 <= block.len2,
    ensures
        ({
            let (t, later, r) = g.fill_rows(grid, block, i1, len2, blocker);
            &&& g.grows_to(t)
            &&& same_edges(grid, later)
            &&& grid.grows_to(later)
            &&& forall|b1: int, b2: int|
                grid.has(b1, b2) && b1 < block.origin1 + i1 ==> #[trigger] later.cell(b1, b2)
                    == grid.cell(b1, b2)
            &&& are_filled(t, g.asked.len() as int, grid, later)
        }),
    decreases block.len1 - i1,
{
    broadcast use
        crate::replay::goes_on_fill_rows,
        crate::replay::goes_on_fill_row,
        crate::talk::lemma_grows,
        crate::talk::lemma_learns_nothing,
    ;

    if i1 < block.len1 {
        let row = block.origin1 + i1;
        let from = g.asked.len() as int;
        let (h, next, stop) = g.fill_row(grid, block, i1, 1, len2);
        lemma_fill_row(g, grid, block, i1, 1, len2);
        lemma_row_is_filled(g, grid, block, i1, 1, len2);
        assert forall|b1: int, b2: int| grid.has(b1, b2) && b1 != row implies #[trigger] next.cell(
            b1,
            b2,
        ) == grid.cell(b1, b2) by {}
        let (t, later, r) = g.fill_rows(grid, block, i1, len2, blocker);
        if let Ok(n) = stop {
            let len = match n {
                Some(n) => n,
                None => len2,
            };
            let more = match n {
                Some(n) => match blocker {
                    Some(b) => Some(b),
                    None => Some(((block.origin1 + i1) as usize, (block.origin2 + n) as usize)),
                },
                None => blocker,
            };
            lemma_rows_are_filled(h, next, block, (i1 + 1) as usize, len, more);
            lemma_grid_grows(grid, next, later);
            assert(same_edges(grid, later)) by {
                assert forall|i: int| 0 <= i < grid.len1 implies #[trigger] grid.cell(i, 0)
                    == later.cell(i, 0) by {
                    assert(next.cell(i, 0) == later.cell(i, 0));
                }
                assert forall|i: int| 0 <= i < grid.len2 implies #[trigger] grid.cell(0, i)
                    == later.cell(0, i) by {
                    assert(next.cell(0, i) == later.cell(0, i));
                }
            }
            assert forall|b1: int, b2: int| grid.has(b1, b2) && b1 < row implies #[trigger]
            later.cell(b1, b2) == grid.cell(b1, b2) by {
                assert(next.cell(b1, b2) == grid.cell(b1, b2));
            }
            assert forall|a1: int, a2: int| grid.has_inside(a1, a2) implies #[trigger] is_filled(
                t,
                from,
                grid,
                later,
                a1,
                a2,
            ) by {
                assert(grid.has(a1, a2) && grid.has(a1 - 1, a2) && grid.has(a1, a2 - 1));
                if a1 <= row {
                    assert(later.cell(a1, a2) == next.cell(a1, a2));
                    assert(later.cell(a1 - 1, a2) == next.cell(a1 - 1, a2));
                    assert(later.cell(a1, a2 - 1) == next.cell(a1, a2 - 1));
                    if a1 == row {
                        assert(is_filled(h, from, grid, next, a1, a2));
                        lemma_filled_stays(h, t, from, grid, grid, next, later, a1, a2);
                    } else {
                        assert(next.cell(a1, a2) == grid.cell(a1, a2));
                    }
                } else {
                    assert(is_filled(t, h.asked.len() as int, next, later, a1, a2));
                    assert(next.cell(a1, a2) == grid.cell(a1, a2));
                    lemma_from_earlier(t, h.asked.len() as int, from, next, later, a1, a2);
                    lemma_filled_stays(t, t, from, grid, next, later, later, a1, a2);
                }
            }
        } else {
            assert forall|a1: int, a2: int| grid.has_inside(a1, a2) implies #[trigger] is_filled(
                t,
                from,
                grid,
                later,
                a1,
                a2,
            ) by {
                assert(grid.has(a1, a2));
                if a1 != row {
                    assert(next.cell(a1, a2) == grid.cell(a1, a2));
                }
            }
        }
    }
}

/// A full frontier merges each cell that it fills from the cell before it in its row
/// and the cell above it: it checks the one out, merges the other, and records what
/// comes of just that merge. It marks a cell as blocked only where that merge is a
/// conflict. What was known is kept.
pub proof fn law_full_frontier_merges_neighbours(g: Talk, grid: GridView, block: Rect)
    requires
        grid.wf(),
        grid.sound(),
        block.within(grid),
    ensures
        ({
            let (t, later, r) = FrontierView::Full(block).auto_expand(g, grid);
            &&& grid.grows_to(later)
            &&& are_filled(t, g.asked.len() as int, grid, later)
        }),
{
    lemma_rows_are_filled(g, grid, block, 1, block.len2, None);
}

// ---------------------------------------------------------------------
// Trying
// ---------------------------------------------------------------------

/// At `k` the commits on the edges of the window that meet in the cell `(n1, n2)` were
/// merged; `result` is what came of it.
pub open spec fn gives_at(
    t: Talk,
    k: int,
    grid: GridView,
    rect: Rect,
    n1: int,
    n2: int,
    result: Seq<char>,
) -> bool {
    let a1 = rect.origin1 + n1;
    let a2 = rect.origin2 + n2;
    made_at(
        t,
        k,
        grid,
        grid.commit(a1, rect.origin2 as int),
        grid.commit(rect.origin1 as int, a2),
        None,
        a1,
        a2,
        n1 == 1 && n2 == 1,
        result,
    )
}

/// The commits on the edges of the window that meet in the cell `(n1, n2)` were merged,
/// and the answer says how that went.
pub open spec fn is_probed(
    g: Talk,
    told: Told<bool>,
    grid: GridView,
    rect: Rect,
    n1: int,
    n2: int,
) -> bool {
    let a1 = rect.origin1 + n1;
    let a2 = rect.origin2 + n2;
    let k = g.asked.len() as int;
    let first = grid.commit(a1, rect.origin2 as int);
    let second = grid.commit(rect.origin1 as int, a2);
    let single = n1 == 1 && n2 == 1;
    match told.1 {
        Ok(true) => exists|result: Seq<char>| #[trigger]
            gives_at(told.0, k, grid, rect, n1, n2, result),
        Ok(false) => refused_at(told.0, k, grid, first, second, None, a1, a2, single),
        Err(e) => is_outside(e),
    }
}

/// Whether a cell of a window can be merged is found out by merging the commits on the
/// window's edges that meet in it. A cell that is known can be merged; nothing is
/// asked for that.
pub proof fn law_probe_merges_the_edges(g: Talk, grid: GridView, rect: Rect, n1: int, n2: int)
    ensures
        grid.known(rect.origin1 + n1, rect.origin2 + n2) ==> g.probe(grid, rect, n1, n2) == (
            g,
            Ok::<bool, ErrorView>(true),
        ),
        !grid.known(rect.origin1 + n1, rect.origin2 + n2) ==> is_probed(
            g,
            g.probe(grid, rect, n1, n2),
            grid,
            rect,
            n1,
            n2,
        ),
{
    broadcast use crate::talk::lemma_grows, crate::talk::lemma_learns_nothing;

    let a1 = rect.origin1 + n1;
    let a2 = rect.origin2 + n2;
    let k = g.asked.len() as int;
    let first = grid.commit(a1, rect.origin2 as int);
    let second = grid.commit(rect.origin1 as int, a2);
    let single = n1 == 1 && n2 == 1;
    let told = g.tell("Attempting automerge of "@ + coordinates(a1, a2) + "..."@);
    law_merge_of_a_cell(told, grid, first, second, None, a1, a2, single);
    let (h, outcome) = told.merge_cell(grid, first, second, None, a1, a2, single);
    let (t, r) = g.probe(grid, rect, n1, n2);
    if !grid.known(a1, a2) {
        match outcome {
            Ok(OutcomeView::Success(result)) => {
                assert(h.grows_to(t));
                lemma_made_stays(h, t, k, grid, first, second, None, a1, a2, single, result);
                assert(gives_at(t, k, grid, rect, n1, n2, result));
            },
            Ok(OutcomeView::Conflict) => {
                assert(h.grows_to(t));
                lemma_merge_stays(h, t, k, first, second, None, Seq::empty());
                if is_other_change(h, grid, a1, a2) {
                    lemma_other_change_stays(h, t, grid, a1, a2);
                } else if single {
                    let j = choose|j: int|
                        k + 2 < j && #[trigger] not_preferred_at(h, j, first, second, None);
                    lemma_merge_stays(h, t, j, first, second, None, Seq::empty());
                    assert(not_preferred_at(t, j, first, second, None));
                }
            },
            Err(_) => {},
        }
    }
}

} // verus!
