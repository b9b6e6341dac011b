//! Goals that keep more of the history.
//!
//! Where commits are replayed with a note about where they come from, or along both
//! edges of the grid, the laws here say which commits are made and on what they stand.
use vstd::prelude::*;

use crate::block::GridView;
use crate::history::{message_in, parent_args};
use crate::imerge::MergeStateView;
use crate::outcome::{
    along_column, along_row, is_set, law_branch_is_set, lemma_dispatch, lemma_goals, lemma_merging,
    lemma_merging_stays, merging_at,
};
use crate::rewriting::{
    author_at, author_of, copies_at, gave, is_message, lemma_commands_differ, lemma_commit_tree,
    lemma_copies_stays, lemma_message, makes_commit, text_of, tree_of,
};
use crate::simplify::{missing_in_column, missing_in_row, rebased_message};
use crate::talk::{lemma_grows, lemma_learns_nothing, Talk};
use crate::text::{lines_of, trimmed, without_line_feeds};
use crate::trace::{asks, ended, said};

verus! {

broadcast use lemma_grows, lemma_learns_nothing;

/// The log message of a commit that is replayed: the original one, with a note about
/// the original commit.
pub open spec fn noted(msg: Seq<char>, orig: Seq<char>, with_history: bool) -> Seq<char> {
    if with_history {
        without_line_feeds(msg) + "\n\n(rebased-with-history from commit "@ + orig + ")\n"@
    } else {
        without_line_feeds(msg) + "\n\n(rebased from commit "@ + orig + ")\n"@
    }
}

/// What a replayed commit stands on: the one before it, and with history the original
/// one, too.
pub open spec fn stands_on(
    before: Seq<char>,
    orig: Seq<char>,
    with_history: bool,
    orig_first: bool,
) -> Seq<Seq<char>> {
    if !with_history {
        seq![before]
    } else if orig_first {
        seq![orig, before]
    } else {
        seq![before, orig]
    }
}

/// The request at `k + 3` makes a commit with the tree of `cell`, the author of
/// `orig`, and its message with a note.
#[verifier::opaque]
pub open spec fn replaying_at(
    t: Talk,
    k: int,
    cell: Seq<char>,
    orig: Seq<char>,
    parents: Seq<Seq<char>>,
    with_history: bool,
) -> bool {
    exists|msg: Seq<char>|
        #![trigger is_message(without_line_feeds(said(t, k + 1)), msg)]
        is_message(without_line_feeds(said(t, k + 1)), msg) && copies_at(
            t,
            k,
            cell,
            orig,
            parents,
            noted(msg, orig, with_history),
        )
}

/// After `from`, a commit was replayed; the new one is `result`.
#[verifier::opaque]
pub open spec fn is_replayed(
    t: Talk,
    from: int,
    cell: Seq<char>,
    orig: Seq<char>,
    parents: Seq<Seq<char>>,
    with_history: bool,
    result: Seq<char>,
) -> bool {
    exists|k: int|
        from <= k && #[trigger] replaying_at(t, k, cell, orig, parents, with_history) && gave(
            t,
            k + 3,
            result,
        )
}

/// The commits of `path` were replayed on `base`, each on the one before it; `made`
/// are the new ones.
pub open spec fn are_replayed(
    t: Talk,
    from: int,
    base: Seq<char>,
    path: Seq<(Seq<char>, Seq<char>)>,
    with_history: bool,
    orig_first: bool,
    made: Seq<Seq<char>>,
) -> bool {
    &&& made.len() == path.len()
    &&& forall|i: int|
        0 <= i < path.len() ==> is_replayed(
            t,
            from,
            path[i].0,
            path[i].1,
            stands_on(
                if i == 0 {
                    base
                } else {
                    made[i - 1]
                },
                path[i].1,
                with_history,
                orig_first,
            ),
            with_history,
            #[trigger] made[i],
        )
}

/// The last commit that was replayed, or what they stand on.
pub open spec fn end_of(base: Seq<char>, made: Seq<Seq<char>>) -> Seq<char> {
    if made.len() > 0 {
        made.last()
    } else {
        base
    }
}

proof fn lemma_replayed_steps(
    g: Talk,
    cell: Seq<char>,
    orig: Seq<char>,
    parents: Seq<Seq<char>>,
    with_history: bool,
)
    ensures
        ({
            let (t, r) = g.replayed(cell, orig, parents, with_history);
            let k = g.asked.len() as int;
            &&& g.grows_to(t)
            &&& t.asked.len() <= k + 4
            &&& k < t.asked.len() ==> asks(t, k, tree_of(cell), None, None, false)
            &&& k + 1 < t.asked.len() ==> asks(t, k + 1, text_of(orig), None, None, false)
            &&& k + 2 < t.asked.len() ==> asks(t, k + 2, author_of(orig), None, None, false)
            &&& k + 3 < t.asked.len() ==> {
                &&& ended(t, k, true)
                &&& ended(t, k + 1, true)
                &&& ended(t, k + 2, true)
                &&& lines_of(without_line_feeds(said(t, k + 2))).len() >= 3
                &&& asks(
                    t,
                    k + 3,
                    seq!["commit-tree"@, trimmed(said(t, k))] + parent_args(parents),
                    Some(
                        rebased_message(
                            message_in(without_line_feeds(said(t, k + 1))),
                            orig,
                            with_history,
                        ),
                    ),
                    Some(author_at(t, k + 2)),
                    false,
                )
            }
            &&& r matches Ok(result) ==> t.asked.len() == k + 4 && gave(t, k + 3, result)
        }),
{
    reveal(Talk::replayed);
}

proof fn lemma_replayed(
    g: Talk,
    cell: Seq<char>,
    orig: Seq<char>,
    parents: Seq<Seq<char>>,
    with_history: bool,
)
    ensures
        ({
            let (t, r) = g.replayed(cell, orig, parents, with_history);
            let k = g.asked.len() as int;
            &&& g.grows_to(t)
            &&& forall|j: int|
                k <= j < t.asked.len() && #[trigger] makes_commit(t.asked[j]) ==> j == k + 3
                    && replaying_at(t, k, cell, orig, parents, with_history)
            &&& r matches Ok(result) ==> is_replayed(
                t,
                k,
                cell,
                orig,
                parents,
                with_history,
                result,
            )
        }),
{
    reveal(replaying_at);
    reveal(is_replayed);
    lemma_commands_differ();
    lemma_replayed_steps(g, cell, orig, parents, with_history);
    let (t, r) = g.replayed(cell, orig, parents, with_history);
    let k = g.asked.len() as int;
    if k + 3 < t.asked.len() {
        lemma_commit_tree(trimmed(said(t, k)), parents);
        let text = without_line_feeds(said(t, k + 1));
        let msg = message_in(text);
        lemma_message(text);
        assert(rebased_message(msg, orig, with_history) =~= noted(msg, orig, with_history));
        assert(copies_at(t, k, cell, orig, parents, noted(msg, orig, with_history)));
        assert(replaying_at(t, k, cell, orig, parents, with_history));
    }
}

proof fn lemma_replaying_stays(
    g: Talk,
    t: Talk,
    k: int,
    cell: Seq<char>,
    orig: Seq<char>,
    parents: Seq<Seq<char>>,
    with_history: bool,
)
    requires
        g.grows_to(t),
        replaying_at(g, k, cell, orig, parents, with_history),
    ensures
        replaying_at(t, k, cell, orig, parents, with_history),
{
    reveal(replaying_at);
    let msg = choose|msg: Seq<char>|
        #![trigger is_message(without_line_feeds(said(g, k + 1)), msg)]
        is_message(without_line_feeds(said(g, k + 1)), msg) && copies_at(
            g,
            k,
            cell,
            orig,
            parents,
            noted(msg, orig, with_history),
        );
    lemma_copies_stays(g, t, k, cell, orig, parents, noted(msg, orig, with_history));
    assert(is_message(without_line_feeds(said(t, k + 1)), msg));
}

proof fn lemma_replayed_stays(
    g: Talk,
    t: Talk,
    from: int,
    earlier: int,
    cell: Seq<char>,
    orig: Seq<char>,
    parents: Seq<Seq<char>>,
    with_history: bool,
    result: Seq<char>,
)
    requires
        g.grows_to(t),
        earlier <= from,
        is_replayed(g, from, cell, orig, parents, with_history, result),
    ensures
        is_replayed(t, earlier, cell, orig, parents, with_history, result),
{
    reveal(is_replayed);
    let k = choose|k: int|
        from <= k && #[trigger] replaying_at(g, k, cell, orig, parents, with_history) && gave(
            g,
            k + 3,
            result,
        );
    lemma_replaying_stays(g, t, k, cell, orig, parents, with_history);
    assert(gave(t, k + 3, result));
}

/// Every commit that was asked for between `from` and `to` replays an entry of `path`.
pub open spec fn only_replays(
    t: Talk,
    from: int,
    to: int,
    path: Seq<(Seq<char>, Seq<char>)>,
    with_history: bool,
) -> bool {
    forall|k: int|
        from <= k < to && #[trigger] makes_commit(t.asked[k]) ==> exists|
            j: int,
            parents: Seq<Seq<char>>,
        |
            0 <= j < path.len() && #[trigger] replaying_at(
                t,
                k - 3,
                path[j].0,
                path[j].1,
                parents,
                with_history,
            )
}

proof fn lemma_only_replays(
    h: Talk,
    t: Talk,
    from: int,
    path: Seq<(Seq<char>, Seq<char>)>,
    parents: Seq<Seq<char>>,
    with_history: bool,
)
    requires
        h.grows_to(t),
        0 <= from <= h.asked.len(),
        path.len() > 0,
        forall|j: int|
            from <= j < h.asked.len() && #[trigger] makes_commit(h.asked[j]) ==> j == from + 3
                && replaying_at(h, from, path[0].0, path[0].1, parents, with_history),
        only_replays(t, h.asked.len() as int, t.asked.len() as int, path.skip(1), with_history),
    ensures
        only_replays(t, from, t.asked.len() as int, path, with_history),
{
    let tail = path.skip(1);
    assert forall|k: int|
        from <= k < t.asked.len() && #[trigger] makes_commit(t.asked[k]) implies exists|
        j: int,
        p: Seq<Seq<char>>,
    |
        0 <= j < path.len() && #[trigger] replaying_at(
            t,
            k - 3,
            path[j].0,
            path[j].1,
            p,
            with_history,
        ) by {
        if k < h.asked.len() {
            assert(t.asked[k] == h.asked[k]);
            lemma_replaying_stays(h, t, from, path[0].0, path[0].1, parents, with_history);
            assert(replaying_at(t, k - 3, path[0].0, path[0].1, parents, with_history));
        } else {
            let (j, p) = choose|j: int, p: Seq<Seq<char>>|
                0 <= j < tail.len() && #[trigger] replaying_at(
                    t,
                    k - 3,
                    tail[j].0,
                    tail[j].1,
                    p,
                    with_history,
                );
            assert(tail[j] == path[j + 1]);
            assert(replaying_at(t, k - 3, path[j + 1].0, path[j + 1].1, p, with_history));
        }
    }
}

proof fn lemma_replay_step(
    h: Talk,
    t: Talk,
    from: int,
    base: Seq<char>,
    path: Seq<(Seq<char>, Seq<char>)>,
    with_history: bool,
    orig_first: bool,
    next: Seq<char>,
    made: Seq<Seq<char>>,
)
    requires
        h.grows_to(t),
        from <= h.asked.len(),
        path.len() > 0,
        is_replayed(
            h,
            from,
            path[0].0,
            path[0].1,
            stands_on(base, path[0].1, with_history, orig_first),
            with_history,
            next,
        ),
        are_replayed(
            t,
            h.asked.len() as int,
            next,
            path.skip(1),
            with_history,
            orig_first,
            made,
        ),
    ensures
        are_replayed(t, from, base, path, with_history, orig_first, seq![next] + made),
        end_of(base, seq![next] + made) == end_of(next, made),
{
    let all = seq![next] + made;
    let tail = path.skip(1);
    assert forall|i: int| 0 <= i < path.len() implies is_replayed(
        t,
        from,
        path[i].0,
        path[i].1,
        stands_on(
            if i == 0 {
                base
            } else {
                all[i - 1]
            },
            path[i].1,
            with_history,
            orig_first,
        ),
        with_history,
        #[trigger] all[i],
    ) by {
        if i == 0 {
            lemma_replayed_stays(
                h,
                t,
                from,
                from,
                path[0].0,
                path[0].1,
                stands_on(base, path[0].1, with_history, orig_first),
                with_history,
                next,
            );
        } else {
            assert(tail[i - 1] == path[i]);
            assert(made[i - 1] == all[i]);
            let before = if i == 1 {
                next
            } else {
                made[i - 2]
            };
            assert(before == all[i - 1]);
            lemma_replayed_stays(
                t,
                t,
                h.asked.len() as int,
                from,
                path[i].0,
                path[i].1,
                stands_on(before, path[i].1, with_history, orig_first),
                with_history,
                made[i - 1],
            );
        }
    }
    if made.len() > 0 {
        assert(all.last() == made.last());
    }
}

/// The entries of the last row from column `i2` up to `end`.
spec fn row_between(grid: GridView, i2: int, end: int) -> Seq<(Seq<char>, Seq<char>)> {
    Seq::new(
        if i2 <= end {
            (end - i2) as nat
        } else {
            0
        },
        |i: int| (grid.commit(grid.len1 - 1, i2 + i), grid.commit(0, i2 + i)),
    )
}

/// The entries of the last column from row `i1` up to `end`.
spec fn column_between(grid: GridView, i1: int, end: int) -> Seq<(Seq<char>, Seq<char>)> {
    Seq::new(
        if i1 <= end {
            (end - i1) as nat
        } else {
            0
        },
        |i: int| (grid.commit(i1 + i, grid.len2 - 1), grid.commit(i1 + i, 0)),
    )
}

proof fn lemma_replay_row(
    g: Talk,
    grid: GridView,
    i2: int,
    end: int,
    commit: Seq<char>,
    with_history: bool,
) -> (made: Seq<Seq<char>>)
    ensures
        ({
            let (t, r) = g.replay_row(grid, i2, end, commit, with_history);
            let from = g.asked.len() as int;
            let path = row_between(grid, i2, end);
            &&& g.grows_to(t)
            &&& only_replays(t, from, t.asked.len() as int, path, with_history)
            &&& r matches Ok(last) ==> are_replayed(
                t,
                from,
                commit,
                path,
                with_history,
                false,
                made,
            ) && last == end_of(commit, made)
        }),
    decreases end - i2,
{
    let path = row_between(grid, i2, end);
    if i2 >= end {
        Seq::empty()
    } else {
        let orig = grid.commit(0, i2);
        let cell = grid.commit(grid.len1 - 1, i2);
        let parents = stands_on(commit, orig, with_history, false);
        assert(path.skip(1) =~= row_between(grid, i2 + 1, end));
        lemma_replayed(g, cell, orig, parents, with_history);
        let (h, step) = g.replayed(cell, orig, parents, with_history);
        let t = g.replay_row(grid, i2, end, commit, with_history).0;
        if let Ok(next) = step {
            let made = lemma_replay_row(h, grid, i2 + 1, end, next, with_history);
            assert(g.replay_row(grid, i2, end, commit, with_history) == h.replay_row(
                grid,
                i2 + 1,
                end,
                next,
                with_history,
            ));
            lemma_only_replays(h, t, g.asked.len() as int, path, parents, with_history);
            if h.replay_row(grid, i2 + 1, end, next, with_history).1 is Ok {
                lemma_replay_step(
                    h,
                    t,
                    g.asked.len() as int,
                    commit,
                    path,
                    with_history,
                    false,
                    next,
                    made,
                );
            }
            seq![next] + made
        } else {
            assert(t == h);
            assert(only_replays(h, h.asked.len() as int, h.asked.len() as int, path.skip(1), with_history));
            lemma_only_replays(h, h, g.asked.len() as int, path, parents, with_history);
            Seq::empty()
        }
    }
}

proof fn lemma_replay_column(
    g: Talk,
    grid: GridView,
    i1: int,
    end: int,
    commit: Seq<char>,
    with_history: bool,
) -> (made: Seq<Seq<char>>)
    ensures
        ({
            let (t, r) = g.replay_column(grid, i1, end, commit, with_history);
            let from = g.asked.len() as int;
            let path = column_between(grid, i1, end);
            &&& g.grows_to(t)
            &&& only_replays(t, from, t.asked.len() as int, path, with_history)
            &&& r matches Ok(last) ==> are_replayed(
                t,
                from,
                commit,
                path,
                with_history,
                true,
                made,
            ) && last == end_of(commit, made)
        }),
    decreases end - i1,
{
    let path = column_between(grid, i1, end);
    if i1 >= end {
        Seq::empty()
    } else {
        let orig = grid.commit(i1, 0);
        let cell = grid.commit(i1, grid.len2 - 1);
        let parents = stands_on(commit, orig, with_history, true);
        assert(path.skip(1) =~= column_between(grid, i1 + 1, end));
        lemma_replayed(g, cell, orig, parents, with_history);
        let (h, step) = g.replayed(cell, orig, parents, with_history);
        let t = g.replay_column(grid, i1, end, commit, with_history).0;
        if let Ok(next) = step {
            let made = lemma_replay_column(h, grid, i1 + 1, end, next, with_history);
            assert(g.replay_column(grid, i1, end, commit, with_history) == h.replay_column(
                grid,
                i1 + 1,
                end,
                next,
                with_history,
            ));
            lemma_only_replays(h, t, g.asked.len() as int, path, parents, with_history);
            if h.replay_column(grid, i1 + 1, end, next, with_history).1 is Ok {
                lemma_replay_step(
                    h,
                    t,
                    g.asked.len() as int,
                    commit,
                    path,
                    with_history,
                    true,
                    next,
                    made,
                );
            }
            seq![next] + made
        } else {
            assert(t == h);
            assert(only_replays(h, h.asked.len() as int, h.asked.len() as int, path.skip(1), with_history));
            lemma_only_replays(h, h, g.asked.len() as int, path, parents, with_history);
            Seq::empty()
        }
    }
}

proof fn lemma_nothing_missing(grid: GridView, i: int)
    requires
        1 <= i,
    ensures
        missing_in_row(grid, i) is None ==> forall|k: int|
            i <= k < grid.len2 ==> #[trigger] grid.known(grid.len1 - 1, k),
    decreases grid.len2 - i,
{
    if i < grid.len2 && grid.known(grid.len1 - 1, i) {
        lemma_nothing_missing(grid, i + 1);
    }
}

proof fn lemma_nothing_missing_below(grid: GridView, i: int)
    requires
        1 <= i,
    ensures
        missing_in_column(grid, i) is None ==> forall|k: int|
            i <= k < grid.len1 ==> #[trigger] grid.known(k, grid.len2 - 1),
    decreases grid.len1 - i,
{
    if i < grid.len1 && grid.known(i, grid.len2 - 1) {
        lemma_nothing_missing_below(grid, i + 1);
    }
}

/// A rebase with history replays the second branch on the last commit of the first.
/// Each new commit has the tree of the cell that stands for the original one in the
/// last row, its author, its message with a note, and two parents: the new commit
/// before it, and the original one. The branch is set to the last of them.
pub proof fn law_rebase_with_history(
    g: Talk,
    s: MergeStateView,
    refname: Seq<char>,
    force: bool,
) -> (r: (Seq<Seq<char>>, int))
    requires
        s.wf(),
        s.goal == "rebase-with-history"@,
    ensures
        ({
            let (t, result) = g.simplify(s, refname, force);
            let from = g.asked.len() as int;
            let base = s.grid.commit(s.grid.len1 - 1, 0);
            let path = along_row(s.grid);
            &&& only_replays(t, from, t.asked.len() as int, path, true)
            &&& result is Ok ==> {
                &&& forall|i: int|
                    1 <= i < s.grid.len2 ==> #[trigger] s.grid.known(s.grid.len1 - 1, i)
                &&& are_replayed(t, from, base, path, true, false, r.0)
                &&& is_set(t, r.1, t.asked.len() as int, refname, end_of(base, r.0), force)
            }
        }),
{
    lemma_dispatch(g, s, refname, force);
    lemma_nothing_missing(s.grid, 1);
    let from = g.asked.len() as int;
    let base = s.grid.commit(s.grid.len1 - 1, 0);
    let path = along_row(s.grid);
    let (t, result) = g.simplify_to_rebase_with_history(s, refname, force);
    if missing_in_row(s.grid, 1) is None {
        let made = lemma_replay_row(g, s.grid, 1, s.grid.len2 as int, base, true);
        assert(row_between(s.grid, 1, s.grid.len2 as int) =~= path);
        let (h, row) = g.replay_row(s.grid, 1, s.grid.len2 as int, base, true);
        if let Ok(last) = row {
            law_branch_is_set(h, refname, last, force);
            lemma_replays_stay(h, t, from, h.asked.len() as int, path, true);
            lemma_all_replayed_stay(h, t, from, base, path, true, false, made);
        }
        (made, h.asked.len() as int)
    } else {
        (Seq::empty(), 0)
    }
}

/// Requests that make no commit replay nothing.
proof fn lemma_replays_stay(
    g: Talk,
    t: Talk,
    from: int,
    to: int,
    path: Seq<(Seq<char>, Seq<char>)>,
    with_history: bool,
)
    requires
        g.grows_to(t),
        0 <= from <= to <= g.asked.len(),
        only_replays(g, from, to, path, with_history),
    ensures
        only_replays(t, from, to, path, with_history),
        (forall|k: int| to <= k < t.asked.len() ==> !makes_commit(#[trigger] t.asked[k]))
            ==> only_replays(t, from, t.asked.len() as int, path, with_history),
{
    assert forall|k: int|
        from <= k < to && #[trigger] makes_commit(t.asked[k]) implies exists|
        j: int,
        p: Seq<Seq<char>>,
    |
        0 <= j < path.len() && #[trigger] replaying_at(
            t,
            k - 3,
            path[j].0,
            path[j].1,
            p,
            with_history,
        ) by {
        assert(t.asked[k] == g.asked[k]);
        assert(makes_commit(g.asked[k]));
        let (j, p) = choose|j: int, p: Seq<Seq<char>>|
            0 <= j < path.len() && #[trigger] replaying_at(
                g,
                k - 3,
                path[j].0,
                path[j].1,
                p,
                with_history,
            );
        lemma_replaying_stays(g, t, k - 3, path[j].0, path[j].1, p, with_history);
    }
}

proof fn lemma_all_replayed_stay(
    g: Talk,
    t: Talk,
    from: int,
    base: Seq<char>,
    path: Seq<(Seq<char>, Seq<char>)>,
    with_history: bool,
    orig_first: bool,
    made: Seq<Seq<char>>,
)
    requires
        g.grows_to(t),
        are_replayed(g, from, base, path, with_history, orig_first, made),
    ensures
        are_replayed(t, from, base, path, with_history, orig_first, made),
{
    assert forall|i: int| 0 <= i < path.len() implies is_replayed(
        t,
        from,
        path[i].0,
        path[i].1,
        stands_on(
            if i == 0 {
                base
            } else {
                made[i - 1]
            },
            path[i].1,
            with_history,
            orig_first,
        ),
        with_history,
        #[trigger] made[i],
    ) by {
        lemma_replayed_stays(
            g,
            t,
            from,
            from,
            path[i].0,
            path[i].1,
            stands_on(
                if i == 0 {
                    base
                } else {
                    made[i - 1]
                },
                path[i].1,
                with_history,
                orig_first,
            ),
            with_history,
            made[i],
        );
    }
}

/// What becomes of the border of the grid: `made1` are the commits of the second
/// branch, replayed on the first, and `made2` those of the first, replayed on the
/// second, each but for its last. The merge of the two ends, with the tree of the last
/// cell, is what the branch is set to.
pub open spec fn is_border(
    t: Talk,
    from: int,
    s: MergeStateView,
    refname: Seq<char>,
    force: bool,
    with_history1: bool,
    with_history2: bool,
    made1: Seq<Seq<char>>,
    made2: Seq<Seq<char>>,
    m: int,
    apex: Seq<char>,
) -> bool {
    let last1 = s.grid.len1 - 1;
    let last2 = s.grid.len2 - 1;
    let tip1 = s.grid.commit(last1, 0);
    let tip2 = s.grid.commit(0, last2);
    &&& are_replayed(
        t,
        from,
        tip1,
        along_row(s.grid).take(last2 - 1),
        with_history2,
        false,
        made1,
    )
    &&& are_replayed(
        t,
        from,
        tip2,
        along_column(s.grid).take(last1 - 1),
        with_history1,
        true,
        made2,
    )
    &&& merging_at(
        t,
        m,
        s.grid.commit(last1, last2),
        seq![end_of(tip1, made1), end_of(tip2, made2)],
        "Merge "@ + s.tip2 + " into "@ + s.tip1 + " (using imerge border)"@,
    )
    &&& gave(t, m + 1, apex)
    &&& is_set(t, m + 2, t.asked.len() as int, refname, apex, force)
}

proof fn lemma_to_border(
    g: Talk,
    s: MergeStateView,
    refname: Seq<char>,
    with_history1: bool,
    with_history2: bool,
    force: bool,
) -> (r: (Seq<Seq<char>>, Seq<Seq<char>>, int, Seq<char>))
    requires
        s.grid.len1 >= 2,
        s.grid.len2 >= 2,
    ensures
        g.simplify_to_border(s, refname, with_history1, with_history2, force) matches (t, Ok(_)) ==> {
            &&& forall|i: int| 1 <= i < s.grid.len2 ==> #[trigger] s.grid.known(s.grid.len1 - 1, i)
            &&& forall|i: int| 1 <= i < s.grid.len1 ==> #[trigger] s.grid.known(i, s.grid.len2 - 1)
            &&& is_border(
                t,
                g.asked.len() as int,
                s,
                refname,
                force,
                with_history1,
                with_history2,
                r.0,
                r.1,
                r.2,
                r.3,
            )
        },
{
    let from = g.asked.len() as int;
    let last1 = s.grid.len1 - 1;
    let last2 = s.grid.len2 - 1;
    let tip1 = s.grid.commit(last1, 0);
    let tip2 = s.grid.commit(0, last2);
    let commit = s.grid.commit(last1, last2);
    let msg = "Merge "@ + s.tip2 + " into "@ + s.tip1 + " (using imerge border)"@;
    lemma_nothing_missing(s.grid, 1);
    lemma_nothing_missing_below(s.grid, 1);
    let row = along_row(s.grid).take(last2 - 1);
    let column = along_column(s.grid).take(last1 - 1);
    assert(row_between(s.grid, 1, last2) =~= row);
    assert(column_between(s.grid, 1, last1) =~= column);
    let (t, result) = g.simplify_to_border(s, refname, with_history1, with_history2, force);
    let (g1, r1) = g.replay_row(s.grid, 1, last2, tip1, with_history2);
    if result is Ok {
        let c1 = r1->Ok_0;
        let (g2, r2) = g1.replay_column(s.grid, 1, last1, tip2, with_history1);
        let c2 = r2->Ok_0;
        let (g3, r3) = g2.get_tree(commit);
        let (g4, r4) = g3.commit_tree(r3->Ok_0, seq![c1, c2], msg, None);
        let apex = r4->Ok_0;
        let made1 = lemma_replay_row(g, s.grid, 1, last2, tip1, with_history2);
        let made2 = lemma_replay_column(g1, s.grid, 1, last1, tip2, with_history1);
        lemma_merging(g2, commit, seq![c1, c2], msg);
        law_branch_is_set(g4, refname, apex, force);
        assert((t, result) == g4.set_refname(refname, apex, force));
        assert(g1.grows_to(t) && g2.grows_to(t));
        lemma_all_replayed_stay(g1, t, from, tip1, row, with_history2, false, made1);
        lemma_all_replayed_from(g2, t, g1.asked.len() as int, from, tip2, column, with_history1, made2);
        lemma_merging_stays(g4, t, g2.asked.len() as int, commit, seq![c1, c2], msg);
        (made1, made2, g2.asked.len() as int, apex)
    } else {
        (Seq::empty(), Seq::empty(), 0, Seq::empty())
    }
}

proof fn lemma_all_replayed_from(
    g: Talk,
    t: Talk,
    from: int,
    earlier: int,
    base: Seq<char>,
    path: Seq<(Seq<char>, Seq<char>)>,
    with_history: bool,
    made: Seq<Seq<char>>,
)
    requires
        g.grows_to(t),
        earlier <= from,
        are_replayed(g, from, base, path, with_history, true, made),
    ensures
        are_replayed(t, earlier, base, path, with_history, true, made),
{
    assert forall|i: int| 0 <= i < path.len() implies is_replayed(
        t,
        earlier,
        path[i].0,
        path[i].1,
        stands_on(
            if i == 0 {
                base
            } else {
                made[i - 1]
            },
            path[i].1,
            with_history,
            true,
        ),
        with_history,
        #[trigger] made[i],
    ) by {
        lemma_replayed_stays(
            g,
            t,
            from,
            earlier,
            path[i].0,
            path[i].1,
            stands_on(
                if i == 0 {
                    base
                } else {
                    made[i - 1]
                },
                path[i].1,
                with_history,
                true,
            ),
            with_history,
            made[i],
        );
    }
}

/// A border replays each branch on the other and merges the two. The history of the
/// second branch is kept with `border-with-history`, that of both with
/// `border-with-history2`.
pub proof fn law_border_replays_both_branches(
    g: Talk,
    s: MergeStateView,
    refname: Seq<char>,
    force: bool,
) -> (r: (Seq<Seq<char>>, Seq<Seq<char>>, int, Seq<char>))
    requires
        s.wf(),
        s.grid.len1 >= 2,
        s.grid.len2 >= 2,
        s.goal == "border"@ || s.goal == "border-with-history"@ || s.goal
            == "border-with-history2"@,
    ensures
        g.simplify(s, refname, force) matches (t, Ok(_)) ==> {
            &&& forall|i: int| 1 <= i < s.grid.len2 ==> #[trigger] s.grid.known(s.grid.len1 - 1, i)
            &&& forall|i: int| 1 <= i < s.grid.len1 ==> #[trigger] s.grid.known(i, s.grid.len2 - 1)
            &&& is_border(
                t,
                g.asked.len() as int,
                s,
                refname,
                force,
                s.goal == "border-with-history2"@,
                s.goal != "border"@,
                r.0,
                r.1,
                r.2,
                r.3,
            )
        },
{
    lemma_goals();
    lemma_dispatch(g, s, refname, force);
    lemma_to_border(
        g,
        s,
        refname,
        s.goal == "border-with-history2"@,
        s.goal != "border"@,
        force,
    )
}

} // verus!
