//! What a drop and a revert undo.
//!
//! Both begin with a branch on the end of the range that takes back its commits. The
//! laws here say which commits are reverted and in which order, and what is stored.
use vstd::prelude::*;

use crate::cli::RangeArgsView;
use crate::git::checkout_target;
use crate::lineage::{is_lineage_at, law_ancestry_is_a_line, lemma_lineage_stays, resolve};
use crate::outcome::answer_at;
use crate::pattern::{is_gap, is_last_gap, range_parts};
use crate::rewriting::parents_of;
use crate::starting::{
    all_stored, asks_tip, lemma_clean, lemma_current_tip, lemma_none_stored, lemma_stored, name_at,
    none_stored, not_empty, result_branch, stores_launch_and_drive, tip_at, tip_steps,
};
use crate::state::GoalOptsView;
use crate::talk::{lemma_grows, lemma_learns_nothing, Talk};
use crate::text::{begins, without_line_feeds, words_of};
use crate::trace::{asks, did, did_loud, ended, said, works, works_call, works_on, works_same};

verus! {

broadcast use lemma_grows, lemma_learns_nothing, works_call, works_on, works_same;

/// The command that takes back one commit. Of a merge it takes back what was merged
/// into its first parent.
pub open spec fn revert_of(commit: Seq<char>, is_merge: bool) -> Seq<Seq<char>> {
    if is_merge {
        seq!["revert"@, "--no-edit"@, "-m"@, "1"@, commit]
    } else {
        seq!["revert"@, "--no-edit"@, commit]
    }
}

/// At `k` it was asked whether `commit` is a merge, and right afterwards it was taken
/// back.
pub open spec fn reverted_at(t: Talk, k: int, commit: Seq<char>) -> bool {
    &&& did(t, k, parents_of(commit))
    &&& did_loud(
        t,
        k + 1,
        revert_of(commit, words_of(without_line_feeds(said(t, k))).len() > 1),
    )
}

/// The command checks a commit out. Only a branch would be checked out by its name.
pub open spec fn is_checkout_of(args: Seq<Seq<char>>, commit: Seq<char>) -> bool {
    &&& args.len() == 2
    &&& args[0] == "checkout"@
    &&& if exists|b: Seq<char>| commit == #[trigger] ("refs/heads/"@ + b) {
        commit == "refs/heads/"@ + args[1]
    } else {
        args[1] == commit + "^0"@
    }
}

/// From `k` on, `end` was checked out and each of the commits was taken back, the last
/// one first, once each and nothing else; the commit that this led to is `result`.
pub open spec fn undone_at(
    t: Talk,
    k: int,
    end: Seq<char>,
    commits: Seq<Seq<char>>,
    result: Seq<char>,
) -> bool {
    let n = commits.len() as int;
    &&& exists|args: Seq<Seq<char>>| #[trigger]
        asks(t, k, args, None, None, true) && is_checkout_of(args, end)
    &&& ended(t, k, true)
    &&& forall|j: int|
        0 <= j < n ==> #[trigger] reverted_at(t, k + 1 + 2 * (n - 1 - j), commits[j])
    &&& did(t, k + 1 + 2 * n, resolve("HEAD"@))
    &&& answer_at(t, k + 1 + 2 * n) == Some(result)
    &&& t.asked.len() >= k + 2 + 2 * n
}

pub(crate) proof fn lemma_checkout_of(commit: Seq<char>)
    ensures
        is_checkout_of(seq!["checkout"@, checkout_target(commit)], commit),
{
    reveal_strlit("refs/heads/");
    let prefix = "refs/heads/"@;
    let args = seq!["checkout"@, checkout_target(commit)];
    if begins(commit, prefix) {
        let b = commit.skip(prefix.len() as int);
        assert(commit =~= prefix + b);
    } else {
        assert forall|b: Seq<char>| commit != #[trigger] (prefix + b) by {
            if commit == prefix + b {
                assert(commit.take(prefix.len() as int) =~= prefix);
            }
        }
    }
    assert(args[1] == checkout_target(commit));
}

proof fn lemma_revert(g: Talk, commit: Seq<char>)
    ensures
        g.revert(commit) matches (t, Ok(_)) ==> {
            &&& g.grows_to(t)
            &&& t.asked.len() == g.asked.len() + 2
            &&& reverted_at(t, g.asked.len() as int, commit)
        },
{
}

proof fn lemma_revert_all(g: Talk, commits: Seq<Seq<char>>, n: nat)
    requires
        n <= commits.len(),
    ensures
        g.revert_all(commits, n) matches (t, Ok(_)) ==> {
            let k = g.asked.len() as int;
            &&& g.grows_to(t)
            &&& t.asked.len() == k + 2 * n
            &&& forall|j: int| 0 <= j < n ==> #[trigger] reverted_at(t, k + 2 * (n - 1 - j), commits[j])
        },
    decreases n,
{
    let k = g.asked.len() as int;
    if n > 0 {
        let last = commits[n - 1];
        lemma_revert(g, last);
        let (h, r) = g.revert(last);
        if r is Ok {
            lemma_revert_all(h, commits, (n - 1) as nat);
            let (t, done) = h.revert_all(commits, (n - 1) as nat);
            if done is Ok {
                assert forall|j: int| 0 <= j < n implies #[trigger] reverted_at(
                    t,
                    k + 2 * (n - 1 - j),
                    commits[j],
                ) by {
                    if j == n - 1 {
                        assert(reverted_at(h, k, last));
                    } else {
                        assert(reverted_at(t, k + 2 + 2 * (n - 2 - j), commits[j]));
                    }
                }
            }
        }
    }
}

/// Undoing some commits reverts each of them once, from the newest to the oldest, on
/// what they led to.
pub proof fn law_undoing_reverts_newest_first(g: Talk, end: Seq<char>, commits: Seq<Seq<char>>)
    ensures
        g.undo(end, commits) matches (t, Ok(result)) ==> {
            &&& g.grows_to(t)
            &&& undone_at(t, g.asked.len() as int, end, commits, result)
            &&& t.asked.len() == g.asked.len() + 2 + 2 * commits.len()
        },
{
    let k = g.asked.len() as int;
    let n = commits.len() as int;
    lemma_checkout_of(end);
    let (g1, r1) = g.checkout(end, false);
    if r1 is Ok {
        assert(g.grows_to(g1));
        assert(asks(g1, k, seq!["checkout"@, checkout_target(end)], None, None, true));
        lemma_revert_all(g1, commits, commits.len());
        let (g2, r2) = g1.revert_all(commits, commits.len());
        if r2 is Ok {
            let (t, r3) = g2.rev_parse_required("HEAD"@);
            if let Ok(result) = r3 {
                assert(g2.grows_to(t));
                assert(asks(t, k, seq!["checkout"@, checkout_target(end)], None, None, true));
                assert forall|j: int| 0 <= j < n implies #[trigger] reverted_at(
                    t,
                    k + 1 + 2 * (n - 1 - j),
                    commits[j],
                ) by {
                    assert(reverted_at(g2, k + 1 + 2 * (n - 1 - j), commits[j]));
                }
            }
        }
    }
}

/// From `k` on it was found out where the range starts and where it ends. A single
/// commit is the range from its first parent.
pub open spec fn is_range_at(
    t: Talk,
    k: int,
    range: Seq<char>,
    start: Seq<char>,
    end: Seq<char>,
) -> bool {
    match range_parts(range) {
        Some((first, dots, last)) => {
            &&& dots == ".."@
            &&& did(t, k, resolve(first))
            &&& did(t, k + 1, resolve(last))
            &&& answer_at(t, k) == Some(start)
            &&& answer_at(t, k + 1) == Some(end)
        },
        None => {
            &&& did(t, k, resolve(range))
            &&& answer_at(t, k) == Some(end)
            &&& did(t, k + 1, resolve(end + "^"@))
            &&& answer_at(t, k + 1) == Some(start)
        },
    }
}

proof fn lemma_range(g: Talk, range: Seq<char>)
    ensures
        g.parse_range(range) matches (t, Ok((start, end))) ==> {
            &&& g.grows_to(t)
            &&& is_range_at(t, g.asked.len() as int, range, start, end)
            &&& t.asked.len() == g.asked.len() + 2
        },
{
}

/// What a drop or a revert did, from `from` on, before it recorded anything: the range
/// goes from `start` to `end`, the commits in it are `commits`, and each of them was
/// taken back on its end, which led to `tip2`.
pub open spec fn is_undone(
    t: Talk,
    from: int,
    args: RangeArgsView,
    start: Seq<char>,
    end: Seq<char>,
    commits: Seq<Seq<char>>,
    tip2: Seq<char>,
) -> bool {
    let k = from + 9;
    &&& is_range_at(t, from + 4, args.range, start, end)
    &&& is_lineage_at(t, from + 6, start, end, args.first_parent, commits)
    &&& asks_tip(t, k)
    &&& tip_at(t, k) is Some
    &&& undone_at(t, k + tip_steps(t, k, args.branch), end, commits, tip2)
}

/// The exchange and the result of setting up a drop or a revert.
proof fn lemma_range_setup(g: Talk, args: RangeArgsView, goal: Seq<char>) -> (r: (
    Seq<char>,
    Seq<char>,
    Seq<Seq<char>>,
))
    ensures
        g.range_setup(args, goal) matches (t, Ok(setup)) ==> {
            let from = g.asked.len() as int;
            let k = from + 9;
            &&& is_undone(t, from, args, r.0, r.1, r.2, setup.tip2)
            &&& setup.tip1 == tip_at(t, k)->0
            &&& setup.name == name_at(t, k, args.name)
            &&& setup.goal == goal
            &&& setup.goalopts == if goal == "drop"@ {
                Some(GoalOptsView { base: Some(r.0) })
            } else {
                None
            }
            &&& setup.manual == args.manual
            &&& setup.dedupe_patches == args.dedupe_patches
            &&& setup.branch matches Some(b) && not_empty(b, setup.name) == result_branch(
                t,
                k,
                args.branch,
                setup.name,
            )
        },
{
    let from = g.asked.len() as int;
    lemma_clean(g);
    let (g1, r1) = g.require_clean_work_tree("proceed"@);
    if r1 is Ok {
        lemma_range(g1, args.range);
        let (g2, r2) = g1.parse_range(args.range);
        if let Ok((start, end)) = r2 {
            law_ancestry_is_a_line(g2, start, end, args.first_parent);
            let (g3, r3) = g2.linear_ancestry(start, end, args.first_parent);
            if let Ok(commits) = r3 {
                lemma_current_tip(g3, args.name, args.branch);
                let (g4, r4) = g3.current_tip(args.name, args.branch);
                if r4 is Ok {
                    law_undoing_reverts_newest_first(g4, end, commits);
                    let (t, r5) = g4.undo(end, commits);
                    if r5 is Ok {
                        assert(g3.grows_to(t));
                        lemma_lineage_stays(
                            g3,
                            t,
                            from + 6,
                            start,
                            end,
                            args.first_parent,
                            commits,
                        );
                    }
                }
                (start, end, commits)
            } else {
                (start, end, Seq::empty())
            }
        } else {
            (Seq::empty(), Seq::empty(), Seq::empty())
        }
    } else {
        (Seq::empty(), Seq::empty(), Seq::empty())
    }
}

proof fn lemma_undone_stays(
    g: Talk,
    t: Talk,
    from: int,
    args: RangeArgsView,
    start: Seq<char>,
    end: Seq<char>,
    commits: Seq<Seq<char>>,
    tip2: Seq<char>,
)
    requires
        g.grows_to(t),
        is_undone(g, from, args, start, end, commits, tip2),
    ensures
        is_undone(t, from, args, start, end, commits, tip2),
{
    lemma_lineage_stays(g, t, from + 6, start, end, args.first_parent, commits);
    let q = from + 9 + tip_steps(g, from + 9, args.branch);
    let n = commits.len() as int;
    let a = choose|a: Seq<Seq<char>>| #[trigger]
        asks(g, q, a, None, None, true) && is_checkout_of(a, end);
    assert(asks(t, q, a, None, None, true));
    assert forall|j: int| 0 <= j < n implies #[trigger] reverted_at(
        t,
        q + 1 + 2 * (n - 1 - j),
        commits[j],
    ) by {
        assert(reverted_at(g, q + 1 + 2 * (n - 1 - j), commits[j]));
    }
}

/// A drop, and likewise a revert, takes back each commit of its range exactly once,
/// from the newest to the oldest, on the end of the range. What is stored has what was
/// checked out before as its first tip and what undoes the range as its second. A drop
/// keeps where the range starts. Unless another branch is asked for, the result goes
/// to the current branch, if its name is a good one.
pub proof fn law_range_is_undone(g: Talk, args: RangeArgsView, goal: Seq<char>) -> (r: (
    Seq<char>,
    Seq<char>,
    Seq<Seq<char>>,
    Seq<char>,
))
    ensures
        ({
            let t = g.cmd_drop_or_revert(args, goal).0;
            let from = g.asked.len() as int;
            let k = from + 9;
            let (start, end, commits, tip2) = r;
            none_stored(t, from) || {
                &&& is_undone(t, from, args, start, end, commits, tip2)
                &&& all_stored(
                    t,
                    from,
                    tip_at(t, k)->0,
                    tip2,
                    goal,
                    if goal == "drop"@ {
                        Some(GoalOptsView { base: Some(start) })
                    } else {
                        None
                    },
                    args.manual,
                    args.dedupe_patches,
                    result_branch(t, k, args.branch, name_at(t, k, args.name)),
                )
            }
        }),
{
    broadcast use
        crate::harmless::works_range_setup,
        crate::replay::goes_on_range_setup,
        crate::replay::goes_on_launch_and_drive,
    ;

    reveal(Talk::cmd_drop_or_revert);
    let t = g.cmd_drop_or_revert(args, goal).0;
    let from = g.asked.len() as int;
    let (h, r) = g.range_setup(args, goal);
    let (start, end, commits) = lemma_range_setup(g, args, goal);
    assert(works(g, h));
    if let Ok(setup) = r {
        stores_launch_and_drive(h, setup, args.first_parent);
        assert(h.grows_to(t));
        lemma_undone_stays(h, t, from, args, start, end, commits, setup.tip2);
        lemma_stored(g, h, t, setup);
        lemma_tip_stays(h, t, from, args, setup.name);
        (start, end, commits, setup.tip2)
    } else {
        lemma_none_stored(g, t);
        (start, end, commits, Seq::empty())
    }
}

proof fn lemma_tip_stays(g: Talk, t: Talk, from: int, args: RangeArgsView, name: Seq<char>)
    requires
        g.grows_to(t),
        g.asked.len() > from + 10,
    ensures
        tip_at(t, from + 9) == tip_at(g, from + 9),
        name_at(t, from + 9, args.name) == name_at(g, from + 9, args.name),
        result_branch(t, from + 9, args.branch, name) == result_branch(
            g,
            from + 9,
            args.branch,
            name,
        ),
{
}

// ---------------------------------------------------------------------
// Ranges
// ---------------------------------------------------------------------

/// A name of a commit that has no dot and no line feed.
pub open spec fn is_plain(name: Seq<char>) -> bool {
    name.len() > 0 && !name.contains('.') && !name.contains('\n')
}

/// Two names with two dots between them are a range from the first to the second. A name
/// alone is no range.
pub proof fn law_range_is_split_at_its_dots(first: Seq<char>, last: Seq<char>)
    requires
        is_plain(first),
        is_plain(last),
    ensures
        range_parts(first + ".."@ + last) == Some((first, ".."@, last)),
        range_parts(first) is None,
{
    reveal_strlit("..");
    let range = first + ".."@ + last;
    let a = first.len() as int;
    let b = a + 2;
    assert forall|i: int| 0 <= i < range.len() && range[i] == '.' implies a <= i < b by {
        if i < a {
            assert(first[i] == '.');
        } else if i >= b {
            assert(last[i - b] == '.');
        }
    }
    assert(is_gap(range, a, b)) by {
        assert(range[a - 1] == first[a - 1]);
        assert(range[b] == last[0]);
        let front = range.take(a - 1);
        let back = range.skip(b + 1);
        assert forall|i: int| 0 <= i < front.len() implies #[trigger] front[i] != '\n' by {
            assert(front[i] == first[i]);
        }
        assert forall|i: int| 0 <= i < back.len() implies #[trigger] back[i] != '\n' by {
            assert(back[i] == last[i + 1]);
        }
    }
    assert forall|c: int, d: int| #[trigger] is_gap(range, c, d) implies c == a && d == b by {
        assert(range[c] == '.');
        assert(range[d - 1] == '.');
        assert(range[c + 1] == '.');
        if d < b {
            assert(range[d] == '.');
        }
    }
    assert(is_last_gap(range, a, b));
    let (c, d) = choose|c: int, d: int| is_last_gap(range, c, d);
    assert(is_last_gap(range, c, d));
    assert(is_gap(range, c, d));
    assert(range.take(a) =~= first);
    assert(range.subrange(a, b) =~= ".."@);
    assert(range.skip(b) =~= last);
    assert forall|c: int, d: int| !#[trigger] is_gap(first, c, d) by {
        if is_gap(first, c, d) {
            assert(first[c] == '.');
        }
    }
}

} // verus!
