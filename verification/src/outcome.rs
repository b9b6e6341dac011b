//! Where a simplification leads.
//!
//! For each goal a law says which commits are made of a completed grid, and that the
//! branch is moved to the last of them, but not so that commits get lost.
use vstd::prelude::*;

use crate::block::GridView;
use crate::error::ErrorView;
use crate::git::{checkout_target, count_in};
use crate::history::parent_args;
use crate::imerge::{full_window, MergeStateView};
use crate::rewriting::{
    copying_at, gave, is_chain, is_commit_tree, law_chain_copies_its_path, lemma_chain_stays,
    lemma_commands_differ, lemma_commit_tree, lemma_copying_stays, makes_commit, only_copies,
    tree_of,
};
use crate::rowwise::{all_known, lemma_first_unknown};
use crate::simplify::{column_path, resolved_path, row_path, PathRefView};
use crate::talk::{RequestView, Talk};
use crate::text::{trimmed, without_line_feeds};
use crate::trace::{asks, did, did_loud, ended, said};

verus! {

/// The command that prints the commit that a ref points to.
pub open spec fn commit_at(refname: Seq<char>) -> Seq<Seq<char>> {
    seq!["rev-parse"@, "--verify"@, "--quiet"@, refname + "^{commit}"@]
}

/// The command that counts the commits on the ways from one commit to another.
pub open spec fn ways_between(older: Seq<char>, newer: Seq<char>) -> Seq<Seq<char>> {
    seq!["rev-list"@, "--count"@, "--ancestry-path"@, older + ".."@ + newer]
}

/// From `k` on, `refname` was pointed to `commit` and checked out.
pub open spec fn moved_at(t: Talk, k: int, refname: Seq<char>, commit: Seq<char>) -> bool {
    &&& did(
        t,
        k,
        seq!["update-ref"@, "-m"@, "imerge: recording final merge"@, refname, commit],
    )
    &&& exists|args: Seq<Seq<char>>| #[trigger]
        asks(t, k + 1, args, None, None, true) && is_checkout(args, refname)
    &&& ended(t, k + 1, true)
}

/// The command checks `refname` out: a branch by its short name, anything else as a
/// commit.
pub open spec fn is_checkout(args: Seq<Seq<char>>, refname: Seq<char>) -> bool {
    &&& args.len() == 3
    &&& args[0] == "checkout"@
    &&& args[1] == "--quiet"@
    &&& if exists|b: Seq<char>| refname == #[trigger] ("refs/heads/"@ + b) {
        refname == "refs/heads/"@ + args[2]
    } else {
        args[2] == refname + "^0"@
    }
}

/// What the command at `k` printed, without white space around it, if it ended well.
pub open spec fn answer_at(t: Talk, k: int) -> Option<Seq<char>> {
    if ended(t, k, true) {
        Some(trimmed(said(t, k)))
    } else {
        None
    }
}

/// Nothing gets lost when a ref moves from `present` to `commit`: they are the same,
/// or `git` says at `k` that the one leads to the other.
pub open spec fn keeps_history(t: Talk, k: int, present: Seq<char>, commit: Seq<char>) -> bool {
    present == commit || (did(t, k, ways_between(present, commit)) && count_in(
        without_line_feeds(said(t, k)),
    ) > 0)
}

/// Between `from` and `end` a ref was looked at and set to `commit`. If it was there
/// before and nobody forces it, it does not lose commits. If it is checked out, the
/// work tree goes with it; otherwise it is checked out.
pub open spec fn is_set(
    t: Talk,
    from: int,
    end: int,
    refname: Seq<char>,
    commit: Seq<char>,
    force: bool,
) -> bool {
    &&& asks(t, from, commit_at(refname), None, None, false)
    &&& match answer_at(t, from) {
        None => moved_at(t, from + 1, refname, commit) && end == from + 3,
        Some(present) => {
            let j = if force || present == commit {
                from + 2
            } else {
                from + 3
            };
            &&& asks(t, from + 1, seq!["symbolic-ref"@, "--quiet"@, "HEAD"@], None, None, false)
            &&& force || keeps_history(t, from + 2, present, commit)
            &&& if answer_at(t, from + 1) == Some(refname) {
                did_loud(t, j, seq!["reset"@, "--hard"@, commit]) && end == j + 1
            } else {
                moved_at(t, j, refname, commit) && end == j + 2
            }
        },
    }
}

/// The request moves a branch.
pub open spec fn moves_branch(r: RequestView) -> bool {
    r matches RequestView::Git { args, .. } && args.len() > 0 && (args[0] == "update-ref"@
        || args[0] == "reset"@)
}

proof fn lemma_checkout(refname: Seq<char>)
    ensures
        is_checkout(seq!["checkout"@, "--quiet"@, checkout_target(refname)], refname),
{
    reveal_strlit("refs/heads/");
    let prefix = "refs/heads/"@;
    let args = seq!["checkout"@, "--quiet"@, checkout_target(refname)];
    if crate::text::begins(refname, prefix) {
        let b = refname.skip(prefix.len() as int);
        assert(refname =~= prefix + b);
    } else {
        assert forall|b: Seq<char>| refname != #[trigger] (prefix + b) by {
            if refname == prefix + b {
                assert(refname.take(prefix.len() as int) =~= prefix);
            }
        }
    }
    assert(args[2] == checkout_target(refname));
}

proof fn lemma_move(g: Talk, refname: Seq<char>, commit: Seq<char>)
    ensures
        ({
            let (t, r) = g.move_ref(refname, commit);
            let k = g.asked.len() as int;
            &&& g.grows_to(t)
            &&& r is Ok ==> moved_at(t, k, refname, commit) && t.asked.len() == k + 2
            &&& forall|j: int| k <= j < t.asked.len() ==> !makes_commit(#[trigger] t.asked[j])
        }),
{
    broadcast use crate::talk::lemma_learns_nothing;

    lemma_commands_differ();
    lemma_checkout(refname);
    let (t, r) = g.move_ref(refname, commit);
    let k = g.asked.len() as int;
    if r is Ok {
        assert(asks(
            t,
            k + 1,
            seq!["checkout"@, "--quiet"@, checkout_target(refname)],
            None,
            None,
            true,
        ));
    }
}

proof fn lemma_no_move()
    ensures
        "rev-parse"@ != "update-ref"@,
        "rev-parse"@ != "reset"@,
        "rev-list"@ != "update-ref"@,
        "rev-list"@ != "reset"@,
        "symbolic-ref"@ != "update-ref"@,
        "symbolic-ref"@ != "reset"@,
{
    reveal_strlit("symbolic-ref");
    reveal_strlit("rev-list");
    reveal_strlit("rev-parse");
    reveal_strlit("update-ref");
    reveal_strlit("reset");
    assert("rev-parse"@[2] == 'v' && "reset"@[2] == 's' && "rev-list"@[2] == 'v');
    assert("symbolic-ref"@[0] == 's' && "update-ref"@[0] == 'u' && "rev-parse"@[0] == 'r'
        && "rev-list"@[0] == 'r' && "reset"@[0] == 'r');
}

/// A branch is set to a commit, and it loses none of its commits unless that is
/// forced. As long as it is not known that none gets lost, nothing is moved.
pub proof fn law_branch_is_set(g: Talk, refname: Seq<char>, commit: Seq<char>, force: bool)
    ensures
        ({
            let (t, r) = g.set_refname(refname, commit, force);
            let from = g.asked.len() as int;
            &&& g.grows_to(t)
            &&& r is Ok ==> is_set(t, from, t.asked.len() as int, refname, commit, force)
            &&& forall|k: int|
                from <= k < t.asked.len() ==> !makes_commit(#[trigger] t.asked[k]) && (
                moves_branch(t.asked[k]) && !force ==> match answer_at(t, from) {
                    Some(present) => keeps_history(t, from + 2, present, commit),
                    None => true,
                })
        }),
{
    broadcast use crate::talk::lemma_grows, crate::talk::lemma_learns_nothing;

    reveal(Talk::set_refname);
    lemma_commands_differ();
    lemma_no_move();
    let from = g.asked.len() as int;
    let (t, r) = g.set_refname(refname, commit, force);
    let (g1, r1) = g.get_commit_sha1(refname);
    assert(g.grows_to(g1));
    match r1 {
        Err(ErrorView::Suspended) => {},
        Err(_) => {
            lemma_move(g1, refname, commit);
            assert(answer_at(t, from) is None);
        },
        Ok(present) => {
            assert(g1.asked.len() == from + 1);
            let (g2, r2) = g1.get_head_refname(false);
            assert(g1.grows_to(g2));
            if let Ok(head) = r2 {
                assert(g2.asked.len() == from + 2);
                assert(head == answer_at(g2, from + 1));
                let (g3, r3) = if force {
                    (g2, Ok(true))
                } else {
                    g2.is_ancestor(present, commit)
                };
                assert(g2.grows_to(g3));
                if r3 == Ok::<bool, ErrorView>(true) {
                    assert(force || keeps_history(g3, from + 2, present, commit));
                    if head != Some(refname) {
                        lemma_move(g3, refname, commit);
                    }
                    assert(force || keeps_history(t, from + 2, present, commit));
                }
            }
        },
    }
}

// ---------------------------------------------------------------------
// One merge
// ---------------------------------------------------------------------

/// The requests at `k` and `k + 1` ask for the tree of `commit` and for a commit with
/// that tree and these parents.
pub open spec fn merging_at(
    t: Talk,
    k: int,
    commit: Seq<char>,
    parents: Seq<Seq<char>>,
    msg: Seq<char>,
) -> bool {
    &&& did(t, k, tree_of(commit))
    &&& exists|args: Seq<Seq<char>>| #[trigger]
        asks(t, k + 1, args, Some(msg), None, false) && is_commit_tree(
            args,
            trimmed(said(t, k)),
            parents,
        )
}

pub(crate) proof fn lemma_merging(g: Talk, commit: Seq<char>, parents: Seq<Seq<char>>, msg: Seq<char>)
    ensures
        ({
            let (h, r) = g.get_tree(commit);
            let k = g.asked.len() as int;
            &&& g.grows_to(h)
            &&& h.asked.len() <= k + 1
            &&& k < h.asked.len() ==> !makes_commit(h.asked[k])
            &&& r matches Ok(tree) ==> {
                let (t, made) = h.commit_tree(tree, parents, msg, None);
                &&& h.asked.len() == k + 1
                &&& h.grows_to(t)
                &&& t.asked.len() <= k + 2
                &&& t.asked.len() > k + 1 ==> merging_at(t, k, commit, parents, msg)
                &&& made matches Ok(sha1) ==> t.asked.len() == k + 2 && gave(t, k + 1, sha1)
            }
        }),
{
    broadcast use crate::talk::lemma_learns_nothing;

    lemma_commands_differ();
    let (h, r) = g.get_tree(commit);
    let k = g.asked.len() as int;
    if let Ok(tree) = r {
        let (t, made) = h.commit_tree(tree, parents, msg, None);
        lemma_commit_tree(tree, parents);
        let args = seq!["commit-tree"@, tree] + parent_args(parents);
        if t.asked.len() > k + 1 {
            assert(asks(t, k + 1, args, Some(msg), None, false));
            assert(did(t, k, tree_of(commit)));
        }
    }
}

pub(crate) proof fn lemma_merging_stays(
    g: Talk,
    t: Talk,
    k: int,
    commit: Seq<char>,
    parents: Seq<Seq<char>>,
    msg: Seq<char>,
)
    requires
        g.grows_to(t),
        merging_at(g, k, commit, parents, msg),
    ensures
        merging_at(t, k, commit, parents, msg),
{
    let args = choose|args: Seq<Seq<char>>| #[trigger]
        asks(g, k + 1, args, Some(msg), None, false) && is_commit_tree(
            args,
            trimmed(said(g, k)),
            parents,
        );
    assert(asks(t, k + 1, args, Some(msg), None, false));
}

/// The goals are told apart by how long they are and how they begin.
pub(crate) proof fn lemma_goals()
    ensures
        "full"@ != "rebase"@,
        "full"@ != "rebase-with-history"@,
        "full"@ != "border"@,
        "full"@ != "border-with-history"@,
        "full"@ != "border-with-history2"@,
        "full"@ != "drop"@,
        "full"@ != "revert"@,
        "full"@ != "merge"@,
        "rebase"@ != "rebase-with-history"@,
        "rebase"@ != "border"@,
        "rebase"@ != "border-with-history"@,
        "rebase"@ != "border-with-history2"@,
        "rebase"@ != "drop"@,
        "rebase"@ != "revert"@,
        "rebase"@ != "merge"@,
        "rebase-with-history"@ != "border"@,
        "rebase-with-history"@ != "border-with-history"@,
        "rebase-with-history"@ != "border-with-history2"@,
        "rebase-with-history"@ != "drop"@,
        "rebase-with-history"@ != "revert"@,
        "rebase-with-history"@ != "merge"@,
        "border"@ != "border-with-history"@,
        "border"@ != "border-with-history2"@,
        "border"@ != "drop"@,
        "border"@ != "revert"@,
        "border"@ != "merge"@,
        "border-with-history"@ != "border-with-history2"@,
        "border-with-history"@ != "drop"@,
        "border-with-history"@ != "revert"@,
        "border-with-history"@ != "merge"@,
        "border-with-history2"@ != "drop"@,
        "border-with-history2"@ != "revert"@,
        "border-with-history2"@ != "merge"@,
        "drop"@ != "revert"@,
        "drop"@ != "merge"@,
        "revert"@ != "merge"@,
{
    reveal_strlit("full");
    reveal_strlit("rebase");
    reveal_strlit("rebase-with-history");
    reveal_strlit("border");
    reveal_strlit("border-with-history");
    reveal_strlit("border-with-history2");
    reveal_strlit("drop");
    reveal_strlit("revert");
    reveal_strlit("merge");
    assert("full"@[0] == 'f' && "drop"@[0] == 'd');
    assert("rebase"@[2] == 'b' && "revert"@[2] == 'v' && "border"@[0] == 'b' && "rebase"@[0] == 'r'
        && "revert"@[0] == 'r');
    assert("rebase-with-history"@[0] == 'r' && "border-with-history"@[0] == 'b');
    assert("rebase"@.len() == 6 && "rebase-with-history"@.len() == 19 && "border"@.len() == 6
        && "border-with-history"@.len() == 19 && "border-with-history2"@.len() == 20);
    assert("full"@.len() == 4 && "drop"@.len() == 4 && "merge"@.len() == 5 && "revert"@.len() == 6);
}

/// What is done for each goal.
pub(crate) proof fn lemma_dispatch(g: Talk, s: MergeStateView, refname: Seq<char>, force: bool)
    ensures
        s.goal == "full"@ ==> g.simplify(s, refname, force) == g.simplify_to_full(s, refname, force),
        s.goal == "rebase"@ ==> g.simplify(s, refname, force) == g.simplify_to_rebase(s, refname, force),
        s.goal == "rebase-with-history"@ ==> g.simplify(s, refname, force) == g.simplify_to_rebase_with_history(s, refname, force),
        s.goal == "border"@ ==> g.simplify(s, refname, force) == g.simplify_to_border(s, refname, false, false, force),
        s.goal == "border-with-history"@ ==> g.simplify(s, refname, force) == g.simplify_to_border(s, refname, false, true, force),
        s.goal == "border-with-history2"@ ==> g.simplify(s, refname, force) == g.simplify_to_border(s, refname, true, true, force),
        s.goal == "drop"@ ==> g.simplify(s, refname, force) == g.simplify_to_drop(s, refname, force),
        s.goal == "revert"@ ==> g.simplify(s, refname, force) == g.simplify_to_rebase(s, refname, force),
        s.goal == "merge"@ ==> g.simplify(s, refname, force) == g.simplify_to_merge(s, refname, force),
{
    lemma_goals();
}

proof fn lemma_to_merge(g: Talk, s: MergeStateView, refname: Seq<char>, force: bool)
    ensures
        ({
            let (t, r) = g.simplify_to_merge(s, refname, force);
            let from = g.asked.len() as int;
            let last1 = s.grid.len1 - 1;
            let last2 = s.grid.len2 - 1;
            let parents = seq![s.grid.commit(last1, 0), s.grid.commit(0, last2)];
            let msg = "Merge "@ + s.tip2 + " into "@ + s.tip1 + " (using imerge)"@;
            &&& g.grows_to(t)
            &&& forall|k: int|
                from <= k < t.asked.len() && makes_commit(#[trigger] t.asked[k]) ==> k == from + 1
                    && merging_at(t, from, s.grid.commit(last1, last2), parents, msg)
            &&& r is Ok ==> exists|sha1: Seq<char>|
                {
                    let end = t.asked.len() - 1;
                    &&& s.grid.known(last1, last2)
                    &&& merging_at(t, from, s.grid.commit(last1, last2), parents, msg)
                    &&& #[trigger] gave(t, from + 1, sha1)
                    &&& is_set(t, from + 2, end, refname, sha1, force)
                    &&& did_loud(t, end, seq!["commit"@, "--amend"@])
                }
        }),
{
    broadcast use crate::talk::lemma_grows, crate::talk::lemma_learns_nothing;

    lemma_commands_differ();
    let (t, r) = g.simplify_to_merge(s, refname, force);
    let from = g.asked.len() as int;
    let last1 = s.grid.len1 - 1;
    let last2 = s.grid.len2 - 1;
    let commit = s.grid.commit(last1, last2);
    let parents = seq![s.grid.commit(last1, 0), s.grid.commit(0, last2)];
    let msg = "Merge "@ + s.tip2 + " into "@ + s.tip1 + " (using imerge)"@;
    if s.grid.known(last1, last2) {
        lemma_merging(g, commit, parents, msg);
        let (g1, r1) = g.get_tree(commit);
        if let Ok(tree) = r1 {
            let (g2, r2) = g1.commit_tree(tree, parents, msg, None);
            if let Ok(sha1) = r2 {
                law_branch_is_set(g2, refname, sha1, force);
                let (g3, r3) = g2.set_refname(refname, sha1, force);
                assert(g3.grows_to(t));
                lemma_merging_stays(g2, t, from, commit, parents, msg);
                assert forall|k: int|
                    from <= k < t.asked.len() && makes_commit(#[trigger] t.asked[k]) implies k
                    == from + 1 by {
                    if k < g2.asked.len() {
                        assert(t.asked[k] == g2.asked[k]);
                        if k == from {
                            assert(t.asked[k] == g1.asked[k]);
                        }
                    } else if k < g3.asked.len() {
                        assert(t.asked[k] == g3.asked[k]);
                    }
                }
                if r is Ok {
                    lemma_set_stays(
                        g3,
                        t,
                        from + 2,
                        g3.asked.len() as int,
                        refname,
                        sha1,
                        force,
                    );
                    assert(gave(t, from + 1, sha1));
                }
            } else {
                assert(t == g2);
                assert forall|k: int|
                    from <= k < t.asked.len() && makes_commit(#[trigger] t.asked[k]) implies k
                    == from + 1 by {
                    if k == from {
                        assert(t.asked[k] == g1.asked[k]);
                    }
                }
            }
        }
    }
}

/// A completed incremental merge becomes one merge commit. At most one commit is
/// made. It has the tree of the last merge result, and two parents: the last commit
/// of the first branch and the last commit of the second, in this order. If all goes
/// well the branch is set to it, and the user can edit its message.
pub proof fn law_merge_joins_both_tips(g: Talk, s: MergeStateView, refname: Seq<char>, force: bool)
    requires
        s.goal == "merge"@,
    ensures
        ({
            let (t, r) = g.simplify(s, refname, force);
            let from = g.asked.len() as int;
            let last1 = s.grid.len1 - 1;
            let last2 = s.grid.len2 - 1;
            let parents = seq![s.grid.commit(last1, 0), s.grid.commit(0, last2)];
            let msg = "Merge "@ + s.tip2 + " into "@ + s.tip1 + " (using imerge)"@;
            &&& g.grows_to(t)
            &&& forall|k: int|
                from <= k < t.asked.len() && makes_commit(#[trigger] t.asked[k]) ==> k == from + 1
                    && merging_at(t, from, s.grid.commit(last1, last2), parents, msg)
            &&& r is Ok ==> exists|sha1: Seq<char>|
                {
                    let end = t.asked.len() - 1;
                    &&& s.grid.known(last1, last2)
                    &&& merging_at(t, from, s.grid.commit(last1, last2), parents, msg)
                    &&& #[trigger] gave(t, from + 1, sha1)
                    &&& is_set(t, from + 2, end, refname, sha1, force)
                    &&& did_loud(t, end, seq!["commit"@, "--amend"@])
                }
        }),
{
    lemma_dispatch(g, s, refname, force);
    lemma_to_merge(g, s, refname, force);
}

proof fn lemma_set_stays(
    g: Talk,
    t: Talk,
    from: int,
    end: int,
    refname: Seq<char>,
    commit: Seq<char>,
    force: bool,
)
    requires
        g.grows_to(t),
        is_set(g, from, end, refname, commit, force),
    ensures
        is_set(t, from, end, refname, commit, force),
{
    assert forall|k: int| moved_at(g, k, refname, commit) implies #[trigger] moved_at(
        t,
        k,
        refname,
        commit,
    ) by {
        let args = choose|args: Seq<Seq<char>>| #[trigger]
            asks(g, k + 1, args, None, None, true) && is_checkout(args, refname);
        assert(asks(t, k + 1, args, None, None, true));
    }
}

// ---------------------------------------------------------------------
// Chains
// ---------------------------------------------------------------------

/// A ref can go to `apex` without losing commits, as was found out from `k` on.
pub open spec fn is_forward(t: Talk, k: int, refname: Seq<char>, apex: Seq<char>) -> bool {
    &&& asks(t, k, commit_at(refname), None, None, false)
    &&& answer_at(t, k) matches Some(present) ==> keeps_history(t, k + 1, present, apex)
}

/// The commits that a path means.
proof fn lemma_resolved(
    grid: GridView,
    path: Seq<(PathRefView, PathRefView)>,
    k: nat,
    found: Seq<(Seq<char>, Seq<char>)>,
)
    requires
        k <= path.len(),
        found.len() == k,
    ensures
        resolved_path(grid, path, k, found) matches Ok(list) ==> {
            &&& list.len() == path.len()
            &&& forall|i: int| 0 <= i < k ==> list[i] == found[i]
            &&& forall|i: int|
                k <= i < path.len() ==> {
                    &&& path[i].0.resolved(grid) == Ok::<Seq<char>, ErrorView>((#[trigger] list[i]).0)
                    &&& path[i].1.resolved(grid) == Ok::<Seq<char>, ErrorView>(list[i].1)
                }
        },
    decreases path.len() - k,
{
    if k < path.len() {
        if let (Ok(commit), Ok(metadata)) = (
            path[k as int].0.resolved(grid),
            path[k as int].1.resolved(grid),
        ) {
            let more = found.push((commit, metadata));
            lemma_resolved(grid, path, k + 1, more);
            if let Ok(list) = resolved_path(grid, path, k, found) {
                assert(list[k as int] == more[k as int]);
                assert forall|i: int| 0 <= i < k implies list[i] == found[i] by {
                    assert(list[i] == more[i]);
                }
            }
        }
    }
}

/// The result is a chain on `base` along `path`, and the branch is set to its end.
/// Unless forced, the branch had a way forward to the last commit of the path.
pub open spec fn ends_in_chain(
    t: Talk,
    from: int,
    base: Seq<char>,
    path: Seq<(Seq<char>, Seq<char>)>,
    refname: Seq<char>,
    force: bool,
    made: Seq<Seq<char>>,
    n: int,
    m: int,
) -> bool {
    let apex = if path.len() > 0 {
        path.last().0
    } else {
        base
    };
    let last = if path.len() > 0 {
        made.last()
    } else {
        base
    };
    &&& force || is_forward(t, from, refname, apex)
    &&& is_chain(t, from, seq![base], path, made, n)
    &&& is_set(t, m, t.asked.len() as int, refname, last, true)
}

/// Whatever comes of it, the only commits that are made are copies of the path's
/// entries, and nothing is moved unless that is forced or loses no commits.
pub open spec fn is_careful(
    t: Talk,
    from: int,
    base: Seq<char>,
    path: Seq<(Seq<char>, Seq<char>)>,
    refname: Seq<char>,
    force: bool,
) -> bool {
    let apex = if path.len() > 0 {
        path.last().0
    } else {
        base
    };
    &&& only_copies(t, from, path, 0)
    &&& forall|k: int|
        from <= k < t.asked.len() && moves_branch(#[trigger] t.asked[k]) ==> force || is_forward(
            t,
            from,
            refname,
            apex,
        )
}

proof fn lemma_forward(g: Talk, refname: Seq<char>, apex: Seq<char>)
    ensures
        ({
            let (t, r) = g.is_ff(refname, apex);
            let from = g.asked.len() as int;
            &&& g.grows_to(t)
            &&& r == Ok::<bool, ErrorView>(true) ==> is_forward(t, from, refname, apex)
            &&& forall|k: int|
                from <= k < t.asked.len() ==> !makes_commit(#[trigger] t.asked[k])
                    && !moves_branch(t.asked[k])
        }),
{
    broadcast use crate::talk::lemma_learns_nothing;

    lemma_commands_differ();
    lemma_no_move();
}

proof fn lemma_chain_result(
    g: Talk,
    g1: Talk,
    base: Seq<char>,
    path: Seq<(Seq<char>, Seq<char>)>,
    refname: Seq<char>,
    force: bool,
) -> (r: (Seq<Seq<char>>, int, int))
    requires
        g.grows_to(g1),
        force ==> g1 == g,
        !force ==> is_forward(
            g1,
            g.asked.len() as int,
            refname,
            if path.len() > 0 {
                path.last().0
            } else {
                base
            },
        ),
        forall|k: int|
            g.asked.len() <= k < g1.asked.len() ==> !makes_commit(#[trigger] g1.asked[k]),
    ensures
        ({
            let from = g.asked.len() as int;
            let (t, result) = match g1.create_commit_chain(Some(base), path) {
                (h, Err(e)) => (h, Err(e)),
                (h, Ok(chain)) => h.set_refname(refname, chain, true),
            };
            &&& g.grows_to(t)
            &&& is_careful(t, from, base, path, refname, force)
            &&& result is Ok ==> ends_in_chain(
                t,
                from,
                base,
                path,
                refname,
                force,
                r.0,
                r.1,
                r.2,
            )
        }),
{
    broadcast use crate::talk::lemma_grows, crate::talk::lemma_learns_nothing;

    let from = g.asked.len() as int;
    let mid = g1.asked.len() as int;
    let apex = if path.len() > 0 {
        path.last().0
    } else {
        base
    };
    let (made, n) = law_chain_copies_its_path(g1, base, path);
    let (h, chained) = g1.create_commit_chain(Some(base), path);
    let (t, result) = match chained {
        Err(e) => (h, Err(e)),
        Ok(chain) => h.set_refname(refname, chain, true),
    };
    if let Ok(chain) = chained {
        law_branch_is_set(h, refname, chain, true);
    }
    assert(h.grows_to(t));
    assert(force || is_forward(t, from, refname, apex));
    assert(only_copies(t, from, path, 0)) by {
        assert forall|k: int|
            from <= k < t.asked.len() && #[trigger] makes_commit(t.asked[k]) implies exists|
            j: int,
            p: Seq<Seq<char>>,
        |
            0 <= j < path.len() && from <= k - 3 && #[trigger] copying_at(
                t,
                k - 3,
                path[j].0,
                path[j].1,
                p,
            ) by {
            if k < mid {
                assert(t.asked[k] == g1.asked[k]);
            } else {
                assert(k < h.asked.len());
                assert(t.asked[k] == h.asked[k]);
                let (j, p) = choose|j: int, p: Seq<Seq<char>>|
                    0 <= j < path.len() && mid <= k - 3 && #[trigger] copying_at(
                        h,
                        k - 3,
                        path[j].0,
                        path[j].1,
                        p,
                    );
                lemma_copying_stays(h, t, k - 3, path[j].0, path[j].1, p);
            }
        }
    }
    if result is Ok {
        lemma_chain_stays(h, t, mid, from, seq![base], path, made, n);
    }
    (made, n, h.asked.len() as int)
}

/// The cells of the last row, each with the commit of the second branch that it
/// stands for.
pub open spec fn along_row(grid: GridView) -> Seq<(Seq<char>, Seq<char>)> {
    Seq::new(
        (grid.len2 - 1) as nat,
        |i: int| (grid.commit(grid.len1 - 1, i + 1), grid.commit(0, i + 1)),
    )
}

/// The cells of the last column, each with the commit of the first branch that it
/// stands for.
pub open spec fn along_column(grid: GridView) -> Seq<(Seq<char>, Seq<char>)> {
    Seq::new(
        (grid.len1 - 1) as nat,
        |i: int| (grid.commit(i + 1, grid.len2 - 1), grid.commit(i + 1, 0)),
    )
}

proof fn lemma_to_path(
    g: Talk,
    s: MergeStateView,
    refname: Seq<char>,
    start: PathRefView,
    path: Seq<(PathRefView, PathRefView)>,
    force: bool,
    base: Seq<char>,
    commits: Seq<(Seq<char>, Seq<char>)>,
) -> (r: (Seq<Seq<char>>, int, int))
    requires
        start.resolved(s.grid) matches Ok(c) ==> c == base,
        resolved_path(s.grid, path, 0, Seq::empty()) matches Ok(list) ==> list == commits,
    ensures
        ({
            let from = g.asked.len() as int;
            let (t, result) = g.simplify_to_path(s, refname, start, path, force);
            &&& g.grows_to(t)
            &&& is_careful(t, from, base, commits, refname, force)
            &&& result is Ok ==> {
                &&& start.resolved(s.grid) is Ok
                &&& resolved_path(s.grid, path, 0, Seq::empty()) is Ok
                &&& ends_in_chain(t, from, base, commits, refname, force, r.0, r.1, r.2)
            }
        }),
{
    broadcast use crate::talk::lemma_learns_nothing;

    let from = g.asked.len() as int;
    let apex = if commits.len() > 0 {
        commits.last().0
    } else {
        base
    };
    if start.resolved(s.grid) is Ok && resolved_path(s.grid, path, 0, Seq::empty()) is Ok {
        let (g1, allowed) = if force {
            (g, Ok(true))
        } else {
            g.is_ff(refname, apex)
        };
        lemma_forward(g, refname, apex);
        if allowed == Ok::<bool, ErrorView>(true) {
            lemma_chain_result(g, g1, base, commits, refname, force)
        } else {
            (Seq::empty(), 0, 0)
        }
    } else {
        (Seq::empty(), 0, 0)
    }
}

proof fn lemma_row(s: MergeStateView)
    requires
        s.grid.len1 >= 1,
        s.grid.len2 >= 1,
    ensures
        resolved_path(s.grid, row_path(s.grid), 0, Seq::empty()) matches Ok(list) ==> {
            &&& list == along_row(s.grid)
            &&& forall|i: int|
                1 <= i < s.grid.len2 ==> #[trigger] s.grid.known(s.grid.len1 - 1, i)
        },
        resolved_path(s.grid, column_path(s.grid), 0, Seq::empty()) matches Ok(list) ==> {
            &&& list == along_column(s.grid)
            &&& forall|i: int|
                1 <= i < s.grid.len1 ==> #[trigger] s.grid.known(i, s.grid.len2 - 1)
        },
{
    let grid = s.grid;
    lemma_resolved(grid, row_path(grid), 0, Seq::empty());
    lemma_resolved(grid, column_path(grid), 0, Seq::empty());
    if let Ok(list) = resolved_path(grid, row_path(grid), 0, Seq::empty()) {
        assert forall|i: int| 0 <= i < list.len() implies list[i] == along_row(
            grid,
        )[i] by {
            let e = list[i];
            assert(row_path(grid)[i].0.resolved(grid) is Ok);
        }
        assert(list =~= along_row(grid));
        assert forall|i: int| 1 <= i < grid.len2 implies #[trigger] grid.known(
            grid.len1 - 1,
            i,
        ) by {
            let e = list[i - 1];
            assert(row_path(grid)[i - 1].0.resolved(grid) is Ok);
        }
    }
    if let Ok(list) = resolved_path(grid, column_path(grid), 0, Seq::empty()) {
        assert forall|i: int| 0 <= i < list.len() implies list[i] == along_column(
            grid,
        )[i] by {
            let e = list[i];
            assert(column_path(grid)[i].0.resolved(grid) is Ok);
        }
        assert(list =~= along_column(grid));
        assert forall|i: int| 1 <= i < grid.len1 implies #[trigger] grid.known(
            i,
            grid.len2 - 1,
        ) by {
            let e = list[i - 1];
            assert(column_path(grid)[i - 1].0.resolved(grid) is Ok);
        }
    }
}

/// A rebase, and likewise a revert, puts the second branch on top of the first: a
/// chain on the last commit of the first branch with one commit for each commit of
/// the second. It has the tree of the cell that stands for that commit in the last
/// row, and its author and message. The branch is set to the end of the chain.
pub proof fn law_rebase_replays_the_second_branch(
    g: Talk,
    s: MergeStateView,
    refname: Seq<char>,
    force: bool,
) -> (r: (Seq<Seq<char>>, int, int))
    requires
        s.wf(),
        s.goal == "rebase"@ || s.goal == "revert"@,
    ensures
        ({
            let (t, result) = g.simplify(s, refname, force);
            let from = g.asked.len() as int;
            let base = s.grid.commit(s.grid.len1 - 1, 0);
            let path = along_row(s.grid);
            &&& is_careful(t, from, base, path, refname, force)
            &&& result is Ok ==> {
                &&& forall|i: int|
                    1 <= i < s.grid.len2 ==> #[trigger] s.grid.known(s.grid.len1 - 1, i)
                &&& ends_in_chain(t, from, base, path, refname, force, r.0, r.1, r.2)
            }
        }),
{
    lemma_dispatch(g, s, refname, force);
    lemma_row(s);
    let base = s.grid.commit(s.grid.len1 - 1, 0);
    let start = PathRefView::Cell((s.grid.len1 - 1) as usize, 0);
    lemma_to_path(g, s, refname, start, row_path(s.grid), force, base, along_row(s.grid))
}

/// A drop puts the first branch on the commit before the dropped ones: a chain on that
/// base with one commit for each commit of the first branch. It has the tree of the
/// cell that stands for that commit in the last column, and its author and message.
pub proof fn law_drop_replays_the_first_branch(
    g: Talk,
    s: MergeStateView,
    base: Seq<char>,
    refname: Seq<char>,
    force: bool,
) -> (r: (Seq<Seq<char>>, int, int))
    requires
        s.wf(),
        s.goal == "drop"@,
        s.goalopts matches Some(o) && o.base == Some(base),
    ensures
        ({
            let (t, result) = g.simplify(s, refname, force);
            let from = g.asked.len() as int;
            let path = along_column(s.grid);
            &&& is_careful(t, from, base, path, refname, force)
            &&& result is Ok ==> {
                &&& forall|i: int|
                    1 <= i < s.grid.len1 ==> #[trigger] s.grid.known(i, s.grid.len2 - 1)
                &&& ends_in_chain(t, from, base, path, refname, force, r.0, r.1, r.2)
            }
        }),
{
    lemma_dispatch(g, s, refname, force);
    lemma_row(s);
    let start = PathRefView::Sha1(base);
    lemma_to_path(g, s, refname, start, column_path(s.grid), force, base, along_column(s.grid))
}

/// A full merge is kept as it is: where every cell is known, the branch is set to the
/// last one. No commit is made.
pub proof fn law_full_keeps_the_last_cell(
    g: Talk,
    s: MergeStateView,
    refname: Seq<char>,
    force: bool,
)
    requires
        s.wf(),
        s.goal == "full"@,
    ensures
        ({
            let (t, r) = g.simplify(s, refname, force);
            let from = g.asked.len() as int;
            let last = s.grid.commit(s.grid.len1 - 1, s.grid.len2 - 1);
            &&& forall|k: int| from <= k < t.asked.len() ==> !makes_commit(#[trigger] t.asked[k])
            &&& r is Ok ==> {
                &&& all_known(s.grid, full_window(s.grid))
                &&& is_set(t, from, t.asked.len() as int, refname, last, force)
            }
        }),
{
    lemma_dispatch(g, s, refname, force);
    lemma_first_unknown(s.grid, full_window(s.grid), 1, 1);
    law_branch_is_set(
        g,
        refname,
        s.grid.commit(s.grid.len1 - 1, s.grid.len2 - 1),
        force,
    );
}

} // verus!
