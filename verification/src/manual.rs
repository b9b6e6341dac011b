//! Merges by the user.
//!
//! The laws here say what is prepared for the user to merge, and what is taken over of
//! what the user has done.
use vstd::prelude::*;

use crate::git::checkout_target;
use crate::imerge::{scratch, MergeStateView};
use crate::merging::current_commit;
use crate::outcome::{answer_at, commit_at};
use crate::outlining::{lemma_reparented, reparented_at};
use crate::rewriting::parents_of;
use crate::talk::{lemma_grows, lemma_learns_nothing, Talk};
use crate::text::{decimal, without_line_feeds, words_of};
use crate::trace::{asks, did, did_loud, ended, said};
use crate::undoing::{is_checkout_of, lemma_checkout_of};
use crate::work::{law_merge_place, merge_place};

verus! {

broadcast use lemma_grows, lemma_learns_nothing;

/// The branch on which the user makes a merge.
pub open spec fn work_branch(name: Seq<char>) -> Seq<char> {
    "refs/heads/imerge/"@ + name
}

/// The command that shows one commit.
pub open spec fn show(commit: Seq<char>) -> Seq<Seq<char>> {
    seq!["--no-pager"@, "log"@, "--no-walk"@, commit]
}

/// From `k` on, the commit `first` was put on the work branch and checked out, `second`
/// was merged into it without a commit, and the two original commits were shown.
pub open spec fn prepared_at(
    t: Talk,
    k: int,
    name: Seq<char>,
    i1: int,
    i2: int,
    first: Seq<char>,
    second: Seq<char>,
    orig1: Seq<char>,
    orig2: Seq<char>,
) -> bool {
    let at = decimal(i1 as nat) + "-"@ + decimal(i2 as nat);
    &&& did(
        t,
        k,
        seq![
            "update-ref"@,
            "-m"@,
            "imerge '"@ + name + "': Prepare merge "@ + at,
            work_branch(name),
            first,
        ],
    )
    &&& exists|args: Seq<Seq<char>>| #[trigger]
        asks(t, k + 1, args, None, None, true) && is_checkout_of(args, work_branch(name))
    &&& ended(t, k + 1, true)
    &&& asks(
        t,
        k + 2,
        seq!["merge"@, "--no-commit"@, "-m"@, "imerge '"@ + name + "': manual merge "@ + at, second],
        None,
        None,
        true,
    )
    &&& did_loud(t, k + 3, show(orig1))
    &&& did_loud(t, k + 4, show(orig2))
}

/// The user is asked to merge what stands above the cell into what stands before it in
/// its row, and is shown the two original commits that meet there.
pub proof fn law_user_merges_neighbours(g: Talk, s: MergeStateView, i1: usize, i2: usize)
    ensures
        g.request_user_merge(s, i1, i2) matches (t, Ok(_)) ==> {
            &&& s.grid.known(i1 as int, i2 - 1)
            &&& s.grid.known(i1 - 1, i2 as int)
            &&& prepared_at(
                t,
                g.asked.len() as int,
                s.grid.name,
                i1 as int,
                i2 as int,
                s.grid.commit(i1 as int, i2 - 1),
                s.grid.commit(i1 - 1, i2 as int),
                s.grid.commit(i1 as int, 0),
                s.grid.commit(0, i2 as int),
            )
            &&& t.asked.len() == g.asked.len() + 5
        },
{
    let name = s.grid.name;
    let k = g.asked.len() as int;
    let at = crate::fill::coordinates(i1 as int, i2 as int);
    let refname = scratch(name);
    lemma_checkout_of(refname);
    if let (t, Ok(_)) = g.request_user_merge(s, i1, i2) {
        let first = s.grid.commit(i1 as int, i2 - 1);
        let second = s.grid.commit(i1 - 1, i2 as int);
        let (g1, r1) = g.update_ref(
            refname,
            first,
            "imerge '"@ + name + "': Prepare merge "@ + at,
            true,
        );
        let (g2, r2) = g1.checkout(refname, false);
        assert(asks(g2, k + 1, seq!["checkout"@, checkout_target(refname)], None, None, true));
        let (g3, r3) = g2.manualmerge(second, "imerge '"@ + name + "': manual merge "@ + at);
        let g4 = g3.note("\nOriginal first commit:"@);
        let (g5, r5) = g4.summarize_commit(s.grid.commit(i1 as int, 0));
        let g6 = g5.note("\nOriginal second commit:"@);
        let (g7, r7) = g6.summarize_commit(s.grid.commit(0, i2 as int));
        assert(g1.asked.len() == k + 1 && g2.asked.len() == k + 2 && g3.asked.len() == k + 3);
        assert(g5.asked.len() == k + 4 && g7.asked.len() == k + 5);
        assert(t.asked == g7.asked);
        assert(asks(t, k + 1, seq!["checkout"@, checkout_target(refname)], None, None, true));
    }
}

/// A merge by the user is recorded for the cell between its two parents, which are the
/// merge results before it in its row and above it. If its parents stand in the wrong
/// order it is written once more with the right one. Nothing else in the grid changes.
pub proof fn law_user_merge_is_recorded(g: Talk, s: MergeStateView, commit: Seq<char>)
    requires
        s.wf(),
    ensures
        g.incorporate_manual_merge(s, commit) matches (t, later, Ok((i1, i2))) ==> {
            let k = g.asked.len() as int;
            let parents = words_of(without_line_feeds(said(t, k)));
            let row = s.grid.commit(i1 as int, i2 - 1);
            let column = s.grid.commit(i1 - 1, i2 as int);
            let cell = later.grid.cell(i1 as int, i2 as int);
            &&& did(t, k, parents_of(commit))
            &&& s.grid.has_inside(i1 as int, i2 as int)
            &&& s.grid.known(i1 as int, i2 - 1)
            &&& s.grid.known(i1 - 1, i2 as int)
            &&& later == s.with_grid(later.grid)
            &&& cell.manual()
            &&& {
                ||| parents == seq![row, column] && cell.sha1 == Some(commit) && t.asked.len() == k + 1
                ||| parents == seq![column, row] && cell.sha1 is Some && reparented_at(
                    t,
                    k + 1,
                    commit,
                    seq![row, column],
                    cell.sha1->0,
                )
            }
            &&& forall|b1: int, b2: int|
                s.grid.has(b1, b2) && (b1 != i1 || b2 != i2) ==> #[trigger] later.grid.cell(b1, b2)
                    == s.grid.cell(b1, b2)
        },
{
    let k = g.asked.len() as int;
    if let (t, later, Ok((i1, i2))) = g.incorporate_manual_merge(s, commit) {
        let (g1, r1) = g.get_commit_parents(commit);
        let parents = r1->Ok_0;
        law_merge_place(s.grid, commit, parents);
        let (_, _, swapped) = merge_place(s.grid, commit, parents)->Ok_0;
        let row = s.grid.commit(i1 as int, i2 - 1);
        let column = s.grid.commit(i1 - 1, i2 as int);
        assert(parents.len() == 2);
        if swapped {
            assert(parents =~= seq![column, row]);
            assert(seq![parents[1], parents[0]] =~= seq![row, column]);
            lemma_reparented(g1, commit, seq![row, column]);
        } else {
            assert(parents =~= seq![row, column]);
        }
        let f = s.grid.cell(i1 as int, i2 as int).flags;
        assert(((f | 8) & 0xfd) & 0x0c != 0) by (bit_vector);
        assert(s.grid.cells[i1 as int].len() == s.grid.len2);
        assert forall|b1: int, b2: int|
            s.grid.has(b1, b2) && (b1 != i1 || b2 != i2) implies #[trigger] later.grid.cell(b1, b2)
            == s.grid.cell(b1, b2) by {
            assert(s.grid.cells[b1].len() == s.grid.len2);
        }
    }
}

/// What the user has done is taken from the work branch, which has to be checked out. A
/// merge that was left uncommitted is committed first.
pub proof fn law_user_commit_is_on_the_work_branch(
    g: Talk,
    s: MergeStateView,
    edit_log_msg: Option<bool>,
)
    ensures
        g.user_commit(s, edit_log_msg) matches (t, Ok(commit)) ==> {
            let k = g.asked.len() as int;
            &&& asks(t, k, commit_at(work_branch(s.grid.name)), None, None, false)
            &&& asks(t, k + 1, seq!["symbolic-ref"@, "--quiet"@, "HEAD"@], None, None, false)
            &&& answer_at(t, k + 1) == Some(work_branch(s.grid.name))
            &&& answer_at(t, k) == Some(commit) || exists|j: int, edit: bool|
                {
                    &&& k + 1 < j
                    &&& #[trigger] committed_at(t, j, edit)
                    &&& edit_log_msg matches Some(e) ==> e == edit
                    &&& did(t, j + 1, current_commit())
                    &&& answer_at(t, j + 1) == Some(commit)
                }
        },
{
    broadcast use
        crate::replay::goes_on_commit_user_merge,
        crate::replay::goes_on_require_clean_work_tree,
    ;

    let k = g.asked.len() as int;
    let refname = scratch(s.grid.name);
    reveal_strlit("HEAD");
    reveal_strlit("^{commit}");
    reveal_strlit("HEAD^{commit}");
    assert(crate::git::as_commit("HEAD"@) =~= "HEAD^{commit}"@);
    if let (t, Ok(commit)) = g.user_commit(s, edit_log_msg) {
        let (g1, r1) = g.scratch_commit(s);
        lemma_scratch_commit(g, s);
        let (g2, r2) = g1.commit_user_merge(edit_log_msg);
        let made = r2->Ok_0;
        lemma_committed(g1, edit_log_msg);
        if made {
            let j = g2.asked.len() - 1;
            let (g3, r3) = g2.get_commit_sha1("HEAD"@);
            assert(g2.grows_to(g3));
            assert(g3.grows_to(t));
            let edit = choose|edit: bool| #[trigger]
                committed_at(g2, j, edit) && (edit_log_msg matches Some(e) ==> e == edit);
            assert(committed_at(t, j, edit));
            assert(did(g3, j + 1, current_commit()));
        } else {
            assert(g2.grows_to(t));
        }
        assert(g1.grows_to(t));
    }
}

/// At `j` the user's merge was committed.
pub open spec fn committed_at(t: Talk, j: int, edit: bool) -> bool {
    did_loud(
        t,
        j,
        seq![
            "commit"@,
            "--no-verify"@,
            if edit {
                "--edit"@
            } else {
                "--no-edit"@
            },
        ],
    )
}

proof fn lemma_scratch_commit(g: Talk, s: MergeStateView)
    ensures
        g.scratch_commit(s) matches (t, Ok(commit)) ==> {
            let k = g.asked.len() as int;
            &&& g.grows_to(t)
            &&& t.asked.len() == k + 2
            &&& asks(t, k, commit_at(work_branch(s.grid.name)), None, None, false)
            &&& asks(t, k + 1, seq!["symbolic-ref"@, "--quiet"@, "HEAD"@], None, None, false)
            &&& answer_at(t, k + 1) == Some(work_branch(s.grid.name))
            &&& answer_at(t, k) == Some(commit)
        },
{
}

proof fn lemma_committed(g: Talk, edit_log_msg: Option<bool>)
    ensures
        g.commit_user_merge(edit_log_msg) matches (t, Ok(made)) ==> made ==> {
            &&& t.asked.len() > g.asked.len()
            &&& exists|edit: bool| #[trigger]
                committed_at(t, t.asked.len() - 1, edit) && (edit_log_msg matches Some(e) ==> e
                    == edit)
        },
{
    if let (t, Ok(made)) = g.commit_user_merge(edit_log_msg) {
        if made {
            let (g1, r1) = g.simple_merge_in_progress();
            let (g2, r2) = g1.refresh_index();
            let (g3, r3) = g2.unstaged_changes();
            let (g4, r4) = g3.edit_wanted(edit_log_msg);
            let edit = r4->Ok_0;
            assert(committed_at(t, t.asked.len() - 1, edit));
        }
    }
}

} // verus!
