//! How an incremental merge ends, and what is kept of it in the meantime.
//!
//! The laws here speak of the requests by which an incremental merge is stored, read,
//! finished and removed, and by which the work tree is looked at and restored.
use vstd::prelude::*;

use crate::cli::{NameArgsView, SimplifyArgsView};
use crate::error::ErrorView;
use crate::git::TemporaryHeadView;
use crate::imerge::{merge_commits, scratch, MergeStateView};
use crate::manual::work_branch;
use crate::merging::current_commit;
use crate::outcome::answer_at;
use crate::rewriting::parents_of;
use crate::state::{is_goal, GoalOptsView, StateDictView};
use crate::pattern::name_in;
use crate::store::{delete_lines, names_in, refs_in, RefView};
use crate::talk::{lemma_grows, lemma_learns_nothing, ReplyView, RequestView, Talk};
use crate::text::{lines_of, without_line_feeds, words_of};
use crate::trace::{asks, did, did_loud, ended, said};
use crate::work::{is_finished, law_save_is_complete, same_results, second_branch};

verus! {

broadcast use lemma_grows, lemma_learns_nothing;

// ---------------------------------------------------------------------
// The work tree
// ---------------------------------------------------------------------

/// A command goes on only if there is a commit, the index can be refreshed, and neither
/// the work tree nor the index has changes. That is all that is asked.
pub proof fn law_work_tree_has_to_be_clean(g: Talk, action: Seq<char>)
    ensures
        g.require_clean_work_tree(action) matches (t, Ok(_)) ==> {
            let k = g.asked.len() as int;
            &&& did(t, k, seq!["rev-parse"@, "--verify"@, "HEAD"@])
            &&& did(t, k + 1, seq!["update-index"@, "-q"@, "--ignore-submodules"@, "--refresh"@])
            &&& did(t, k + 2, seq!["diff-files"@, "--quiet"@, "--ignore-submodules"@])
            &&& did(
                t,
                k + 3,
                seq!["diff-index"@, "--cached"@, "--quiet"@, "--ignore-submodules"@, "HEAD"@, "--"@],
            )
            &&& t.asked.len() == k + 4
        },
{
    let (g1, r1) = g.output(seq!["rev-parse"@, "--verify"@, "HEAD"@]);
    if r1 is Ok {
        let (g2, r2) = g1.refresh_index();
        if r2 is Ok {
            let (g3, r3) = g2.unstaged_changes();
            if r3 is Ok {
                let (g4, r4) = g3.uncommitted_changes();
            }
        }
    }
}

/// From `k` on it was asked which branch is checked out, and which commit.
pub open spec fn asks_head(t: Talk, k: int) -> bool {
    &&& asks(t, k, seq!["symbolic-ref"@, "--quiet"@, "HEAD"@], None, None, false)
    &&& did(t, k + 1, current_commit())
}

/// From `j` on, what was checked out at `k` was checked out again.
pub open spec fn restored_at(t: Talk, j: int, k: int, message: Seq<char>) -> bool {
    match answer_at(t, k) {
        Some(branch) => {
            &&& did(t, j, seq!["symbolic-ref"@, "-m"@, message, "HEAD"@, branch])
            &&& did_loud(t, j + 1, seq!["reset"@, "--hard"@])
        },
        None => {
            &&& did(
                t,
                j,
                seq!["update-ref"@, "--no-deref"@, "-m"@, message, "HEAD"@, "HEAD^0"@],
            )
            &&& answer_at(t, k + 1) matches Some(commit) && did_loud(
                t,
                j + 1,
                seq!["reset"@, "--hard"@, commit],
            )
        },
    }
}

/// What was checked out is restored: a branch as such, and otherwise the commit.
pub proof fn law_what_was_checked_out_is_restored(g: Talk, later: Talk, message: Seq<char>)
    requires
        g.temporary_head(message).0.grows_to(later),
    ensures
        g.temporary_head(message).1 matches Ok(head) ==> {
            let k = g.asked.len() as int;
            let (t, r) = later.restore(head);
            &&& asks_head(later, k)
            &&& r is Ok ==> restored_at(t, later.asked.len() as int, k, message)
        },
{
    reveal_strlit("HEAD");
    reveal_strlit("^{commit}");
    reveal_strlit("HEAD^{commit}");
    assert(crate::git::as_commit("HEAD"@) =~= "HEAD^{commit}"@);
    let k = g.asked.len() as int;
    let (g1, r1) = g.get_head_refname(false);
    if let Ok(branch) = r1 {
        assert(g1.asked.len() == k + 1);
        let (g2, r2) = g1.get_commit_sha1("HEAD"@);
        if let Ok(commit) = r2 {
            assert(branch == answer_at(g2, k));
            assert(answer_at(g2, k + 1) == Some(commit));
            assert(answer_at(later, k) == branch);
        }
    }
}

// ---------------------------------------------------------------------
// The state
// ---------------------------------------------------------------------

/// The ref that holds the state.
pub open spec fn state_ref(name: Seq<char>) -> Seq<char> {
    "refs/imerge/"@ + name + "/state"@
}

/// The state is written as JSON into a blob, and the ref for the state is pointed to
/// just that blob.
pub proof fn law_state_is_written(g: Talk, name: Seq<char>, state: StateDictView)
    ensures
        g.write_imerge_state_dict(name, state) matches (t, Ok(_)) ==> {
            let k = g.asked.len() as int;
            &&& t.asked.len() == k + 3
            &&& t.asked[k] == RequestView::EncodeState(state)
            &&& t.replies[k] matches ReplyView::Text(json) && asks(
                t,
                k + 1,
                seq!["hash-object"@, "-t"@, "blob"@, "-w"@, "--stdin"@],
                Some(json + "\n"@),
                None,
                false,
            )
            &&& ended(t, k + 1, true)
            &&& did(
                t,
                k + 2,
                seq![
                    "update-ref"@,
                    "-m"@,
                    "imerge '"@ + name + "': Record state"@,
                    state_ref(name),
                    without_line_feeds(said(t, k + 1)),
                ],
            )
        },
{
    let (g1, r1) = g.encode_state(state);
    if let Ok(json) = r1 {
        let (g2, r2) = g1.run_stdin(
            seq!["hash-object"@, "-t"@, "blob"@, "-w"@, "--stdin"@],
            json + "\n"@,
        );
    }
}

/// The state is read from the ref for the state.
pub proof fn law_state_is_read(g: Talk, name: Seq<char>)
    ensures
        g.read_imerge_state_dict(name) matches (t, Ok(state)) ==> {
            let k = g.asked.len() as int;
            &&& t.asked.len() == k + 2
            &&& did(t, k, seq!["cat-file"@, "blob"@, state_ref(name)])
            &&& t.asked[k + 1] == RequestView::DecodeState(without_line_feeds(said(t, k)))
            &&& t.replies[k + 1] == ReplyView::State(state)
        },
{
    let (g1, r1) = g.run(seq!["cat-file"@, "blob"@, crate::pattern::state_refname(name)]);
    if let Ok(blob) = r1 {
        let (g2, r2) = g1.decode_state(blob);
    }
}

// ---------------------------------------------------------------------
// Removing
// ---------------------------------------------------------------------

/// The piece stands somewhere in the text.
pub open spec fn occurs(text: Seq<char>, piece: Seq<char>) -> bool {
    exists|p: int|
        0 <= p && p + piece.len() <= text.len() && #[trigger] text.subrange(p, p + piece.len())
            == piece
}

proof fn lemma_deletes(refs: Seq<Seq<char>>)
    ensures
        forall|i: int|
            0 <= i < refs.len() ==> occurs(
                delete_lines(refs),
                "delete "@ + #[trigger] refs[i] + "\n"@,
            ),
    decreases refs.len(),
{
    if refs.len() > 0 {
        let front = refs.drop_last();
        lemma_deletes(front);
        let before = delete_lines(front);
        let all = delete_lines(refs);
        assert forall|i: int| 0 <= i < refs.len() implies occurs(
            all,
            "delete "@ + #[trigger] refs[i] + "\n"@,
        ) by {
            let piece = "delete "@ + refs[i] + "\n"@;
            if i < front.len() {
                assert(front[i] == refs[i]);
                assert(occurs(before, "delete "@ + front[i] + "\n"@));
                let p = choose|p: int|
                    0 <= p && p + piece.len() <= before.len() && #[trigger] before.subrange(
                        p,
                        p + piece.len(),
                    ) == piece;
                assert(all.subrange(p, p + piece.len()) =~= before.subrange(p, p + piece.len()));
            } else {
                let p = before.len() as int;
                assert(all.subrange(p, p + piece.len()) =~= piece);
            }
        }
    }
}

/// At `q` the refs of an incremental merge were listed, and right afterwards `git` was
/// told to delete each of them.
pub open spec fn removed_at(t: Talk, q: int, name: Seq<char>) -> bool {
    let refs = lines_of(without_line_feeds(said(t, q)));
    &&& did(t, q, seq!["for-each-ref"@, "--format=%(refname)"@, "refs/imerge/"@ + name])
    &&& refs.len() > 0 ==> exists|text: Seq<char>|
        {
            &&& asks(
                t,
                q + 1,
                seq!["update-ref"@, "-m"@, "imerge: remove merge '"@ + name + "'"@, "--stdin"@],
                Some(text),
                None,
                false,
            )
            &&& #[trigger] deletes_all(text, refs)
        }
}

/// The text tells `git` to delete each of the refs.
pub open spec fn deletes_all(text: Seq<char>, refs: Seq<Seq<char>>) -> bool {
    forall|i: int|
        0 <= i < refs.len() ==> occurs(text, "delete "@ + #[trigger] refs[i] + "\n"@)
}

proof fn lemma_removed(g: Talk, name: Seq<char>)
    ensures
        g.delete_imerge_refs(name) matches (t, Ok(_)) ==> {
            &&& g.grows_to(t)
            &&& removed_at(t, g.asked.len() as int, name)
        },
{
    let q = g.asked.len() as int;
    let (g1, r1) = g.run(seq!["for-each-ref"@, "--format=%(refname)"@, "refs/imerge/"@ + name]);
    if let Ok(out) = r1 {
        let refs = lines_of(out);
        lemma_deletes(refs);
        assert(deletes_all(delete_lines(refs), refs));
        if let (t, Ok(_)) = g.delete_imerge_refs(name) {
            assert(lines_of(without_line_feeds(said(t, q))) == refs);
        }
    }
}

/// An incremental merge is removed with all its refs: all that are listed below its
/// name, and the branch on which the user makes merges, which is left first if it is
/// checked out. If it was the default, there is none afterwards.
pub proof fn law_removing_leaves_nothing(g: Talk, name: Seq<char>) -> (r: (int, int))
    ensures
        g.remove_imerge(name) matches (t, Ok(_)) ==> {
            let k = g.asked.len() as int;
            let (d, q) = r;
            &&& asks(t, k, seq!["symbolic-ref"@, "--quiet"@, "HEAD"@], None, None, false)
            &&& answer_at(t, k) == Some(work_branch(name)) ==> {
                &&& asks(t, k + 1, seq!["reset"@, "--merge"@], None, None, false)
                &&& did(
                    t,
                    k + 2,
                    seq![
                        "update-ref"@,
                        "--no-deref"@,
                        "-m"@,
                        "Detach HEAD from "@ + work_branch(name),
                        "HEAD"@,
                        "HEAD^0"@,
                    ],
                )
            }
            &&& k < d
            &&& asks(
                t,
                d,
                seq![
                    "update-ref"@,
                    "-m"@,
                    "imerge "@ + name + ": remove scratch reference"@,
                    "-d"@,
                    work_branch(name),
                ],
                None,
                None,
                false,
            )
            &&& removed_at(t, d + 1, name)
            &&& d + 1 < q
            &&& asks(t, q, seq!["config"@, "imerge.default"@], None, None, false)
            &&& answer_at(t, q) == Some(name) ==> asks(
                t,
                q + 1,
                seq!["config"@, "--unset"@, "imerge.default"@],
                None,
                None,
                false,
            )
        },
{
    broadcast use crate::replay::goes_on_leave_scratch;

    let k = g.asked.len() as int;
    let (g1, r1) = g.leave_scratch(name);
    lemma_left(g, name);
    if r1 is Ok {
        let d = g1.asked.len() as int;
        let (g2, r2) = g1.delete_ref(
            scratch(name),
            "imerge "@ + name + ": remove scratch reference"@,
        );
        assert(g1.grows_to(g2));
        let (g3, r3) = g2.delete_imerge_refs(name);
        lemma_removed(g2, name);
        if r3 is Ok {
            let q = g3.asked.len() as int;
            let (g4, r4) = g3.get_default_imerge_name();
            if let (t, Ok(_)) = g.remove_imerge(name) {
                assert(g2.asked.len() == d + 1);
                assert(g3.grows_to(g4));
                assert(g4.grows_to(t));
                assert(removed_at(g3, d + 1, name));
                lemma_removed_stays(g3, t, d + 1, name);
            }
            (d, q)
        } else {
            (0, 0)
        }
    } else {
        (0, 0)
    }
}

proof fn lemma_left(g: Talk, name: Seq<char>)
    ensures
        g.leave_scratch(name) matches (t, Ok(_)) ==> {
            let k = g.asked.len() as int;
            &&& g.grows_to(t)
            &&& t.asked.len() > k
            &&& asks(t, k, seq!["symbolic-ref"@, "--quiet"@, "HEAD"@], None, None, false)
            &&& answer_at(t, k) == Some(work_branch(name)) ==> {
                &&& asks(t, k + 1, seq!["reset"@, "--merge"@], None, None, false)
                &&& did(
                    t,
                    k + 2,
                    seq![
                        "update-ref"@,
                        "--no-deref"@,
                        "-m"@,
                        "Detach HEAD from "@ + work_branch(name),
                        "HEAD"@,
                        "HEAD^0"@,
                    ],
                )
            }
        },
{
    let k = g.asked.len() as int;
    let (g1, r1) = g.get_head_refname(false);
    if let Ok(head) = r1 {
        assert(g.grows_to(g1));
        assert(g1.asked.len() == k + 1);
        assert(head == answer_at(g1, k));
        if head == Some(scratch(name)) {
            let (g2, r2) = g1.abort_merge();
            assert(g1.grows_to(g2));
        }
    }
}

proof fn lemma_removed_stays(g: Talk, t: Talk, q: int, name: Seq<char>)
    requires
        g.grows_to(t),
        removed_at(g, q, name),
    ensures
        removed_at(t, q, name),
{
    let refs = lines_of(without_line_feeds(said(g, q)));
    let args = seq!["update-ref"@, "-m"@, "imerge: remove merge '"@ + name + "'"@, "--stdin"@];
    if refs.len() > 0 {
        let text = choose|text: Seq<char>|
            asks(g, q + 1, args, Some(text), None, false) && #[trigger] deletes_all(text, refs);
        assert(asks(t, q + 1, args, Some(text), None, false));
        assert(deletes_all(text, refs));
    }
}

/// Finishing is simplifying and then removing: it begins with the same requests as
/// simplifying, fails where that fails, and then removes what was simplified.
pub proof fn law_finishing_simplifies_and_removes(g: Talk, args: SimplifyArgsView)
    ensures
        match g.cmd_simplify(args) {
            (h, Err(e)) => g.cmd_finish(args) == (h, Err::<(), ErrorView>(e)),
            (h, Ok(_)) => g.simplify_imerge(args).1 matches Ok(s) && g.cmd_finish(args)
                == h.remove_imerge(s.grid.name),
        },
{
    reveal(Talk::cmd_simplify);
    reveal(Talk::cmd_finish);
}

// ---------------------------------------------------------------------
// Branches with merges
// ---------------------------------------------------------------------

/// At `k` `git` was asked for the parents of the commit, and it has at most one.
pub open spec fn counted_at(t: Talk, k: int, commit: Seq<char>) -> bool {
    &&& did(t, k, parents_of(commit))
    &&& words_of(without_line_feeds(said(t, k))).len() <= 1
}

proof fn lemma_no_merges(g: Talk, commits: Seq<Seq<char>>, i: nat, bad: Seq<Seq<char>>)
    requires
        i <= commits.len(),
    ensures
        merge_commits(g, commits, i, bad) matches (t, Ok(found)) ==> {
            let k = g.asked.len() as int;
            &&& g.grows_to(t)
            &&& found.len() >= bad.len()
            &&& found.len() == bad.len() ==> forall|j: int|
                i <= j < commits.len() ==> #[trigger] counted_at(t, k + (j - i), commits[j])
        },
    decreases commits.len() - i,
{
    if i < commits.len() {
        let k = g.asked.len() as int;
        let (h, r) = g.get_commit_parents(commits[i as int]);
        if let Ok(parents) = r {
            assert(g.grows_to(h));
            assert(h.asked.len() == k + 1);
            assert(parents.len() <= 1 ==> counted_at(h, k, commits[i as int]));
            let more = if parents.len() > 1 {
                bad.push(commits[i as int])
            } else {
                bad
            };
            lemma_no_merges(h, commits, i + 1, more);
            if let (t, Ok(found)) = merge_commits(h, commits, i + 1, more) {
                if found.len() == bad.len() {
                    assert forall|j: int| i <= j < commits.len() implies #[trigger] counted_at(
                        t,
                        k + (j - i),
                        commits[j],
                    ) by {
                        if j > i {
                            assert(counted_at(t, k + 1 + (j - (i + 1)), commits[j]));
                        }
                    }
                }
            }
        }
    }
}

/// A branch can be rebased only if `git` says of each of its commits that it has at
/// most one parent.
pub proof fn law_rebased_branch_has_no_merges(g: Talk, commits: Seq<Seq<char>>)
    ensures
        g.check_no_merges(commits) matches (t, Ok(_)) ==> forall|j: int|
            0 <= j < commits.len() ==> #[trigger] counted_at(t, g.asked.len() + j, commits[j]),
{
    lemma_no_merges(g, commits, 0, Seq::empty());
    if let (t, Ok(_)) = g.check_no_merges(commits) {
        let k = g.asked.len() as int;
        assert forall|j: int| 0 <= j < commits.len() implies #[trigger] counted_at(
            t,
            k + j,
            commits[j],
        ) by {
            assert(counted_at(t, k + (j - 0), commits[j]));
        }
    }
}

// ---------------------------------------------------------------------
// Which one
// ---------------------------------------------------------------------

/// Among the listed refs is the state of the incremental merge `name`.
pub open spec fn is_there(refs: Seq<RefView>, name: Seq<char>) -> bool {
    exists|i: int|
        0 <= i < refs.len() && (#[trigger] refs[i]).1 == "blob"@ && refs[i].2 == state_ref(name)
}

/// The refs that were listed at `k`.
pub open spec fn refs_at(t: Talk, k: int) -> Seq<RefView> {
    refs_in(lines_of(without_line_feeds(said(t, k))))
}

proof fn lemma_names(refs: Seq<RefView>)
    ensures
        forall|i: int|
            0 <= i < names_in(refs).len() ==> is_there(refs, #[trigger] names_in(refs)[i]),
    decreases refs.len(),
{
    if refs.len() > 0 {
        let front = refs.drop_last();
        lemma_names(front);
        let names = names_in(refs);
        let last = refs.last();
        assert(refs[refs.len() - 1] == last);
        assert forall|i: int| 0 <= i < names.len() implies is_there(refs, #[trigger] names[i]) by {
            if i < names_in(front).len() {
                assert(names_in(front)[i] == names[i]);
                let k = choose|k: int|
                    0 <= k < front.len() && (#[trigger] front[k]).1 == "blob"@ && front[k].2
                        == state_ref(names[i]);
                assert(refs[k] == front[k]);
            } else {
                let name = name_in(last.2)->0;
                assert(last.2 =~= state_ref(name)) by {
                    reveal_strlit("refs/imerge/");
                    reveal_strlit("/state");
                    let n = last.2.len() - 6;
                    assert(last.2 =~= last.2.take(12) + last.2.subrange(12, n) + last.2.skip(n));
                }
            }
        }
    }
}

/// The incremental merge that a command works on is the one that is named, which has to
/// be there. If none is named it is the default one, and without a default the only one
/// that is there.
pub proof fn law_name_is_chosen(g: Talk, name: Option<Seq<char>>)
    ensures
        g.choose_merge_name(name) matches (t, Ok(n)) ==> {
            let k = g.asked.len() as int;
            &&& did(
                t,
                k,
                seq![
                    "for-each-ref"@,
                    "--format=%(objectname) %(objecttype) %(refname)"@,
                    "refs/imerge"@,
                ],
            )
            &&& match name {
                Some(given) => n == given && is_there(refs_at(t, k), given),
                None => {
                    &&& asks(t, k + 1, seq!["config"@, "imerge.default"@], None, None, false)
                    &&& match answer_at(t, k + 1) {
                        Some(default) => n == default,
                        None => names_in(refs_at(t, k)) == seq![n] && is_there(refs_at(t, k), n),
                    }
                },
            }
        },
{
    broadcast use
        crate::replay::goes_on_set_default_imerge_name,
        crate::replay::goes_on_check_imerge_exists,
        crate::replay::goes_on_get_default_imerge_name,
    ;

    let k = g.asked.len() as int;
    let (g1, r1) = g.iter_existing_imerge_names();
    if let Ok(names) = r1 {
        assert(g.grows_to(g1) && g1.asked.len() == k + 1);
        assert(names == names_in(refs_at(g1, k)));
        lemma_names(refs_at(g1, k));
        if let (t, Ok(n)) = g.choose_merge_name(name) {
            match name {
                Some(given) => {
                    assert(names.contains(given));
                    assert(g1.grows_to(t));
                },
                None => {
                    let (g2, r2) = g1.get_default_imerge_name();
                    assert(g1.grows_to(g2));
                    assert(g2.grows_to(t));
                    if answer_at(g2, k + 1) is None {
                        assert(names.len() == 1);
                        assert(names =~= seq![n]);
                        assert(names[0] == n);
                    }
                },
            }
        }
    }
}

proof fn lemma_goal_changed(g: Talk, before: MergeStateView, goal: Option<Seq<char>>)
    ensures
        g.change_goal(before, goal) matches (h, s, Ok(_)) ==> {
            &&& s == (MergeStateView {
                grid: s.grid,
                goal: match goal {
                    Some(goal) => goal,
                    None => before.goal,
                },
                ..before
            })
            &&& before.wf() ==> same_results(before.grid, s.grid)
        },
{
    reveal(Talk::change_goal);
    reveal(Talk::save_imerge);
    if let Some(goal) = goal {
        let (h, changed, r) = g.set_goal(before, goal);
        if r is Ok && before.wf() {
            assert(changed == (MergeStateView { goal, ..before }));
            law_save_is_complete(h, changed);
        }
    }
}

/// What is simplified is the incremental merge that is read, if it is finished; only
/// its goal may be another one. The result goes to the branch that is given, and
/// otherwise to the one that was recorded.
pub proof fn law_what_is_read_is_simplified(g: Talk, args: SimplifyArgsView) -> (r: (
    Talk,
    MergeStateView,
    MergeStateView,
))
    ensures
        g.cmd_simplify(args) matches (t, Ok(_)) ==> {
            let (h, before, s) = r;
            let clean = g.require_clean_work_tree("proceed"@).0;
            let branch = match args.branch {
                Some(b) => b,
                None => before.branch,
            };
            let goal = match args.goal {
                Some(goal) => goal,
                None => before.goal,
            };
            &&& clean.read_merge_state(args.name).1 == Ok::<MergeStateView, ErrorView>(before)
            &&& is_finished(before) == Ok::<bool, ErrorView>(true)
            &&& s == (MergeStateView { grid: s.grid, goal, ..before })
            &&& before.wf() ==> same_results(before.grid, s.grid)
            &&& h.simplify(s, "refs/heads/"@ + branch, args.force).0 == t
            &&& h.simplify(s, "refs/heads/"@ + branch, args.force).1 is Ok
        },
{
    reveal(Talk::cmd_simplify);
    let (g1, r1) = g.require_clean_work_tree("proceed"@);
    if r1 is Ok {
        let (g2, r2) = g1.read_merge_state(args.name);
        if let Ok(before) = r2 {
            let (h, s, r3) = g2.change_goal(before, args.goal);
            lemma_goal_changed(g2, before, args.goal);
            let branch = match args.branch {
                Some(b) => b,
                None => before.branch,
            };
            if let (t, Ok(_)) = g.cmd_simplify(args) {
                assert(is_finished(before) == Ok::<bool, ErrorView>(true));
                assert(r3 is Ok);
                let (k, done) = h.simplify(s, "refs/heads/"@ + branch, args.force);
                assert(done is Ok);
                assert(t == k);
            }
            (h, before, s)
        } else {
            (g, arbitrary(), arbitrary())
        }
    } else {
        (g, arbitrary(), arbitrary())
    }
}

/// From `j` on, `git` was told to check out again what was checked out at `k`.
pub open spec fn restoring_at(t: Talk, j: int, k: int, message: Seq<char>) -> bool {
    match answer_at(t, k) {
        Some(branch) => {
            &&& asks(
                t,
                j,
                seq!["symbolic-ref"@, "-m"@, message, "HEAD"@, branch],
                None,
                None,
                false,
            )
            &&& ended(t, j, true) ==> asks(t, j + 1, seq!["reset"@, "--hard"@], None, None, true)
        },
        None => {
            &&& asks(
                t,
                j,
                seq!["update-ref"@, "--no-deref"@, "-m"@, message, "HEAD"@, "HEAD^0"@],
                None,
                None,
                false,
            )
            &&& ended(t, j, true) ==> (answer_at(t, k + 1) matches Some(commit) && asks(
                t,
                j + 1,
                seq!["reset"@, "--hard"@, commit],
                None,
                None,
                true,
            ))
        },
    }
}

/// Filling in automatic merges ends with what was checked out before, also where the
/// user is needed.
pub proof fn law_autofill_restores_the_work_tree(g: Talk, args: NameArgsView) -> (r: (int, int))
    ensures
        g.cmd_autofill(args).1 is Ok ==> {
            let t = g.cmd_autofill(args).0;
            asks_head(t, r.0) && r.0 + 1 < r.1 && restoring_at(t, r.1, r.0, "imerge: restoring"@)
        },
{
    broadcast use crate::replay::goes_on_complete_frontier;

    reveal(Talk::cmd_autofill);
    let message = "imerge: restoring"@;
    let (g1, r1) = g.require_clean_work_tree("proceed"@);
    let (g2, r2) = g1.read_merge_state(args.name);
    let k = g2.asked.len() as int;
    let (g3, r3) = g2.temporary_head(message);
    if r1 is Ok && r2 is Ok && r3 is Ok {
        let head = r3->Ok_0;
        let (g4, s, result) = g3.complete_frontier(r2->Ok_0, false);
        assert(g3.grows_to(g4));
        law_what_was_checked_out_is_restored(g2, g4, message);
        let j = g4.asked.len() as int;
        let (t, r5) = g4.restore(head);
        if g.cmd_autofill(args).1 is Ok {
            assert(t == g.cmd_autofill(args).0);
            lemma_restoring(g4, k, head, message);
        }
        (k, j)
    } else {
        (0, 0)
    }
}

proof fn lemma_restoring(g: Talk, k: int, head: TemporaryHeadView, message: Seq<char>)
    requires
        0 <= k,
        k + 1 < g.asked.len(),
        head.message == message,
        head.old_refname == answer_at(g, k),
        answer_at(g, k + 1) == Some(head.old_sha1),
        !g.waiting(),
    ensures
        g.restore(head) matches (t, r) && (r != Err::<(), ErrorView>(ErrorView::Suspended)
            ==> restoring_at(t, g.asked.len() as int, k, message)),
{
}

/// The goal of an incremental merge is changed to an allowed one, and nothing else. To
/// be rebased, the second branch must not have merges.
pub proof fn law_goal_is_set(g: Talk, s: MergeStateView, goal: Seq<char>)
    ensures
        g.set_goal(s, goal) matches (t, later, Ok(_)) ==> {
            &&& is_goal(goal)
            &&& later == (MergeStateView { goal, ..s })
            &&& goal == "rebase"@ ==> forall|j: int|
                1 <= j < s.grid.len2 ==> #[trigger] counted_at(
                    t,
                    g.asked.len() + (j - 1),
                    s.grid.commit(0, j),
                )
        },
{
    if g.set_goal(s, goal).2 is Ok && goal == "rebase"@ && s.grid.len2 >= 1 {
        let t = g.set_goal(s, goal).0;
        let commits = second_branch(s.grid);
        law_rebased_branch_has_no_merges(g, commits);
        assert forall|j: int| 1 <= j < s.grid.len2 implies #[trigger] counted_at(
            t,
            g.asked.len() + (j - 1),
            s.grid.commit(0, j),
        ) by {
            assert(commits[j - 1] == s.grid.commit(0, j));
            assert(counted_at(t, g.asked.len() + (j - 1), commits[j - 1]));
        }
    }
}

/// An incremental merge that is to become a rebase is set up only if the second branch
/// has no merges, under a name that is available.
pub proof fn law_rebase_needs_a_branch_without_merges(
    g: Talk,
    name: Seq<char>,
    base: Seq<char>,
    tips: (Seq<char>, Seq<char>),
    commits: (Seq<Seq<char>>, Seq<Seq<char>>),
    goalopts: Option<GoalOptsView>,
    manual: bool,
    dedupe_patches: bool,
    branch: Option<Seq<char>>,
) -> (k: int)
    ensures
        g.initialize(
            name,
            base,
            tips,
            commits,
            "rebase"@,
            goalopts,
            manual,
            dedupe_patches,
            branch,
        ) matches (t, Ok(_)) ==> {
            &&& did(t, g.asked.len() as int, seq!["check-ref-format"@, "refs/imerge/"@ + name])
            &&& refs_at(t, g.asked.len() as int + 1).len() == 0
            &&& forall|j: int|
                0 <= j < commits.1.len() ==> #[trigger] counted_at(t, k + j, commits.1[j])
        },
{
    broadcast use
        crate::replay::goes_on_verify_imerge_name_available,
        crate::replay::goes_on_chosen_branch,
        crate::replay::goes_on_check_no_merges,
    ;

    law_name_is_available(g, name);
    let (g1, r1) = g.verify_imerge_name_available(name);
    let (g2, r2) = g1.chosen_branch(name, branch);
    law_rebased_branch_has_no_merges(g2, commits.1);
    let (g3, r3) = g2.check_no_merges(commits.1);
    assert(g1.grows_to(g3));
    g2.asked.len() as int
}

/// A name is available if it is a good one and nothing lives below it.
pub proof fn law_name_is_available(g: Talk, name: Seq<char>)
    ensures
        g.verify_imerge_name_available(name) matches (t, Ok(_)) ==> {
            let k = g.asked.len() as int;
            &&& did(t, k, seq!["check-ref-format"@, "refs/imerge/"@ + name])
            &&& did(
                t,
                k + 1,
                seq![
                    "for-each-ref"@,
                    "--format=%(objectname) %(objecttype) %(refname)"@,
                    "refs/imerge/"@ + name,
                ],
            )
            &&& refs_at(t, k + 1).len() == 0
        },
{
    let (g1, r1) = g.check_imerge_name_format(name);
    if r1 is Ok {
        let (g2, r2) = g1.for_each_ref("refs/imerge/"@ + name);
    }
}

} // verus!
