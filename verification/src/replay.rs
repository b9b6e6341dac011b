//! Running an operation again with one more reply.
//!
//! An operation runs until it needs a reply that is not there. The laws here say
//! that nothing goes wrong when it is run again from the start with that reply: it
//! makes the same requests and leaves the same messages, and goes on from there.
//! The two laws come first. Behind them stands one lemma for each operation that
//! makes requests; they all have the same shape.
use vstd::prelude::*;

use crate::block::{GridView, RecordView, Rect};
use crate::cli::{
    CommandView, DiagramArgsView, EditArgsView, InitArgsView, MergeArgsView, NameArgsView,
    RangeArgsView, RebaseArgsView, ReparentArgsView, SimplifyArgsView,
};
use crate::commands::{all_replaced, SetupView};
use crate::error::ErrorView;
use crate::expand::{after_failure, failure_marked, first_with_blocks};
use crate::fill::{added, CellsView};
use crate::frontier::{affected, both_sides, without_failure};
use crate::git::{count_in, TemporaryHeadView};
use crate::imerge::{
    edge_commits, lookup, merge_commits, on_edge, rebuilt, with_entries, with_entry, with_marks,
    MergeStateView,
};
use crate::simplify::{resolved_path, PathRefView};
use crate::state::{GoalOptsView, StateDictView};
use crate::store::{FoundView, MergesView, RefView};
use crate::strategy::{manual_request, FrontierView};
use crate::history::lemma_id_learned;
use crate::talk::{
    latest, lemma_grows, lemma_leads, lemma_learns_nothing, EMPTY_TREE_SHA1, ReplyView, Talk, Told,
};
use crate::work::frontier_of;

verus! {

broadcast use lemma_grows, lemma_learns_nothing, lemma_leads;

/// Whether an operation waits for a reply.
pub open spec fn is_suspended<T>(r: Result<T, ErrorView>) -> bool {
    r matches Err(ErrorView::Suspended)
}

/// An operation that begins with `g` only adds to it, and ends for want of a reply
/// exactly where a request has none.
pub open spec fn is_step<T>(g: Talk, told: Told<T>) -> bool {
    &&& g.grows_to(told.0)
    &&& !g.waiting() ==> (told.0.waiting() <==> is_suspended(told.1))
}

/// Like [`is_step`], for an operation that changes something else, too.
pub open spec fn is_step3<S, T>(g: Talk, told: (Talk, S, Result<T, ErrorView>)) -> bool {
    is_step(g, (told.0, told.2))
}

/// How an operation ends with one more reply: as before if it did not wait for one,
/// and otherwise after the same requests and messages.
pub open spec fn goes_on<T>(told: Told<T>, again: Told<T>, more: ReplyView) -> bool {
    if is_suspended(told.1) {
        told.0.leads_to(again.0)
    } else {
        again == (told.0.with_reply(more), told.1)
    }
}

/// Like [`goes_on`], for an operation that changes something else, too.
pub open spec fn goes_on3<S, T>(
    told: (Talk, S, Result<T, ErrorView>),
    again: (Talk, S, Result<T, ErrorView>),
    more: ReplyView,
) -> bool {
    if is_suspended(told.2) {
        told.0.leads_to(again.0)
    } else {
        again == (told.0.with_reply(more), told.1, told.2)
    }
}

/// A command that is run again from the start with one more reply repeats its
/// requests and messages. If it did not wait for a reply, it ends as it did before;
/// if it did, it goes on from there.
pub proof fn law_command_goes_on(
    g: Talk,
    more: ReplyView,
    command: CommandView,
    terminal: bool,
)
    ensures
        goes_on(
            g.run_command(command, terminal),
            g.with_reply(more).run_command(command, terminal),
            more,
        ),
{
    goes_on_run_command(g, command, terminal);
}

/// A command that waits for a reply has made a request that has none, and no other
/// command has.
pub proof fn law_command_waits_for_a_request(g: Talk, command: CommandView, terminal: bool)
    requires
        !g.waiting(),
    ensures
        g.run_command(command, terminal).0.waiting() <==> is_suspended(
            g.run_command(command, terminal).1,
        ),
{
    goes_on_run_command(g, command, terminal);
}

// ---------------------------------------------------------------------
// Results that do not depend on replies
// ---------------------------------------------------------------------

broadcast proof fn final_rebuilt(name: Seq<char>, state: StateDictView, merges: MergesView)
    ensures
        !is_suspended(#[trigger] rebuilt(name, state, merges)),
{
    broadcast use final_edge_commits, final_with_entries, final_with_marks;

}

broadcast proof fn final_edge_commits(
    merges: MergesView,
    along1: bool,
    i: usize,
    commits: Seq<Seq<char>>,
)
    ensures
        !is_suspended(#[trigger] edge_commits(merges, along1, i, commits)),
    decreases usize::MAX - i,
{
    if i < usize::MAX {
        if let Some((sha1, _)) = lookup(merges, on_edge(along1, i)) {
            final_edge_commits(merges, along1, (i + 1) as usize, commits.push(sha1));
        }
    }
}

broadcast proof fn final_with_entries(grid: GridView, merges: MergesView, k: nat)
    ensures
        !is_suspended(#[trigger] with_entries(grid, merges, k)),
    decreases merges.len() - k,
{
    if k < merges.len() {
        let (at, (sha1, source)) = merges[k as int];
        if let Ok(next) = with_entry(grid, at, sha1, source) {
            final_with_entries(next, merges, k + 1);
        }
    }
}

broadcast proof fn final_with_marks(grid: GridView, marks: Seq<(usize, usize)>, k: nat)
    ensures
        !is_suspended(#[trigger] with_marks(grid, marks, k)),
    decreases marks.len() - k,
{
    if k < marks.len() {
        let i1 = marks[k as int].0 as int;
        let i2 = marks[k as int].1 as int;
        final_with_marks(grid.with(i1, i2, grid.cell(i1, i2).marked(true)), marks, k + 1);
    }
}

broadcast proof fn final_unblocks(f: FrontierView, grid: GridView, i1: usize, i2: usize)
    ensures
        !is_suspended(#[trigger] f.unblocks(grid, i1, i2)),
{
    broadcast use final_affected;

}

broadcast proof fn final_affected(regions: Seq<Rect>, i1: usize, i2: usize)
    ensures
        !is_suspended(#[trigger] affected(regions, i1, i2)),
    decreases regions.len(),
{
    if regions.len() > 0 {
        final_affected(regions.skip(1), i1, i2);
    }
}

broadcast proof fn final_path(
    grid: GridView,
    path: Seq<(PathRefView, PathRefView)>,
    k: nat,
    found: Seq<(Seq<char>, Seq<char>)>,
)
    ensures
        !is_suspended(#[trigger] resolved_path(grid, path, k, found)),
    decreases path.len() - k,
{
    if k < path.len() {
        match (path[k as int].0.resolved(grid), path[k as int].1.resolved(grid)) {
            (Ok(commit), Ok(metadata)) => {
                final_path(grid, path, k + 1, found.push((commit, metadata)));
            },
            _ => {},
        }
    }
}

// ---------------------------------------------------------------------
// Messages
// ---------------------------------------------------------------------

pub(crate) broadcast proof fn goes_on_tell(g: Talk, text: Seq<char>)
    ensures
        g.grows_to(#[trigger] g.tell(text)),
        g.waiting() == g.tell(text).waiting(),
        forall|more: ReplyView|
            #[trigger] g.with_reply(more).tell(text) == g.tell(text).with_reply(more),
{
}

pub(crate) broadcast proof fn goes_on_write(g: Talk, text: Seq<char>)
    ensures
        g.grows_to(#[trigger] g.write(text)),
        g.waiting() == g.write(text).waiting(),
        forall|more: ReplyView|
            #[trigger] g.with_reply(more).write(text) == g.write(text).with_reply(more),
{
}

// ---------------------------------------------------------------------
// Operations on a repository
// ---------------------------------------------------------------------

pub(crate) broadcast proof fn goes_on_call(
    g: Talk,
    args: Seq<Seq<char>>,
    stdin: Option<Seq<char>>,
    env: Option<Seq<(Seq<char>, Seq<char>)>>,
    loud: bool,
)
    ensures
        is_step(g, #[trigger] g.call(args, stdin, env, loud)),
        forall|more: ReplyView|
            goes_on(
                g.call(args, stdin, env, loud),
                #[trigger] g.with_reply(more).call(args, stdin, env, loud),
                more,
            ),
{
}

pub(crate) broadcast proof fn goes_on_run(g: Talk, args: Seq<Seq<char>>)
    ensures
        is_step(g, #[trigger] g.run(args)),
        forall|more: ReplyView| goes_on(g.run(args), #[trigger] g.with_reply(more).run(args), more),
{
    broadcast use goes_on_call;

}

pub(crate) broadcast proof fn goes_on_success(g: Talk, args: Seq<Seq<char>>)
    ensures
        is_step(g, #[trigger] g.success(args)),
        forall|more: ReplyView|
            goes_on(g.success(args), #[trigger] g.with_reply(more).success(args), more),
{
    broadcast use goes_on_call;

}

pub(crate) broadcast proof fn goes_on_run_stdin_env(
    g: Talk,
    args: Seq<Seq<char>>,
    input: Seq<char>,
    env: Option<Seq<(Seq<char>, Seq<char>)>>,
)
    ensures
        is_step(g, #[trigger] g.run_stdin_env(args, input, env)),
        forall|more: ReplyView|
            goes_on(
                g.run_stdin_env(args, input, env),
                #[trigger] g.with_reply(more).run_stdin_env(args, input, env),
                more,
            ),
{
    broadcast use goes_on_call;

}

pub(crate) broadcast proof fn goes_on_run_loud(g: Talk, args: Seq<Seq<char>>)
    ensures
        is_step(g, #[trigger] g.run_loud(args)),
        forall|more: ReplyView|
            goes_on(g.run_loud(args), #[trigger] g.with_reply(more).run_loud(args), more),
{
    broadcast use goes_on_call;

}

pub(crate) broadcast proof fn goes_on_run_loud_checked(g: Talk, args: Seq<Seq<char>>)
    ensures
        is_step(g, #[trigger] g.run_loud_checked(args)),
        forall|more: ReplyView|
            goes_on(
                g.run_loud_checked(args),
                #[trigger] g.with_reply(more).run_loud_checked(args),
                more,
            ),
{
    broadcast use goes_on_run_loud;

}

pub(crate) broadcast proof fn goes_on_check_imerge_name_format(g: Talk, name: Seq<char>)
    ensures
        is_step(g, #[trigger] g.check_imerge_name_format(name)),
        forall|more: ReplyView|
            goes_on(
                g.check_imerge_name_format(name),
                #[trigger] g.with_reply(more).check_imerge_name_format(name),
                more,
            ),
{
    broadcast use goes_on_success;

}

pub(crate) broadcast proof fn goes_on_check_branch_name_format(g: Talk, name: Seq<char>)
    ensures
        is_step(g, #[trigger] g.check_branch_name_format(name)),
        forall|more: ReplyView|
            goes_on(
                g.check_branch_name_format(name),
                #[trigger] g.with_reply(more).check_branch_name_format(name),
                more,
            ),
{
    broadcast use goes_on_success;

}

pub(crate) broadcast proof fn goes_on_set_default_imerge_name(g: Talk, name: Option<Seq<char>>)
    ensures
        is_step(g, #[trigger] g.set_default_imerge_name(name)),
        forall|more: ReplyView|
            goes_on(
                g.set_default_imerge_name(name),
                #[trigger] g.with_reply(more).set_default_imerge_name(name),
                more,
            ),
{
    broadcast use goes_on_call;

}

pub(crate) broadcast proof fn goes_on_get_default_imerge_name(g: Talk)
    ensures
        is_step(g, #[trigger] g.get_default_imerge_name()),
        forall|more: ReplyView|
            goes_on(
                g.get_default_imerge_name(),
                #[trigger] g.with_reply(more).get_default_imerge_name(),
                more,
            ),
{
    broadcast use goes_on_call;

}

pub(crate) broadcast proof fn goes_on_get_default_edit(g: Talk)
    ensures
        is_step(g, #[trigger] g.get_default_edit()),
        forall|more: ReplyView|
            goes_on(g.get_default_edit(), #[trigger] g.with_reply(more).get_default_edit(), more),
{
    broadcast use goes_on_call;

}

pub(crate) broadcast proof fn goes_on_unstaged_changes(g: Talk)
    ensures
        is_step(g, #[trigger] g.unstaged_changes()),
        forall|more: ReplyView|
            goes_on(g.unstaged_changes(), #[trigger] g.with_reply(more).unstaged_changes(), more),
{
    broadcast use goes_on_success;

}

pub(crate) broadcast proof fn goes_on_uncommitted_changes(g: Talk)
    ensures
        is_step(g, #[trigger] g.uncommitted_changes()),
        forall|more: ReplyView|
            goes_on(
                g.uncommitted_changes(),
                #[trigger] g.with_reply(more).uncommitted_changes(),
                more,
            ),
{
    broadcast use goes_on_success;

}

pub(crate) broadcast proof fn goes_on_rev_parse(g: Talk, arg: Seq<char>)
    ensures
        is_step(g, #[trigger] g.rev_parse(arg)),
        forall|more: ReplyView|
            goes_on(g.rev_parse(arg), #[trigger] g.with_reply(more).rev_parse(arg), more),
{
    broadcast use goes_on_call;

}

pub(crate) broadcast proof fn goes_on_rev_parse_required(g: Talk, arg: Seq<char>)
    ensures
        is_step(g, #[trigger] g.rev_parse_required(arg)),
        forall|more: ReplyView|
            goes_on(
                g.rev_parse_required(arg),
                #[trigger] g.with_reply(more).rev_parse_required(arg),
                more,
            ),
{
    broadcast use goes_on_rev_parse;

}

pub(crate) broadcast proof fn goes_on_get_commit_sha1(g: Talk, arg: Seq<char>)
    ensures
        is_step(g, #[trigger] g.get_commit_sha1(arg)),
        forall|more: ReplyView|
            goes_on(
                g.get_commit_sha1(arg),
                #[trigger] g.with_reply(more).get_commit_sha1(arg),
                more,
            ),
{
    broadcast use goes_on_rev_parse;

}

pub(crate) broadcast proof fn goes_on_refresh_index(g: Talk)
    ensures
        is_step(g, #[trigger] g.refresh_index()),
        forall|more: ReplyView|
            goes_on(g.refresh_index(), #[trigger] g.with_reply(more).refresh_index(), more),
{
    broadcast use goes_on_call;

}

pub(crate) broadcast proof fn goes_on_is_ancestor(g: Talk, commit1: Seq<char>, commit2: Seq<char>)
    ensures
        is_step(g, #[trigger] g.is_ancestor(commit1, commit2)),
        forall|more: ReplyView|
            goes_on(
                g.is_ancestor(commit1, commit2),
                #[trigger] g.with_reply(more).is_ancestor(commit1, commit2),
                more,
            ),
{
    broadcast use goes_on_run;

}

pub(crate) broadcast proof fn goes_on_is_ff(g: Talk, refname: Seq<char>, commit: Seq<char>)
    ensures
        is_step(g, #[trigger] g.is_ff(refname, commit)),
        forall|more: ReplyView|
            goes_on(
                g.is_ff(refname, commit),
                #[trigger] g.with_reply(more).is_ff(refname, commit),
                more,
            ),
{
    broadcast use goes_on_get_commit_sha1, goes_on_is_ancestor;

}

pub(crate) broadcast proof fn goes_on_abort_merge(g: Talk)
    ensures
        is_step(g, #[trigger] g.abort_merge()),
        forall|more: ReplyView|
            goes_on(g.abort_merge(), #[trigger] g.with_reply(more).abort_merge(), more),
{
    broadcast use goes_on_call;

}

pub(crate) broadcast proof fn goes_on_automerge_with_strategy(
    g: Talk,
    commit1: Seq<char>,
    commit2: Seq<char>,
    msg: Option<Seq<char>>,
    global_opts: Seq<Seq<char>>,
    extra: Seq<Seq<char>>,
)
    ensures
        is_step(g, #[trigger] g.automerge_with_strategy(commit1, commit2, msg, global_opts, extra)),
        forall|more: ReplyView|
            goes_on(
                g.automerge_with_strategy(commit1, commit2, msg, global_opts, extra),
                #[trigger] g.with_reply(more).automerge_with_strategy(
                    commit1,
                    commit2,
                    msg,
                    global_opts,
                    extra,
                ),
                more,
            ),
{
    broadcast use goes_on_call, goes_on_get_commit_sha1, goes_on_abort_merge;

}

pub(crate) broadcast proof fn goes_on_empty_attributes_file(g: Talk)
    ensures
        is_step(g, #[trigger] g.empty_attributes_file()),
        forall|more: ReplyView|
            goes_on(
                g.empty_attributes_file(),
                #[trigger] g.with_reply(more).empty_attributes_file(),
                more,
            ),
{
}

pub(crate) broadcast proof fn goes_on_automerge_prefer_ours(
    g: Talk,
    commit1: Seq<char>,
    commit2: Seq<char>,
    msg: Option<Seq<char>>,
)
    ensures
        is_step(g, #[trigger] g.automerge_prefer_ours(commit1, commit2, msg)),
        forall|more: ReplyView|
            goes_on(
                g.automerge_prefer_ours(commit1, commit2, msg),
                #[trigger] g.with_reply(more).automerge_prefer_ours(commit1, commit2, msg),
                more,
            ),
{
    broadcast use goes_on_empty_attributes_file, goes_on_automerge_with_strategy;

}

pub(crate) broadcast proof fn goes_on_manualmerge(g: Talk, commit: Seq<char>, msg: Seq<char>)
    ensures
        is_step(g, #[trigger] g.manualmerge(commit, msg)),
        forall|more: ReplyView|
            goes_on(
                g.manualmerge(commit, msg),
                #[trigger] g.with_reply(more).manualmerge(commit, msg),
                more,
            ),
{
    broadcast use goes_on_run_loud;

}

pub(crate) broadcast proof fn goes_on_require_clean_work_tree(g: Talk, action: Seq<char>)
    ensures
        is_step(g, #[trigger] g.require_clean_work_tree(action)),
        forall|more: ReplyView|
            goes_on(
                g.require_clean_work_tree(action),
                #[trigger] g.with_reply(more).require_clean_work_tree(action),
                more,
            ),
{
    broadcast use
        goes_on_call,
        goes_on_refresh_index,
        goes_on_unstaged_changes,
        goes_on_uncommitted_changes,
    ;

}

pub(crate) broadcast proof fn goes_on_simple_merge_in_progress(g: Talk)
    ensures
        is_step(g, #[trigger] g.simple_merge_in_progress()),
        forall|more: ReplyView|
            goes_on(
                g.simple_merge_in_progress(),
                #[trigger] g.with_reply(more).simple_merge_in_progress(),
                more,
            ),
{
    broadcast use goes_on_run;

}

pub(crate) broadcast proof fn goes_on_edit_wanted(g: Talk, edit_log_msg: Option<bool>)
    ensures
        is_step(g, #[trigger] g.edit_wanted(edit_log_msg)),
        forall|more: ReplyView|
            goes_on(
                g.edit_wanted(edit_log_msg),
                #[trigger] g.with_reply(more).edit_wanted(edit_log_msg),
                more,
            ),
{
    broadcast use goes_on_get_default_edit;

}

pub(crate) broadcast proof fn goes_on_commit_user_merge(g: Talk, edit_log_msg: Option<bool>)
    ensures
        is_step(g, #[trigger] g.commit_user_merge(edit_log_msg)),
        forall|more: ReplyView|
            goes_on(
                g.commit_user_merge(edit_log_msg),
                #[trigger] g.with_reply(more).commit_user_merge(edit_log_msg),
                more,
            ),
{
    broadcast use
        goes_on_simple_merge_in_progress,
        goes_on_refresh_index,
        goes_on_unstaged_changes,
        goes_on_edit_wanted,
        goes_on_run_loud,
    ;

}

pub(crate) broadcast proof fn goes_on_update_ref(
    g: Talk,
    refname: Seq<char>,
    value: Seq<char>,
    msg: Seq<char>,
    deref: bool,
)
    ensures
        is_step(g, #[trigger] g.update_ref(refname, value, msg, deref)),
        forall|more: ReplyView|
            goes_on(
                g.update_ref(refname, value, msg, deref),
                #[trigger] g.with_reply(more).update_ref(refname, value, msg, deref),
                more,
            ),
{
    broadcast use goes_on_run;

}

pub(crate) broadcast proof fn goes_on_delete_ref(g: Talk, refname: Seq<char>, msg: Seq<char>)
    ensures
        is_step(g, #[trigger] g.delete_ref(refname, msg)),
        forall|more: ReplyView|
            goes_on(
                g.delete_ref(refname, msg),
                #[trigger] g.with_reply(more).delete_ref(refname, msg),
                more,
            ),
{
    broadcast use goes_on_run;

}

pub(crate) broadcast proof fn goes_on_get_head_refname(g: Talk, short: bool)
    ensures
        is_step(g, #[trigger] g.get_head_refname(short)),
        forall|more: ReplyView|
            goes_on(
                g.get_head_refname(short),
                #[trigger] g.with_reply(more).get_head_refname(short),
                more,
            ),
{
    broadcast use goes_on_call;

}

pub(crate) broadcast proof fn goes_on_get_commit_parents(g: Talk, commit: Seq<char>)
    ensures
        is_step(g, #[trigger] g.get_commit_parents(commit)),
        forall|more: ReplyView|
            goes_on(
                g.get_commit_parents(commit),
                #[trigger] g.with_reply(more).get_commit_parents(commit),
                more,
            ),
{
    broadcast use goes_on_run;

}

pub(crate) broadcast proof fn goes_on_revert(g: Talk, commit: Seq<char>)
    ensures
        is_step(g, #[trigger] g.revert(commit)),
        forall|more: ReplyView|
            goes_on(g.revert(commit), #[trigger] g.with_reply(more).revert(commit), more),
{
    broadcast use goes_on_get_commit_parents, goes_on_run_loud_checked;

}

pub(crate) broadcast proof fn goes_on_restore_head(g: Talk, refname: Seq<char>, message: Seq<char>)
    ensures
        is_step(g, #[trigger] g.restore_head(refname, message)),
        forall|more: ReplyView|
            goes_on(
                g.restore_head(refname, message),
                #[trigger] g.with_reply(more).restore_head(refname, message),
                more,
            ),
{
    broadcast use goes_on_run, goes_on_run_loud_checked;

}

pub(crate) broadcast proof fn goes_on_temporary_head(g: Talk, message: Seq<char>)
    ensures
        is_step(g, #[trigger] g.temporary_head(message)),
        forall|more: ReplyView|
            goes_on(
                g.temporary_head(message),
                #[trigger] g.with_reply(more).temporary_head(message),
                more,
            ),
{
    broadcast use goes_on_get_head_refname, goes_on_get_commit_sha1;

}

pub(crate) broadcast proof fn goes_on_restore(g: Talk, head: TemporaryHeadView)
    ensures
        is_step(g, #[trigger] g.restore(head)),
        forall|more: ReplyView|
            goes_on(g.restore(head), #[trigger] g.with_reply(more).restore(head), more),
{
    broadcast use goes_on_restore_head, goes_on_update_ref, goes_on_run_loud_checked;

}

// ---------------------------------------------------------------------
// Commits
// ---------------------------------------------------------------------

pub(crate) broadcast proof fn goes_on_rev_list_with_parents(g: Talk, args: Seq<Seq<char>>)
    ensures
        is_step(g, #[trigger] g.rev_list_with_parents(args)),
        forall|more: ReplyView|
            goes_on(
                g.rev_list_with_parents(args),
                #[trigger] g.with_reply(more).rev_list_with_parents(args),
                more,
            ),
{
    broadcast use goes_on_run;

}

pub(crate) broadcast proof fn goes_on_get_author_info(g: Talk, commit: Seq<char>)
    ensures
        is_step(g, #[trigger] g.get_author_info(commit)),
        forall|more: ReplyView|
            goes_on(
                g.get_author_info(commit),
                #[trigger] g.with_reply(more).get_author_info(commit),
                more,
            ),
{
    broadcast use goes_on_run;

}

pub(crate) broadcast proof fn goes_on_get_log_message(g: Talk, commit: Seq<char>)
    ensures
        is_step(g, #[trigger] g.get_log_message(commit)),
        forall|more: ReplyView|
            goes_on(
                g.get_log_message(commit),
                #[trigger] g.with_reply(more).get_log_message(commit),
                more,
            ),
{
    broadcast use goes_on_run;

}

pub(crate) broadcast proof fn goes_on_remember(g: Talk, commit: Seq<char>, id: Option<Seq<char>>)
    ensures
        g.leads_to(#[trigger] g.remember(commit, id)),
        g.waiting() == g.remember(commit, id).waiting(),
        forall|more: ReplyView|
            #[trigger] g.with_reply(more).remember(commit, id) == g.remember(commit, id).with_reply(
                more,
            ),
{
}

pub(crate) broadcast proof fn goes_on_change_id(g: Talk, base: Seq<char>, commit: Seq<char>)
    ensures
        is_step(g, #[trigger] g.change_id(base, commit)),
        forall|more: ReplyView|
            goes_on(
                g.change_id(base, commit),
                #[trigger] g.with_reply(more).change_id(base, commit),
                more,
            ),
{
    broadcast use goes_on_call, goes_on_run_stdin_env;

}

pub(crate) broadcast proof fn goes_on_patch_id(g: Talk, commit: Seq<char>)
    ensures
        is_step(g, #[trigger] g.patch_id(commit)),
        forall|more: ReplyView|
            goes_on(g.patch_id(commit), #[trigger] g.with_reply(more).patch_id(commit), more),
{
    broadcast use goes_on_get_commit_parents, goes_on_remember, goes_on_change_id;

    if let (later, Ok(id)) = g.patch_id(commit) {
        if latest(g.patch_ids, commit) is None {
            let (h, parents) = g.get_commit_parents(commit);
            let p = parents->Ok_0;
            let before = if p.len() > 1 {
                h
            } else {
                h.change_id(
                    if p.len() == 1 {
                        p[0]
                    } else {
                        EMPTY_TREE_SHA1@
                    },
                    commit,
                ).0
            };
            lemma_id_learned(g, before, commit, id);
        }
    }
}

pub(crate) broadcast proof fn goes_on_best_base(
    g: Talk,
    bases: Seq<Seq<char>>,
    i: nat,
    tip1: Seq<char>,
    best: Option<(Seq<char>, u64)>,
)
    ensures
        is_step(g, #[trigger] g.best_base(bases, i, tip1, best)),
        forall|more: ReplyView|
            goes_on(
                g.best_base(bases, i, tip1, best),
                #[trigger] g.with_reply(more).best_base(bases, i, tip1, best),
                more,
            ),
    decreases bases.len() - i,
{
    broadcast use goes_on_run;

    if i < bases.len() {
        let base = bases[i as int];
        if let (h, Ok(out)) = g.run(
            seq!["rev-list"@, "--no-merges"@, "--count"@, base + ".."@ + tip1],
        ) {
            if best is None || count_in(out) < (best->0).1 {
                goes_on_best_base(h, bases, i + 1, tip1, Some((base, count_in(out))));
            } else {
                goes_on_best_base(h, bases, i + 1, tip1, best);
            }
        }
    }
    assert forall|more: ReplyView|
        goes_on(
            g.best_base(bases, i, tip1, best),
            #[trigger] g.with_reply(more).best_base(bases, i, tip1, best),
            more,
        ) by {
        let again = g.with_reply(more);
        if i < bases.len() {
            let base = bases[i as int];
            if let (h, Ok(out)) = again.run(
                seq!["rev-list"@, "--no-merges"@, "--count"@, base + ".."@ + tip1],
            ) {
                if best is None || count_in(out) < (best->0).1 {
                    goes_on_best_base(h, bases, i + 1, tip1, Some((base, count_in(out))));
                } else {
                    goes_on_best_base(h, bases, i + 1, tip1, best);
                }
            }
        }
    }
}

pub(crate) broadcast proof fn goes_on_compute_best_merge_base(g: Talk, tip1: Seq<char>, tip2: Seq<char>)
    ensures
        is_step(g, #[trigger] g.compute_best_merge_base(tip1, tip2)),
        forall|more: ReplyView|
            goes_on(
                g.compute_best_merge_base(tip1, tip2),
                #[trigger] g.with_reply(more).compute_best_merge_base(tip1, tip2),
                more,
            ),
{
    broadcast use goes_on_call, goes_on_best_base;

}

pub(crate) broadcast proof fn goes_on_linear_ancestry(
    g: Talk,
    commit1: Seq<char>,
    commit2: Seq<char>,
    first_parent: bool,
)
    ensures
        is_step(g, #[trigger] g.linear_ancestry(commit1, commit2, first_parent)),
        forall|more: ReplyView|
            goes_on(
                g.linear_ancestry(commit1, commit2, first_parent),
                #[trigger] g.with_reply(more).linear_ancestry(commit1, commit2, first_parent),
                more,
            ),
{
    broadcast use goes_on_rev_parse_required, goes_on_rev_list_with_parents;

}

pub(crate) broadcast proof fn goes_on_get_boundaries(
    g: Talk,
    tip1: Seq<char>,
    tip2: Seq<char>,
    first_parent: bool,
)
    ensures
        is_step(g, #[trigger] g.get_boundaries(tip1, tip2, first_parent)),
        forall|more: ReplyView|
            goes_on(
                g.get_boundaries(tip1, tip2, first_parent),
                #[trigger] g.with_reply(more).get_boundaries(tip1, tip2, first_parent),
                more,
            ),
{
    broadcast use goes_on_compute_best_merge_base, goes_on_linear_ancestry;

}

pub(crate) broadcast proof fn goes_on_remade(
    g: Talk,
    commit: Seq<char>,
    metadata: Seq<char>,
    parents: Seq<Seq<char>>,
)
    ensures
        is_step(g, #[trigger] g.remade(commit, metadata, parents)),
        forall|more: ReplyView|
            goes_on(
                g.remade(commit, metadata, parents),
                #[trigger] g.with_reply(more).remade(commit, metadata, parents),
                more,
            ),
{
    broadcast use
        goes_on_rev_parse_required,
        goes_on_get_log_message,
        goes_on_get_author_info,
        goes_on_run_stdin_env,
    ;

}

pub(crate) broadcast proof fn goes_on_usable(
    g: Talk,
    commit: Seq<char>,
    metadata: Seq<char>,
    parents: Seq<Seq<char>>,
)
    ensures
        is_step(g, #[trigger] g.usable(commit, metadata, parents)),
        forall|more: ReplyView|
            goes_on(
                g.usable(commit, metadata, parents),
                #[trigger] g.with_reply(more).usable(commit, metadata, parents),
                more,
            ),
{
    broadcast use goes_on_get_commit_parents;

}

pub(crate) broadcast proof fn goes_on_link(
    g: Talk,
    commit: Seq<char>,
    metadata: Seq<char>,
    parents: Seq<Seq<char>>,
    reusing: bool,
)
    ensures
        is_step(g, #[trigger] g.link(commit, metadata, parents, reusing)),
        forall|more: ReplyView|
            goes_on(
                g.link(commit, metadata, parents, reusing),
                #[trigger] g.with_reply(more).link(commit, metadata, parents, reusing),
                more,
            ),
{
    broadcast use goes_on_usable, goes_on_remade;

}

pub(crate) broadcast proof fn goes_on_extend_chain(
    g: Talk,
    path: Seq<(Seq<char>, Seq<char>)>,
    i: nat,
    parents: Seq<Seq<char>>,
    reusing: bool,
)
    ensures
        is_step(g, #[trigger] g.extend_chain(path, i, parents, reusing)),
        forall|more: ReplyView|
            goes_on(
                g.extend_chain(path, i, parents, reusing),
                #[trigger] g.with_reply(more).extend_chain(path, i, parents, reusing),
                more,
            ),
    decreases path.len() - i,
{
    broadcast use goes_on_link;

    if i < path.len() {
        let (commit, metadata) = path[i as int];
        if let (h, Ok((sha1, reused))) = g.link(commit, metadata, parents, reusing) {
            goes_on_extend_chain(h, path, i + 1, seq![sha1], reused);
        }
    }
    assert forall|more: ReplyView|
        goes_on(
            g.extend_chain(path, i, parents, reusing),
            #[trigger] g.with_reply(more).extend_chain(path, i, parents, reusing),
            more,
        ) by {
        let again = g.with_reply(more);
        if i < path.len() {
            let (commit, metadata) = path[i as int];
            if let (h, Ok((sha1, reused))) = again.link(commit, metadata, parents, reusing) {
                goes_on_extend_chain(h, path, i + 1, seq![sha1], reused);
            }
        }
    }
}

pub(crate) broadcast proof fn goes_on_create_commit_chain(
    g: Talk,
    base: Option<Seq<char>>,
    path: Seq<(Seq<char>, Seq<char>)>,
)
    ensures
        is_step(g, #[trigger] g.create_commit_chain(base, path)),
        forall|more: ReplyView|
            goes_on(
                g.create_commit_chain(base, path),
                #[trigger] g.with_reply(more).create_commit_chain(base, path),
                more,
            ),
{
    broadcast use goes_on_extend_chain;

}

pub(crate) broadcast proof fn goes_on_reparent(
    g: Talk,
    commit: Seq<char>,
    parents: Seq<Seq<char>>,
    msg: Option<Seq<char>>,
)
    ensures
        is_step(g, #[trigger] g.reparent(commit, parents, msg)),
        forall|more: ReplyView|
            goes_on(
                g.reparent(commit, parents, msg),
                #[trigger] g.with_reply(more).reparent(commit, parents, msg),
                more,
            ),
{
    broadcast use goes_on_call, goes_on_run_stdin_env;

}

// ---------------------------------------------------------------------
// Storing and reading
// ---------------------------------------------------------------------

pub(crate) broadcast proof fn goes_on_for_each_ref(g: Talk, pattern: Seq<char>)
    ensures
        is_step(g, #[trigger] g.for_each_ref(pattern)),
        forall|more: ReplyView|
            goes_on(
                g.for_each_ref(pattern),
                #[trigger] g.with_reply(more).for_each_ref(pattern),
                more,
            ),
{
    broadcast use goes_on_run;

}

pub(crate) broadcast proof fn goes_on_iter_existing_imerge_names(g: Talk)
    ensures
        is_step(g, #[trigger] g.iter_existing_imerge_names()),
        forall|more: ReplyView|
            goes_on(
                g.iter_existing_imerge_names(),
                #[trigger] g.with_reply(more).iter_existing_imerge_names(),
                more,
            ),
{
    broadcast use goes_on_for_each_ref;

}

pub(crate) broadcast proof fn goes_on_verify_imerge_name_available(g: Talk, name: Seq<char>)
    ensures
        is_step(g, #[trigger] g.verify_imerge_name_available(name)),
        forall|more: ReplyView|
            goes_on(
                g.verify_imerge_name_available(name),
                #[trigger] g.with_reply(more).verify_imerge_name_available(name),
                more,
            ),
{
    broadcast use goes_on_check_imerge_name_format, goes_on_for_each_ref;

}

pub(crate) broadcast proof fn goes_on_check_imerge_exists(g: Talk, name: Seq<char>)
    ensures
        is_step(g, #[trigger] g.check_imerge_exists(name)),
        forall|more: ReplyView|
            goes_on(
                g.check_imerge_exists(name),
                #[trigger] g.with_reply(more).check_imerge_exists(name),
                more,
            ),
{
    broadcast use
        goes_on_check_imerge_name_format,
        goes_on_for_each_ref,
        goes_on_read_imerge_state_dict,
    ;

}

pub(crate) broadcast proof fn goes_on_decode_state(g: Talk, blob: Seq<char>)
    ensures
        is_step(g, #[trigger] g.decode_state(blob)),
        forall|more: ReplyView|
            goes_on(g.decode_state(blob), #[trigger] g.with_reply(more).decode_state(blob), more),
{
}

pub(crate) broadcast proof fn goes_on_encode_state(g: Talk, state: StateDictView)
    ensures
        is_step(g, #[trigger] g.encode_state(state)),
        forall|more: ReplyView|
            goes_on(g.encode_state(state), #[trigger] g.with_reply(more).encode_state(state), more),
{
}

pub(crate) broadcast proof fn goes_on_read_imerge_state_dict(g: Talk, name: Seq<char>)
    ensures
        is_step(g, #[trigger] g.read_imerge_state_dict(name)),
        forall|more: ReplyView|
            goes_on(
                g.read_imerge_state_dict(name),
                #[trigger] g.with_reply(more).read_imerge_state_dict(name),
                more,
            ),
{
    broadcast use goes_on_run, goes_on_decode_state;

}

pub(crate) broadcast proof fn goes_on_find(g: Talk, name: Seq<char>, r: RefView, found: FoundView)
    ensures
        is_step(g, #[trigger] g.find(name, r, found)),
        forall|more: ReplyView|
            goes_on(
                g.find(name, r, found),
                #[trigger] g.with_reply(more).find(name, r, found),
                more,
            ),
{
    broadcast use goes_on_read_imerge_state_dict;

}

pub(crate) broadcast proof fn goes_on_find_all(
    g: Talk,
    name: Seq<char>,
    refs: Seq<RefView>,
    i: nat,
    found: FoundView,
)
    ensures
        is_step(g, #[trigger] g.find_all(name, refs, i, found)),
        forall|more: ReplyView|
            goes_on(
                g.find_all(name, refs, i, found),
                #[trigger] g.with_reply(more).find_all(name, refs, i, found),
                more,
            ),
    decreases refs.len() - i,
{
    broadcast use goes_on_find;

    if i < refs.len() {
        if let (h, Ok(next)) = g.find(name, refs[i as int], found) {
            goes_on_find_all(h, name, refs, i + 1, next);
        }
    }
    assert forall|more: ReplyView|
        goes_on(
            g.find_all(name, refs, i, found),
            #[trigger] g.with_reply(more).find_all(name, refs, i, found),
            more,
        ) by {
        let again = g.with_reply(more);
        if i < refs.len() {
            if let (h, Ok(next)) = again.find(name, refs[i as int], found) {
                goes_on_find_all(h, name, refs, i + 1, next);
            }
        }
    }
}

pub(crate) broadcast proof fn goes_on_read_imerge_state(g: Talk, name: Seq<char>)
    ensures
        is_step(g, #[trigger] g.read_imerge_state(name)),
        forall|more: ReplyView|
            goes_on(
                g.read_imerge_state(name),
                #[trigger] g.with_reply(more).read_imerge_state(name),
                more,
            ),
{
    broadcast use goes_on_for_each_ref, goes_on_find_all;

}

pub(crate) broadcast proof fn goes_on_write_imerge_state_dict(g: Talk, name: Seq<char>, state: StateDictView)
    ensures
        is_step(g, #[trigger] g.write_imerge_state_dict(name, state)),
        forall|more: ReplyView|
            goes_on(
                g.write_imerge_state_dict(name, state),
                #[trigger] g.with_reply(more).write_imerge_state_dict(name, state),
                more,
            ),
{
    broadcast use goes_on_encode_state, goes_on_run_stdin_env, goes_on_run;

}

pub(crate) broadcast proof fn goes_on_delete_imerge_refs(g: Talk, name: Seq<char>)
    ensures
        is_step(g, #[trigger] g.delete_imerge_refs(name)),
        forall|more: ReplyView|
            goes_on(
                g.delete_imerge_refs(name),
                #[trigger] g.with_reply(more).delete_imerge_refs(name),
                more,
            ),
{
    broadcast use goes_on_tell, goes_on_run, goes_on_run_stdin_env;

}

pub(crate) broadcast proof fn goes_on_drop_auto(g: Talk, r: RecordView, name: Seq<char>, i1: usize, i2: usize)
    ensures
        is_step3(g, #[trigger] g.drop_auto(r, name, i1, i2)),
        forall|more: ReplyView|
            goes_on3(
                g.drop_auto(r, name, i1, i2),
                #[trigger] g.with_reply(more).drop_auto(r, name, i1, i2),
                more,
            ),
{
    broadcast use goes_on_delete_ref;

}

pub(crate) broadcast proof fn goes_on_keep_new(
    g: Talk,
    r: RecordView,
    name: Seq<char>,
    source: Seq<char>,
    i1: usize,
    i2: usize,
    saved: u8,
    fresh: u8,
)
    ensures
        is_step3(g, #[trigger] g.keep_new(r, name, source, i1, i2, saved, fresh)),
        forall|more: ReplyView|
            goes_on3(
                g.keep_new(r, name, source, i1, i2, saved, fresh),
                #[trigger] g.with_reply(more).keep_new(r, name, source, i1, i2, saved, fresh),
                more,
            ),
{
    broadcast use goes_on_update_ref, goes_on_delete_ref;

}

pub(crate) broadcast proof fn goes_on_save_cell(g: Talk, r: RecordView, name: Seq<char>, i1: usize, i2: usize)
    ensures
        is_step3(g, #[trigger] g.save_cell(r, name, i1, i2)),
        forall|more: ReplyView|
            goes_on3(
                g.save_cell(r, name, i1, i2),
                #[trigger] g.with_reply(more).save_cell(r, name, i1, i2),
                more,
            ),
{
    broadcast use goes_on_drop_auto, goes_on_keep_new;

}

// ---------------------------------------------------------------------
// Filling cells
// ---------------------------------------------------------------------

pub(crate) broadcast proof fn goes_on_same_patch(g: Talk, grid: GridView, a1: int, a2: int)
    ensures
        is_step(g, #[trigger] g.same_patch(grid, a1, a2)),
        forall|more: ReplyView|
            goes_on(
                g.same_patch(grid, a1, a2),
                #[trigger] g.with_reply(more).same_patch(grid, a1, a2),
                more,
            ),
{
    broadcast use goes_on_patch_id;

}

pub(crate) broadcast proof fn goes_on_merge_cell(
    g: Talk,
    grid: GridView,
    commit1: Seq<char>,
    commit2: Seq<char>,
    msg: Option<Seq<char>>,
    a1: int,
    a2: int,
    single: bool,
)
    ensures
        is_step(g, #[trigger] g.merge_cell(grid, commit1, commit2, msg, a1, a2, single)),
        forall|more: ReplyView|
            goes_on(
                g.merge_cell(grid, commit1, commit2, msg, a1, a2, single),
                #[trigger] g.with_reply(more).merge_cell(
                    grid,
                    commit1,
                    commit2,
                    msg,
                    a1,
                    a2,
                    single,
                ),
                more,
            ),
{
    broadcast use
        goes_on_automerge_with_strategy,
        goes_on_same_patch,
        goes_on_automerge_prefer_ours,
    ;

    reveal(Talk::merge_cell);
}

pub(crate) broadcast proof fn goes_on_probe(g: Talk, grid: GridView, rect: Rect, n1: int, n2: int)
    ensures
        is_step(g, #[trigger] g.probe(grid, rect, n1, n2)),
        forall|more: ReplyView|
            goes_on(
                g.probe(grid, rect, n1, n2),
                #[trigger] g.with_reply(more).probe(grid, rect, n1, n2),
                more,
            ),
{
    broadcast use goes_on_tell, goes_on_merge_cell;

}

pub(crate) broadcast proof fn goes_on_fill_cell(
    g: Talk,
    grid: GridView,
    at: (usize, usize),
    above: (usize, usize),
    left: (usize, usize),
)
    ensures
        is_step3(g, #[trigger] g.fill_cell(grid, at, above, left)),
        forall|more: ReplyView|
            goes_on3(
                g.fill_cell(grid, at, above, left),
                #[trigger] g.with_reply(more).fill_cell(grid, at, above, left),
                more,
            ),
{
    broadcast use goes_on_tell, goes_on_merge_cell;

}

pub(crate) broadcast proof fn goes_on_outline_cell(
    g: Talk,
    grid: GridView,
    rect: Rect,
    n1: usize,
    commit1: Seq<char>,
    n2: usize,
    commit2: Seq<char>,
    way: Seq<char>,
    single: bool,
)
    ensures
        is_step(g, #[trigger] g.outline_cell(grid, rect, n1, commit1, n2, commit2, way, single)),
        forall|more: ReplyView|
            goes_on(
                g.outline_cell(grid, rect, n1, commit1, n2, commit2, way, single),
                #[trigger] g.with_reply(more).outline_cell(
                    grid,
                    rect,
                    n1,
                    commit1,
                    n2,
                    commit2,
                    way,
                    single,
                ),
                more,
            ),
{
    broadcast use goes_on_tell, goes_on_merge_cell;

    reveal(Talk::outline_cell);
}

pub(crate) broadcast proof fn goes_on_outline_lower(
    g: Talk,
    grid: GridView,
    rect: Rect,
    n1: usize,
    left: Seq<char>,
    merges: CellsView,
)
    ensures
        is_step(g, #[trigger] g.outline_lower(grid, rect, n1, left, merges)),
        forall|more: ReplyView|
            goes_on(
                g.outline_lower(grid, rect, n1, left, merges),
                #[trigger] g.with_reply(more).outline_lower(grid, rect, n1, left, merges),
                more,
            ),
    decreases rect.len1 - n1,
{
    broadcast use goes_on_outline_cell;

    let n2 = (rect.len2 - 1) as usize;
    if n1 + 1 < rect.len1 {
        let commit1 = grid.commit(rect.origin1 + n1, rect.origin2 as int);
        let cell = g.outline_cell(grid, rect, n1, commit1, n2, left, "..."@, n2 == 1);
        if let (h, Ok((sha1, new))) = cell {
            let next = added(merges, n1, n2, sha1, new);
            goes_on_outline_lower(h, grid, rect, (n1 + 1) as usize, sha1, next);
        }
    }
    assert forall|more: ReplyView|
        goes_on(
            g.outline_lower(grid, rect, n1, left, merges),
            #[trigger] g.with_reply(more).outline_lower(grid, rect, n1, left, merges),
            more,
        ) by {
        let again = g.with_reply(more);
        let n2 = (rect.len2 - 1) as usize;
        if n1 + 1 < rect.len1 {
            let commit1 = grid.commit(rect.origin1 + n1, rect.origin2 as int);
            let cell = again.outline_cell(grid, rect, n1, commit1, n2, left, "..."@, n2 == 1);
            if let (h, Ok((sha1, new))) = cell {
                let next = added(merges, n1, n2, sha1, new);
                goes_on_outline_lower(h, grid, rect, (n1 + 1) as usize, sha1, next);
            }
        }
    }
}

pub(crate) broadcast proof fn goes_on_outline_right(
    g: Talk,
    grid: GridView,
    rect: Rect,
    n2: usize,
    above: Seq<char>,
    merges: CellsView,
)
    ensures
        is_step(g, #[trigger] g.outline_right(grid, rect, n2, above, merges)),
        forall|more: ReplyView|
            goes_on(
                g.outline_right(grid, rect, n2, above, merges),
                #[trigger] g.with_reply(more).outline_right(grid, rect, n2, above, merges),
                more,
            ),
    decreases rect.len2 - n2,
{
    broadcast use goes_on_outline_cell;

    let n1 = (rect.len1 - 1) as usize;
    if n2 + 1 < rect.len2 {
        let commit2 = grid.commit(rect.origin1 as int, rect.origin2 + n2);
        let cell = g.outline_cell(grid, rect, n1, above, n2, commit2, "..."@, n1 == 1);
        if let (h, Ok((sha1, new))) = cell {
            let next = added(merges, n1, n2, sha1, new);
            goes_on_outline_right(h, grid, rect, (n2 + 1) as usize, sha1, next);
        }
    }
    assert forall|more: ReplyView|
        goes_on(
            g.outline_right(grid, rect, n2, above, merges),
            #[trigger] g.with_reply(more).outline_right(grid, rect, n2, above, merges),
            more,
        ) by {
        let again = g.with_reply(more);
        let n1 = (rect.len1 - 1) as usize;
        if n2 + 1 < rect.len2 {
            let commit2 = grid.commit(rect.origin1 as int, rect.origin2 + n2);
            let cell = again.outline_cell(grid, rect, n1, above, n2, commit2, "..."@, n1 == 1);
            if let (h, Ok((sha1, new))) = cell {
                let next = added(merges, n1, n2, sha1, new);
                goes_on_outline_right(h, grid, rect, (n2 + 1) as usize, sha1, next);
            }
        }
    }
}

pub(crate) broadcast proof fn goes_on_outline_vertex(
    g: Talk,
    grid: GridView,
    rect: Rect,
    above: Seq<char>,
    left: Seq<char>,
)
    ensures
        is_step(g, #[trigger] g.outline_vertex(grid, rect, above, left)),
        forall|more: ReplyView|
            goes_on(
                g.outline_vertex(grid, rect, above, left),
                #[trigger] g.with_reply(more).outline_vertex(grid, rect, above, left),
                more,
            ),
{
    broadcast use goes_on_tell, goes_on_outline_cell, goes_on_rev_parse_required, goes_on_reparent;

    reveal(Talk::outline_vertex);
}

pub(crate) broadcast proof fn goes_on_outline_corner(
    g: Talk,
    grid: GridView,
    rect: Rect,
    above: Seq<char>,
    left: Seq<char>,
    merges: CellsView,
)
    ensures
        is_step(g, #[trigger] g.outline_corner(grid, rect, above, left, merges)),
        forall|more: ReplyView|
            goes_on(
                g.outline_corner(grid, rect, above, left, merges),
                #[trigger] g.with_reply(more).outline_corner(grid, rect, above, left, merges),
                more,
            ),
{
    broadcast use goes_on_outline_vertex, goes_on_outline_cell;

}

pub(crate) broadcast proof fn goes_on_outline(g: Talk, grid: GridView, rect: Rect)
    ensures
        is_step(g, #[trigger] g.outline(grid, rect)),
        forall|more: ReplyView|
            goes_on(g.outline(grid, rect), #[trigger] g.with_reply(more).outline(grid, rect), more),
{
    broadcast use goes_on_outline_lower, goes_on_outline_right, goes_on_outline_corner;

}

pub(crate) broadcast proof fn goes_on_auto_outline(g: Talk, grid: GridView, rect: Rect)
    ensures
        is_step3(g, #[trigger] g.auto_outline(grid, rect)),
        forall|more: ReplyView|
            goes_on3(
                g.auto_outline(grid, rect),
                #[trigger] g.with_reply(more).auto_outline(grid, rect),
                more,
            ),
{
    broadcast use goes_on_tell, goes_on_outline;

}

// ---------------------------------------------------------------------
// Outlining regions
// ---------------------------------------------------------------------

pub(crate) broadcast proof fn goes_on_bisect(
    g: Talk,
    grid: GridView,
    block: Rect,
    along1: bool,
    fixed: usize,
    lo: usize,
    hi: usize,
)
    ensures
        is_step(g, #[trigger] g.bisect(grid, block, along1, fixed, lo, hi)),
        forall|more: ReplyView|
            goes_on(
                g.bisect(grid, block, along1, fixed, lo, hi),
                #[trigger] g.with_reply(more).bisect(grid, block, along1, fixed, lo, hi),
                more,
            ),
    decreases hi - lo,
{
    broadcast use goes_on_probe;

    if lo < hi {
        let mid = (lo + (hi - lo) / 2) as usize;
        let (h, answer) = if along1 {
            g.probe(grid, block, mid as int, fixed as int)
        } else {
            g.probe(grid, block, fixed as int, mid as int)
        };
        if let Ok(can) = answer {
            if can {
                goes_on_bisect(h, grid, block, along1, fixed, (mid + 1) as usize, hi);
            } else {
                goes_on_bisect(h, grid, block, along1, fixed, lo, mid);
            }
        }
    }
    assert forall|more: ReplyView|
        goes_on(
            g.bisect(grid, block, along1, fixed, lo, hi),
            #[trigger] g.with_reply(more).bisect(grid, block, along1, fixed, lo, hi),
            more,
        ) by {
        let again = g.with_reply(more);
        if lo < hi {
            let mid = (lo + (hi - lo) / 2) as usize;
            let (h, answer) = if along1 {
                again.probe(grid, block, mid as int, fixed as int)
            } else {
                again.probe(grid, block, fixed as int, mid as int)
            };
            if let Ok(can) = answer {
                if can {
                    goes_on_bisect(h, grid, block, along1, fixed, (mid + 1) as usize, hi);
                } else {
                    goes_on_bisect(h, grid, block, along1, fixed, lo, mid);
                }
            }
        }
    }
}

pub(crate) broadcast proof fn goes_on_reaches_end(g: Talk, grid: GridView, block: Rect, i1: usize, i2: usize)
    ensures
        is_step(g, #[trigger] g.reaches_end(grid, block, i1, i2)),
        forall|more: ReplyView|
            goes_on(
                g.reaches_end(grid, block, i1, i2),
                #[trigger] g.with_reply(more).reaches_end(grid, block, i1, i2),
                more,
            ),
{
    broadcast use goes_on_probe;

}

pub(crate) broadcast proof fn goes_on_descend(
    g: Talk,
    grid: GridView,
    block: Rect,
    i1: usize,
    i2: usize,
    found: Seq<Rect>,
)
    ensures
        is_step(g, #[trigger] g.descend(grid, block, i1, i2, found)),
        forall|more: ReplyView|
            goes_on(
                g.descend(grid, block, i1, i2, found),
                #[trigger] g.with_reply(more).descend(grid, block, i1, i2, found),
                more,
            ),
    decreases i2,
{
    broadcast use goes_on_reaches_end, goes_on_bisect, goes_on_probe;

    if i2 > 2 {
        if let (h, Ok(false)) = g.reaches_end(grid, block, i1, i2) {
            let last = (block.len1 - 1) as usize;
            if let (h, Ok(n1)) = h.bisect(
                grid,
                block,
                true,
                (i2 - 1) as usize,
                (i1 + 1) as usize,
                last,
            ) {
                let next = found.push(block.part(0, n1 as int, 0, i2 as int));
                if let (h, Ok(true)) = h.probe(grid, block, n1 as int, 1) {
                    if let (h, Ok(n2)) = h.bisect(grid, block, false, n1, 2, (i2 - 1) as usize) {
                        if n2 < i2 {
                            goes_on_descend(h, grid, block, n1, n2, next);
                        }
                    }
                }
            }
        }
    }
    assert forall|more: ReplyView|
        goes_on(
            g.descend(grid, block, i1, i2, found),
            #[trigger] g.with_reply(more).descend(grid, block, i1, i2, found),
            more,
        ) by {
        let again = g.with_reply(more);
        if i2 > 2 {
            if let (h, Ok(false)) = again.reaches_end(grid, block, i1, i2) {
                let last = (block.len1 - 1) as usize;
                if let (h, Ok(n1)) = h.bisect(
                    grid,
                    block,
                    true,
                    (i2 - 1) as usize,
                    (i1 + 1) as usize,
                    last,
                ) {
                    let next = found.push(block.part(0, n1 as int, 0, i2 as int));
                    if let (h, Ok(true)) = h.probe(grid, block, n1 as int, 1) {
                        if let (h, Ok(n2)) = h.bisect(grid, block, false, n1, 2, (i2 - 1) as usize) {
                            if n2 < i2 {
                                goes_on_descend(h, grid, block, n1, n2, next);
                            }
                        }
                    }
                }
            }
        }
    }
}

pub(crate) broadcast proof fn goes_on_find_frontier_blocks(g: Talk, grid: GridView, block: Rect)
    ensures
        is_step3(g, #[trigger] g.find_frontier_blocks(grid, block)),
        forall|more: ReplyView|
            goes_on3(
                g.find_frontier_blocks(grid, block),
                #[trigger] g.with_reply(more).find_frontier_blocks(grid, block),
                more,
            ),
{
    broadcast use goes_on_probe, goes_on_bisect, goes_on_descend;

}

broadcast proof fn step_pursue(
    g: Talk,
    grid: GridView,
    top: Rect,
    top_blocks: Seq<Rect>,
    cur: Rect,
    cur_blocks: Seq<Rect>,
    is_top: bool,
)
    ensures
        is_step3(g, #[trigger] g.pursue(grid, top, top_blocks, cur, cur_blocks, is_top)),
    decreases g.remaining(), cur.len1,
{
    broadcast use goes_on_auto_outline;

    if cur_blocks.len() > 0 {
        let target = cur_blocks[0];
        match g.auto_outline(grid, target) {
            (h, after, Err(ErrorView::UnexpectedMergeFailure { i1, i2, .. })) => {
                let left = without_failure(cur_blocks, i1 as int, i2 as int);
                let top_left = if is_top {
                    left
                } else {
                    after_failure(top, top_blocks, target, i1, i2)
                };
                if h.remaining() < g.remaining() {
                    let marked = failure_marked(after, target, i1, i2);
                    step_pursue(h, marked, top, top_left, cur, left, is_top);
                }
            },
            (h, after, Ok(_)) => {
                if let Some((next, next_blocks)) = first_with_blocks(
                    both_sides(cur, cur_blocks, target),
                ) {
                    if h.remaining() <= g.remaining() && next.len1 < cur.len1 {
                        step_pursue(h, after, top, top_blocks, next, next_blocks, false);
                    }
                }
            },
            _ => {},
        }
    }
}

proof fn replay_pursue(
    g: Talk,
    more: ReplyView,
    grid: GridView,
    top: Rect,
    top_blocks: Seq<Rect>,
    cur: Rect,
    cur_blocks: Seq<Rect>,
    is_top: bool,
)
    ensures
        goes_on3(
            g.pursue(grid, top, top_blocks, cur, cur_blocks, is_top),
            g.with_reply(more).pursue(grid, top, top_blocks, cur, cur_blocks, is_top),
            more,
        ),
    decreases g.remaining(), cur.len1,
{
    broadcast use goes_on_auto_outline;

    let again = g.with_reply(more);
    if cur_blocks.len() > 0 {
        let target = cur_blocks[0];
        match again.auto_outline(grid, target) {
            (h, after, Err(ErrorView::UnexpectedMergeFailure { i1, i2, .. })) => {
                let left = without_failure(cur_blocks, i1 as int, i2 as int);
                let top_left = if is_top {
                    left
                } else {
                    after_failure(top, top_blocks, target, i1, i2)
                };
                if h.remaining() < again.remaining() {
                    let marked = failure_marked(after, target, i1, i2);
                    step_pursue(h, marked, top, top_left, cur, left, is_top);
                }
            },
            (h, after, Ok(_)) => {
                if let Some((next, next_blocks)) = first_with_blocks(
                    both_sides(cur, cur_blocks, target),
                ) {
                    if h.remaining() <= again.remaining() && next.len1 < cur.len1 {
                        step_pursue(h, after, top, top_blocks, next, next_blocks, false);
                    }
                }
            },
            _ => {},
        }
    }
    if cur_blocks.len() > 0 {
        let target = cur_blocks[0];
        match g.auto_outline(grid, target) {
            (h, after, Err(ErrorView::UnexpectedMergeFailure { i1, i2, .. })) => {
                let left = without_failure(cur_blocks, i1 as int, i2 as int);
                let top_left = if is_top {
                    left
                } else {
                    after_failure(top, top_blocks, target, i1, i2)
                };
                if h.remaining() < g.remaining() {
                    let marked = failure_marked(after, target, i1, i2);
                    replay_pursue(h, more, marked, top, top_left, cur, left, is_top);
                }
            },
            (h, after, Ok(_)) => {
                if let Some((next, next_blocks)) = first_with_blocks(
                    both_sides(cur, cur_blocks, target),
                ) {
                    if h.remaining() <= g.remaining() && next.len1 < cur.len1 {
                        replay_pursue(h, more, after, top, top_blocks, next, next_blocks, false);
                    }
                }
            },
            _ => {},
        }
    }
}

pub(crate) broadcast proof fn goes_on_pursue(
    g: Talk,
    grid: GridView,
    top: Rect,
    top_blocks: Seq<Rect>,
    cur: Rect,
    cur_blocks: Seq<Rect>,
    is_top: bool,
)
    ensures
        is_step3(g, #[trigger] g.pursue(grid, top, top_blocks, cur, cur_blocks, is_top)),
        forall|more: ReplyView|
            goes_on3(
                g.pursue(grid, top, top_blocks, cur, cur_blocks, is_top),
                #[trigger] g.with_reply(more).pursue(
                    grid,
                    top,
                    top_blocks,
                    cur,
                    cur_blocks,
                    is_top,
                ),
                more,
            ),
{
    step_pursue(g, grid, top, top_blocks, cur, cur_blocks, is_top);
    assert forall|more: ReplyView|
        goes_on3(
            g.pursue(grid, top, top_blocks, cur, cur_blocks, is_top),
            #[trigger] g.with_reply(more).pursue(grid, top, top_blocks, cur, cur_blocks, is_top),
            more,
        ) by {
        replay_pursue(g, more, grid, top, top_blocks, cur, cur_blocks, is_top);
    }
}

pub(crate) broadcast proof fn goes_on_initiate_merge(g: Talk, grid: GridView, block: Rect)
    ensures
        is_step3(g, #[trigger] g.initiate_merge(grid, block)),
        forall|more: ReplyView|
            goes_on3(
                g.initiate_merge(grid, block),
                #[trigger] g.with_reply(more).initiate_merge(grid, block),
                more,
            ),
{
    broadcast use goes_on_find_frontier_blocks, goes_on_pursue;

    reveal(Talk::initiate_merge);
}

// ---------------------------------------------------------------------
// Frontiers
// ---------------------------------------------------------------------

pub(crate) broadcast proof fn goes_on_fill_row(
    g: Talk,
    grid: GridView,
    block: Rect,
    i1: usize,
    i2: usize,
    len2: usize,
)
    ensures
        is_step3(g, #[trigger] g.fill_row(grid, block, i1, i2, len2)),
        forall|more: ReplyView|
            goes_on3(
                g.fill_row(grid, block, i1, i2, len2),
                #[trigger] g.with_reply(more).fill_row(grid, block, i1, i2, len2),
                more,
            ),
    decreases len2 - i2,
{
    broadcast use goes_on_fill_cell;

    if i2 < len2 {
        let a1 = (block.origin1 + i1) as usize;
        let a2 = (block.origin2 + i2) as usize;
        if grid.known(a1 as int, a2 as int) {
            goes_on_fill_row(g, grid, block, i1, (i2 + 1) as usize, len2);
        } else if let (h, after, Ok(true)) = g.fill_cell(
            grid,
            (a1, a2),
            ((a1 - 1) as usize, a2),
            (a1, (a2 - 1) as usize),
        ) {
            goes_on_fill_row(h, after, block, i1, (i2 + 1) as usize, len2);
        }
    }
    assert forall|more: ReplyView|
        goes_on3(
            g.fill_row(grid, block, i1, i2, len2),
            #[trigger] g.with_reply(more).fill_row(grid, block, i1, i2, len2),
            more,
        ) by {
        let again = g.with_reply(more);
        if i2 < len2 {
            let a1 = (block.origin1 + i1) as usize;
            let a2 = (block.origin2 + i2) as usize;
            if grid.known(a1 as int, a2 as int) {
                goes_on_fill_row(again, grid, block, i1, (i2 + 1) as usize, len2);
            } else if let (h, after, Ok(true)) = again.fill_cell(
                grid,
                (a1, a2),
                ((a1 - 1) as usize, a2),
                (a1, (a2 - 1) as usize),
            ) {
                goes_on_fill_row(h, after, block, i1, (i2 + 1) as usize, len2);
            }
        }
    }
}

pub(crate) broadcast proof fn goes_on_fill_rows(
    g: Talk,
    grid: GridView,
    block: Rect,
    i1: usize,
    len2: usize,
    blocker: Option<(usize, usize)>,
)
    ensures
        is_step3(g, #[trigger] g.fill_rows(grid, block, i1, len2, blocker)),
        forall|more: ReplyView|
            goes_on3(
                g.fill_rows(grid, block, i1, len2, blocker),
                #[trigger] g.with_reply(more).fill_rows(grid, block, i1, len2, blocker),
                more,
            ),
    decreases block.len1 - i1,
{
    broadcast use goes_on_fill_row;

    if i1 < block.len1 {
        if let (h, after, Ok(stop)) = g.fill_row(grid, block, i1, 1, len2) {
            match stop {
                None => {
                    goes_on_fill_rows(h, after, block, (i1 + 1) as usize, len2, blocker);
                },
                Some(i2) => {
                    let first = match blocker {
                        Some(b) => Some(b),
                        None => Some(
                            ((block.origin1 + i1) as usize, (block.origin2 + i2) as usize),
                        ),
                    };
                    goes_on_fill_rows(h, after, block, (i1 + 1) as usize, i2, first);
                },
            }
        }
    }
    assert forall|more: ReplyView|
        goes_on3(
            g.fill_rows(grid, block, i1, len2, blocker),
            #[trigger] g.with_reply(more).fill_rows(grid, block, i1, len2, blocker),
            more,
        ) by {
        let again = g.with_reply(more);
        if i1 < block.len1 {
            if let (h, after, Ok(stop)) = again.fill_row(grid, block, i1, 1, len2) {
                match stop {
                    None => {
                        goes_on_fill_rows(h, after, block, (i1 + 1) as usize, len2, blocker);
                    },
                    Some(i2) => {
                        let first = match blocker {
                            Some(b) => Some(b),
                            None => Some(
                                ((block.origin1 + i1) as usize, (block.origin2 + i2) as usize),
                            ),
                        };
                        goes_on_fill_rows(h, after, block, (i1 + 1) as usize, i2, first);
                    },
                }
            }
        }
    }
}

pub(crate) broadcast proof fn goes_on_full_auto_expand(g: Talk, grid: GridView, block: Rect)
    ensures
        is_step3(g, #[trigger] g.full_auto_expand(grid, block)),
        forall|more: ReplyView|
            goes_on3(
                g.full_auto_expand(grid, block),
                #[trigger] g.with_reply(more).full_auto_expand(grid, block),
                more,
            ),
{
    broadcast use goes_on_fill_rows;

}

pub(crate) broadcast proof fn goes_on_expand_regions(g: Talk, grid: GridView, regions: Seq<Rect>, k: nat)
    ensures
        is_step3(g, #[trigger] g.expand_regions(grid, regions, k)),
        forall|more: ReplyView|
            goes_on3(
                g.expand_regions(grid, regions, k),
                #[trigger] g.with_reply(more).expand_regions(grid, regions, k),
                more,
            ),
    decreases regions.len() - k,
{
    broadcast use goes_on_initiate_merge;

    if k < regions.len() {
        if let (h, after, Ok(_)) = g.initiate_merge(grid, regions[k as int]) {
            goes_on_expand_regions(h, after, regions, k + 1);
        }
    }
    assert forall|more: ReplyView|
        goes_on3(
            g.expand_regions(grid, regions, k),
            #[trigger] g.with_reply(more).expand_regions(grid, regions, k),
            more,
        ) by {
        let again = g.with_reply(more);
        if k < regions.len() {
            if let (h, after, Ok(_)) = again.initiate_merge(grid, regions[k as int]) {
                goes_on_expand_regions(h, after, regions, k + 1);
            }
        }
    }
}

pub(crate) broadcast proof fn goes_on_blockwise_auto_expand(
    g: Talk,
    grid: GridView,
    top: Rect,
    blocks: Seq<Rect>,
)
    ensures
        is_step3(g, #[trigger] g.blockwise_auto_expand(grid, top, blocks)),
        forall|more: ReplyView|
            goes_on3(
                g.blockwise_auto_expand(grid, top, blocks),
                #[trigger] g.with_reply(more).blockwise_auto_expand(grid, top, blocks),
                more,
            ),
{
    broadcast use goes_on_expand_regions;

}

// ---------------------------------------------------------------------
// Incremental merges
// ---------------------------------------------------------------------

pub(crate) broadcast proof fn goes_on_merge_commits(
    g: Talk,
    commits: Seq<Seq<char>>,
    i: nat,
    bad: Seq<Seq<char>>,
)
    ensures
        is_step(g, #[trigger] merge_commits(g, commits, i, bad)),
        forall|more: ReplyView|
            goes_on(
                merge_commits(g, commits, i, bad),
                #[trigger] merge_commits(g.with_reply(more), commits, i, bad),
                more,
            ),
    decreases commits.len() - i,
{
    broadcast use goes_on_get_commit_parents;

    if i < commits.len() {
        if let (h, Ok(parents)) = g.get_commit_parents(commits[i as int]) {
            goes_on_merge_commits(h, commits, i + 1, bad.push(commits[i as int]));
            goes_on_merge_commits(h, commits, i + 1, bad);
        }
    }
    assert forall|more: ReplyView|
        goes_on(
            merge_commits(g, commits, i, bad),
            #[trigger] merge_commits(g.with_reply(more), commits, i, bad),
            more,
        ) by {
        let again = g.with_reply(more);
        if i < commits.len() {
            if let (h, Ok(parents)) = again.get_commit_parents(commits[i as int]) {
                goes_on_merge_commits(h, commits, i + 1, bad.push(commits[i as int]));
                goes_on_merge_commits(h, commits, i + 1, bad);
            }
        }
    }
}

pub(crate) broadcast proof fn goes_on_check_no_merges(g: Talk, commits: Seq<Seq<char>>)
    ensures
        is_step(g, #[trigger] g.check_no_merges(commits)),
        forall|more: ReplyView|
            goes_on(
                g.check_no_merges(commits),
                #[trigger] g.with_reply(more).check_no_merges(commits),
                more,
            ),
{
    broadcast use goes_on_merge_commits;

}

pub(crate) broadcast proof fn goes_on_chosen_branch(g: Talk, name: Seq<char>, branch: Option<Seq<char>>)
    ensures
        is_step(g, #[trigger] g.chosen_branch(name, branch)),
        forall|more: ReplyView|
            goes_on(
                g.chosen_branch(name, branch),
                #[trigger] g.with_reply(more).chosen_branch(name, branch),
                more,
            ),
{
    broadcast use goes_on_check_branch_name_format;

}

pub(crate) broadcast proof fn goes_on_initialize(
    g: Talk,
    name: Seq<char>,
    base: Seq<char>,
    tips: (Seq<char>, Seq<char>),
    commits: (Seq<Seq<char>>, Seq<Seq<char>>),
    goal: Seq<char>,
    goalopts: Option<GoalOptsView>,
    manual: bool,
    dedupe_patches: bool,
    branch: Option<Seq<char>>,
)
    ensures
        is_step(
            g,
            #[trigger] g.initialize(
                name,
                base,
                tips,
                commits,
                goal,
                goalopts,
                manual,
                dedupe_patches,
                branch,
            ),
        ),
        forall|more: ReplyView|
            goes_on(
                g.initialize(
                    name,
                    base,
                    tips,
                    commits,
                    goal,
                    goalopts,
                    manual,
                    dedupe_patches,
                    branch,
                ),
                #[trigger] g.with_reply(more).initialize(
                    name,
                    base,
                    tips,
                    commits,
                    goal,
                    goalopts,
                    manual,
                    dedupe_patches,
                    branch,
                ),
                more,
            ),
{
    broadcast use
        goes_on_verify_imerge_name_available,
        goes_on_chosen_branch,
        goes_on_check_no_merges,
    ;

}

pub(crate) broadcast proof fn goes_on_read_imerge(g: Talk, name: Seq<char>)
    ensures
        is_step(g, #[trigger] g.read_imerge(name)),
        forall|more: ReplyView|
            goes_on(g.read_imerge(name), #[trigger] g.with_reply(more).read_imerge(name), more),
{
    broadcast use goes_on_read_imerge_state, final_rebuilt;

}

// ---------------------------------------------------------------------
// Working on an incremental merge
// ---------------------------------------------------------------------

pub(crate) broadcast proof fn goes_on_frontier(f: FrontierView, g: Talk, grid: GridView)
    ensures
        is_step3(g, #[trigger] f.auto_expand(g, grid)),
        forall|more: ReplyView|
            goes_on3(
                f.auto_expand(g, grid),
                #[trigger] f.auto_expand(g.with_reply(more), grid),
                more,
            ),
{
    broadcast use goes_on_full_auto_expand, goes_on_blockwise_auto_expand;

    if let FrontierView::Manual(b) = f {
        assert(!(manual_request(grid, b) is Suspended));
    }
}

pub(crate) broadcast proof fn goes_on_save_at(g: Talk, grid: GridView, i1: usize, i2: usize)
    ensures
        is_step3(g, #[trigger] g.save_at(grid, i1, i2)),
        forall|more: ReplyView|
            goes_on3(
                g.save_at(grid, i1, i2),
                #[trigger] g.with_reply(more).save_at(grid, i1, i2),
                more,
            ),
{
    broadcast use goes_on_save_cell;

}

pub(crate) broadcast proof fn goes_on_save_cells(
    g: Talk,
    grid: GridView,
    i1: usize,
    i2: usize,
    blockers: Seq<(usize, usize)>,
)
    ensures
        is_step3(g, #[trigger] g.save_cells(grid, i1, i2, blockers)),
        forall|more: ReplyView|
            goes_on3(
                g.save_cells(grid, i1, i2, blockers),
                #[trigger] g.with_reply(more).save_cells(grid, i1, i2, blockers),
                more,
            ),
    decreases grid.len2 - i2, grid.len1 - i1,
{
    broadcast use goes_on_save_at;

    if i2 < grid.len2 {
        if i1 >= grid.len1 {
            goes_on_save_cells(g, grid, 0, (i2 + 1) as usize, blockers);
        } else if let (h, after, Ok(_)) = g.save_at(grid, i1, i2) {
            let marks = if after.blocked(i1 as int, i2 as int) {
                blockers.push((i1, i2))
            } else {
                blockers
            };
            goes_on_save_cells(h, after, (i1 + 1) as usize, i2, marks);
        }
    }
    assert forall|more: ReplyView|
        goes_on3(
            g.save_cells(grid, i1, i2, blockers),
            #[trigger] g.with_reply(more).save_cells(grid, i1, i2, blockers),
            more,
        ) by {
        let again = g.with_reply(more);
        if i2 < grid.len2 {
            if i1 >= grid.len1 {
                goes_on_save_cells(again, grid, 0, (i2 + 1) as usize, blockers);
            } else if let (h, after, Ok(_)) = again.save_at(grid, i1, i2) {
                let marks = if after.blocked(i1 as int, i2 as int) {
                    blockers.push((i1, i2))
                } else {
                    blockers
                };
                goes_on_save_cells(h, after, (i1 + 1) as usize, i2, marks);
            }
        }
    }
}

pub(crate) broadcast proof fn goes_on_save_imerge(g: Talk, s: MergeStateView)
    ensures
        is_step3(g, #[trigger] g.save_imerge(s)),
        forall|more: ReplyView|
            goes_on3(g.save_imerge(s), #[trigger] g.with_reply(more).save_imerge(s), more),
{
    broadcast use goes_on_save_cells, goes_on_write_imerge_state_dict;

    reveal(Talk::save_imerge);
}

broadcast proof fn step_complete_frontier(g: Talk, s: MergeStateView, progress: bool)
    ensures
        is_step3(g, #[trigger] g.complete_frontier(s, progress)),
    decreases g.remaining(),
{
    broadcast use goes_on_save_imerge, goes_on_frontier;

    if let Ok(frontier) = frontier_of(s) {
        let (h, grid, result) = frontier.auto_expand(g, s.grid);
        if let (h, after, Ok(_)) = h.save_imerge(s.with_grid(grid)) {
            if result is Ok && h.remaining() < g.remaining() {
                step_complete_frontier(h, after, true);
            }
        }
    }
}

proof fn replay_complete_frontier(g: Talk, more: ReplyView, s: MergeStateView, progress: bool)
    ensures
        goes_on3(
            g.complete_frontier(s, progress),
            g.with_reply(more).complete_frontier(s, progress),
            more,
        ),
    decreases g.remaining(),
{
    broadcast use goes_on_save_imerge, goes_on_frontier;

    let again = g.with_reply(more);
    if let Ok(frontier) = frontier_of(s) {
        let (h, grid, result) = frontier.auto_expand(again, s.grid);
        if let (h, after, Ok(_)) = h.save_imerge(s.with_grid(grid)) {
            if result is Ok && h.remaining() < again.remaining() {
                step_complete_frontier(h, after, true);
            }
        }
    }
    if let Ok(frontier) = frontier_of(s) {
        let (h, grid, result) = frontier.auto_expand(g, s.grid);
        if let (h, after, Ok(_)) = h.save_imerge(s.with_grid(grid)) {
            if result is Ok && h.remaining() < g.remaining() {
                replay_complete_frontier(h, more, after, true);
            }
        }
    }
}

pub(crate) broadcast proof fn goes_on_complete_frontier(g: Talk, s: MergeStateView, progress: bool)
    ensures
        is_step3(g, #[trigger] g.complete_frontier(s, progress)),
        forall|more: ReplyView|
            goes_on3(
                g.complete_frontier(s, progress),
                #[trigger] g.with_reply(more).complete_frontier(s, progress),
                more,
            ),
{
    step_complete_frontier(g, s, progress);
    assert forall|more: ReplyView|
        goes_on3(
            g.complete_frontier(s, progress),
            #[trigger] g.with_reply(more).complete_frontier(s, progress),
            more,
        ) by {
        replay_complete_frontier(g, more, s, progress);
    }
}

pub(crate) broadcast proof fn goes_on_request_user_merge(g: Talk, s: MergeStateView, i1: usize, i2: usize)
    ensures
        is_step(g, #[trigger] g.request_user_merge(s, i1, i2)),
        forall|more: ReplyView|
            goes_on(
                g.request_user_merge(s, i1, i2),
                #[trigger] g.with_reply(more).request_user_merge(s, i1, i2),
                more,
            ),
{
    broadcast use goes_on_tell, goes_on_update_ref, goes_on_run_loud_checked, goes_on_manualmerge;

}

pub(crate) broadcast proof fn goes_on_ordered(
    g: Talk,
    commit: Seq<char>,
    parents: Seq<Seq<char>>,
    swapped: bool,
)
    ensures
        is_step(g, #[trigger] g.ordered(commit, parents, swapped)),
        forall|more: ReplyView|
            goes_on(
                g.ordered(commit, parents, swapped),
                #[trigger] g.with_reply(more).ordered(commit, parents, swapped),
                more,
            ),
{
    broadcast use goes_on_reparent;

}

pub(crate) broadcast proof fn goes_on_incorporate_manual_merge(g: Talk, s: MergeStateView, commit: Seq<char>)
    ensures
        is_step3(g, #[trigger] g.incorporate_manual_merge(s, commit)),
        forall|more: ReplyView|
            goes_on3(
                g.incorporate_manual_merge(s, commit),
                #[trigger] g.with_reply(more).incorporate_manual_merge(s, commit),
                more,
            ),
{
    broadcast use goes_on_get_commit_parents, goes_on_ordered;

}

pub(crate) broadcast proof fn goes_on_scratch_commit(g: Talk, s: MergeStateView)
    ensures
        is_step(g, #[trigger] g.scratch_commit(s)),
        forall|more: ReplyView|
            goes_on(g.scratch_commit(s), #[trigger] g.with_reply(more).scratch_commit(s), more),
{
    broadcast use
        goes_on_tell,
        goes_on_get_commit_sha1,
        goes_on_get_head_refname,
        goes_on_delete_ref,
    ;

}

pub(crate) broadcast proof fn goes_on_user_commit(g: Talk, s: MergeStateView, edit_log_msg: Option<bool>)
    ensures
        is_step(g, #[trigger] g.user_commit(s, edit_log_msg)),
        forall|more: ReplyView|
            goes_on(
                g.user_commit(s, edit_log_msg),
                #[trigger] g.with_reply(more).user_commit(s, edit_log_msg),
                more,
            ),
{
    broadcast use
        goes_on_scratch_commit,
        goes_on_commit_user_merge,
        goes_on_get_commit_sha1,
        goes_on_require_clean_work_tree,
    ;

}

pub(crate) broadcast proof fn goes_on_drop_scratch(g: Talk, name: Seq<char>)
    ensures
        is_step(g, #[trigger] g.drop_scratch(name)),
        forall|more: ReplyView|
            goes_on(g.drop_scratch(name), #[trigger] g.with_reply(more).drop_scratch(name), more),
{
    broadcast use goes_on_update_ref, goes_on_delete_ref;

}

pub(crate) broadcast proof fn goes_on_incorporate_user_merge(
    g: Talk,
    s: MergeStateView,
    edit_log_msg: Option<bool>,
)
    ensures
        is_step3(g, #[trigger] g.incorporate_user_merge(s, edit_log_msg)),
        forall|more: ReplyView|
            goes_on3(
                g.incorporate_user_merge(s, edit_log_msg),
                #[trigger] g.with_reply(more).incorporate_user_merge(s, edit_log_msg),
                more,
            ),
{
    broadcast use
        goes_on_user_commit,
        goes_on_incorporate_manual_merge,
        goes_on_drop_scratch,
        goes_on_settle,
        final_unblocks,
    ;

    reveal(Talk::incorporate_user_merge);
}

pub(crate) broadcast proof fn goes_on_settle(
    g: Talk,
    s: MergeStateView,
    unblocked: Result<(usize, usize), ErrorView>,
    i1: usize,
    i2: usize,
)
    requires
        !is_suspended(unblocked),
    ensures
        is_step3(g, #[trigger] g.settle(s, unblocked, i1, i2)),
        forall|more: ReplyView|
            goes_on3(
                g.settle(s, unblocked, i1, i2),
                #[trigger] g.with_reply(more).settle(s, unblocked, i1, i2),
                more,
            ),
{
    broadcast use goes_on_tell, goes_on_save_imerge;

}

pub(crate) broadcast proof fn goes_on_set_goal(g: Talk, s: MergeStateView, goal: Seq<char>)
    ensures
        is_step3(g, #[trigger] g.set_goal(s, goal)),
        forall|more: ReplyView|
            goes_on3(g.set_goal(s, goal), #[trigger] g.with_reply(more).set_goal(s, goal), more),
{
    broadcast use goes_on_check_no_merges;

}

pub(crate) broadcast proof fn goes_on_leave_scratch(g: Talk, name: Seq<char>)
    ensures
        is_step(g, #[trigger] g.leave_scratch(name)),
        forall|more: ReplyView|
            goes_on(g.leave_scratch(name), #[trigger] g.with_reply(more).leave_scratch(name), more),
{
    broadcast use goes_on_get_head_refname, goes_on_abort_merge, goes_on_update_ref;

}

pub(crate) broadcast proof fn goes_on_remove_imerge(g: Talk, name: Seq<char>)
    ensures
        is_step(g, #[trigger] g.remove_imerge(name)),
        forall|more: ReplyView|
            goes_on(g.remove_imerge(name), #[trigger] g.with_reply(more).remove_imerge(name), more),
{
    broadcast use
        goes_on_leave_scratch,
        goes_on_delete_ref,
        goes_on_delete_imerge_refs,
        goes_on_get_default_imerge_name,
        goes_on_set_default_imerge_name,
    ;

}

// ---------------------------------------------------------------------
// Simplifying
// ---------------------------------------------------------------------

pub(crate) broadcast proof fn goes_on_move_ref(g: Talk, refname: Seq<char>, commit: Seq<char>)
    ensures
        is_step(g, #[trigger] g.move_ref(refname, commit)),
        forall|more: ReplyView|
            goes_on(
                g.move_ref(refname, commit),
                #[trigger] g.with_reply(more).move_ref(refname, commit),
                more,
            ),
{
    broadcast use goes_on_update_ref, goes_on_run_loud_checked;

}

pub(crate) broadcast proof fn goes_on_set_refname(g: Talk, refname: Seq<char>, commit: Seq<char>, force: bool)
    ensures
        is_step(g, #[trigger] g.set_refname(refname, commit, force)),
        forall|more: ReplyView|
            goes_on(
                g.set_refname(refname, commit, force),
                #[trigger] g.with_reply(more).set_refname(refname, commit, force),
                more,
            ),
{
    broadcast use
        goes_on_get_commit_sha1,
        goes_on_move_ref,
        goes_on_get_head_refname,
        goes_on_is_ancestor,
        goes_on_run_loud_checked,
    ;

    reveal(Talk::set_refname);
}

pub(crate) broadcast proof fn goes_on_replayed(
    g: Talk,
    cell: Seq<char>,
    orig: Seq<char>,
    parents: Seq<Seq<char>>,
    with_history: bool,
)
    ensures
        is_step(g, #[trigger] g.replayed(cell, orig, parents, with_history)),
        forall|more: ReplyView|
            goes_on(
                g.replayed(cell, orig, parents, with_history),
                #[trigger] g.with_reply(more).replayed(cell, orig, parents, with_history),
                more,
            ),
{
    broadcast use
        goes_on_rev_parse_required,
        goes_on_get_log_message,
        goes_on_get_author_info,
        goes_on_run_stdin_env,
    ;

    reveal(Talk::replayed);
}

pub(crate) broadcast proof fn goes_on_replay_row(
    g: Talk,
    grid: GridView,
    i2: int,
    end: int,
    commit: Seq<char>,
    with_history: bool,
)
    ensures
        is_step(g, #[trigger] g.replay_row(grid, i2, end, commit, with_history)),
        forall|more: ReplyView|
            goes_on(
                g.replay_row(grid, i2, end, commit, with_history),
                #[trigger] g.with_reply(more).replay_row(grid, i2, end, commit, with_history),
                more,
            ),
    decreases end - i2,
{
    broadcast use goes_on_replayed;

    if i2 < end {
        let orig = grid.commit(0, i2);
        let parents = if with_history {
            seq![commit, orig]
        } else {
            seq![commit]
        };
        if let (h, Ok(next)) = g.replayed(
            grid.commit(grid.len1 - 1, i2),
            orig,
            parents,
            with_history,
        ) {
            goes_on_replay_row(h, grid, i2 + 1, end, next, with_history);
        }
    }
    assert forall|more: ReplyView|
        goes_on(
            g.replay_row(grid, i2, end, commit, with_history),
            #[trigger] g.with_reply(more).replay_row(grid, i2, end, commit, with_history),
            more,
        ) by {
        let again = g.with_reply(more);
        if i2 < end {
            let orig = grid.commit(0, i2);
            let parents = if with_history {
                seq![commit, orig]
            } else {
                seq![commit]
            };
            if let (h, Ok(next)) = again.replayed(
                grid.commit(grid.len1 - 1, i2),
                orig,
                parents,
                with_history,
            ) {
                goes_on_replay_row(h, grid, i2 + 1, end, next, with_history);
            }
        }
    }
}

pub(crate) broadcast proof fn goes_on_replay_column(
    g: Talk,
    grid: GridView,
    i1: int,
    end: int,
    commit: Seq<char>,
    with_history: bool,
)
    ensures
        is_step(g, #[trigger] g.replay_column(grid, i1, end, commit, with_history)),
        forall|more: ReplyView|
            goes_on(
                g.replay_column(grid, i1, end, commit, with_history),
                #[trigger] g.with_reply(more).replay_column(grid, i1, end, commit, with_history),
                more,
            ),
    decreases end - i1,
{
    broadcast use goes_on_replayed;

    if i1 < end {
        let orig = grid.commit(i1, 0);
        let parents = if with_history {
            seq![orig, commit]
        } else {
            seq![commit]
        };
        if let (h, Ok(next)) = g.replayed(
            grid.commit(i1, grid.len2 - 1),
            orig,
            parents,
            with_history,
        ) {
            goes_on_replay_column(h, grid, i1 + 1, end, next, with_history);
        }
    }
    assert forall|more: ReplyView|
        goes_on(
            g.replay_column(grid, i1, end, commit, with_history),
            #[trigger] g.with_reply(more).replay_column(grid, i1, end, commit, with_history),
            more,
        ) by {
        let again = g.with_reply(more);
        if i1 < end {
            let orig = grid.commit(i1, 0);
            let parents = if with_history {
                seq![orig, commit]
            } else {
                seq![commit]
            };
            if let (h, Ok(next)) = again.replayed(
                grid.commit(i1, grid.len2 - 1),
                orig,
                parents,
                with_history,
            ) {
                goes_on_replay_column(h, grid, i1 + 1, end, next, with_history);
            }
        }
    }
}

pub(crate) broadcast proof fn goes_on_simplify_to_full(
    g: Talk,
    s: MergeStateView,
    refname: Seq<char>,
    force: bool,
)
    ensures
        is_step(g, #[trigger] g.simplify_to_full(s, refname, force)),
        forall|more: ReplyView|
            goes_on(
                g.simplify_to_full(s, refname, force),
                #[trigger] g.with_reply(more).simplify_to_full(s, refname, force),
                more,
            ),
{
    broadcast use goes_on_set_refname;

}

pub(crate) broadcast proof fn goes_on_simplify_to_rebase_with_history(
    g: Talk,
    s: MergeStateView,
    refname: Seq<char>,
    force: bool,
)
    ensures
        is_step(g, #[trigger] g.simplify_to_rebase_with_history(s, refname, force)),
        forall|more: ReplyView|
            goes_on(
                g.simplify_to_rebase_with_history(s, refname, force),
                #[trigger] g.with_reply(more).simplify_to_rebase_with_history(s, refname, force),
                more,
            ),
{
    broadcast use goes_on_replay_row, goes_on_set_refname;

}

pub(crate) broadcast proof fn goes_on_simplify_to_border(
    g: Talk,
    s: MergeStateView,
    refname: Seq<char>,
    with_history1: bool,
    with_history2: bool,
    force: bool,
)
    ensures
        is_step(
            g,
            #[trigger] g.simplify_to_border(s, refname, with_history1, with_history2, force),
        ),
        forall|more: ReplyView|
            goes_on(
                g.simplify_to_border(s, refname, with_history1, with_history2, force),
                #[trigger] g.with_reply(more).simplify_to_border(
                    s,
                    refname,
                    with_history1,
                    with_history2,
                    force,
                ),
                more,
            ),
{
    broadcast use
        goes_on_replay_row,
        goes_on_replay_column,
        goes_on_rev_parse_required,
        goes_on_run_stdin_env,
        goes_on_set_refname,
    ;

}

pub(crate) broadcast proof fn goes_on_simplify_to_path(
    g: Talk,
    s: MergeStateView,
    refname: Seq<char>,
    base: PathRefView,
    path: Seq<(PathRefView, PathRefView)>,
    force: bool,
)
    ensures
        is_step(g, #[trigger] g.simplify_to_path(s, refname, base, path, force)),
        forall|more: ReplyView|
            goes_on(
                g.simplify_to_path(s, refname, base, path, force),
                #[trigger] g.with_reply(more).simplify_to_path(s, refname, base, path, force),
                more,
            ),
{
    broadcast use goes_on_is_ff, goes_on_create_commit_chain, goes_on_set_refname, final_path;

}

pub(crate) broadcast proof fn goes_on_simplify_to_rebase(
    g: Talk,
    s: MergeStateView,
    refname: Seq<char>,
    force: bool,
)
    ensures
        is_step(g, #[trigger] g.simplify_to_rebase(s, refname, force)),
        forall|more: ReplyView|
            goes_on(
                g.simplify_to_rebase(s, refname, force),
                #[trigger] g.with_reply(more).simplify_to_rebase(s, refname, force),
                more,
            ),
{
    broadcast use goes_on_simplify_to_path;

}

pub(crate) broadcast proof fn goes_on_simplify_to_drop(
    g: Talk,
    s: MergeStateView,
    refname: Seq<char>,
    force: bool,
)
    ensures
        is_step(g, #[trigger] g.simplify_to_drop(s, refname, force)),
        forall|more: ReplyView|
            goes_on(
                g.simplify_to_drop(s, refname, force),
                #[trigger] g.with_reply(more).simplify_to_drop(s, refname, force),
                more,
            ),
{
    broadcast use goes_on_simplify_to_path;

}

pub(crate) broadcast proof fn goes_on_simplify_to_merge(
    g: Talk,
    s: MergeStateView,
    refname: Seq<char>,
    force: bool,
)
    ensures
        is_step(g, #[trigger] g.simplify_to_merge(s, refname, force)),
        forall|more: ReplyView|
            goes_on(
                g.simplify_to_merge(s, refname, force),
                #[trigger] g.with_reply(more).simplify_to_merge(s, refname, force),
                more,
            ),
{
    broadcast use
        goes_on_rev_parse_required,
        goes_on_run_stdin_env,
        goes_on_set_refname,
        goes_on_run_loud_checked,
    ;

}

pub(crate) broadcast proof fn goes_on_simplify(g: Talk, s: MergeStateView, refname: Seq<char>, force: bool)
    ensures
        is_step(g, #[trigger] g.simplify(s, refname, force)),
        forall|more: ReplyView|
            goes_on(
                g.simplify(s, refname, force),
                #[trigger] g.with_reply(more).simplify(s, refname, force),
                more,
            ),
{
    broadcast use
        goes_on_simplify_to_full,
        goes_on_simplify_to_rebase,
        goes_on_simplify_to_rebase_with_history,
        goes_on_simplify_to_border,
        goes_on_simplify_to_drop,
        goes_on_simplify_to_merge,
    ;

}

// ---------------------------------------------------------------------
// Commands
// ---------------------------------------------------------------------

pub(crate) broadcast proof fn goes_on_maybe_set_default(g: Talk, name: Seq<char>)
    ensures
        is_step(g, #[trigger] g.maybe_set_default(name)),
        forall|more: ReplyView|
            goes_on(
                g.maybe_set_default(name),
                #[trigger] g.with_reply(more).maybe_set_default(name),
                more,
            ),
{
    broadcast use goes_on_iter_existing_imerge_names, goes_on_set_default_imerge_name;

}

pub(crate) broadcast proof fn goes_on_keep(g: Talk, s: MergeStateView)
    ensures
        is_step(g, #[trigger] g.keep(s)),
        forall|more: ReplyView| goes_on(g.keep(s), #[trigger] g.with_reply(more).keep(s), more),
{
    broadcast use goes_on_save_imerge, goes_on_maybe_set_default;

    reveal(Talk::keep);
}

pub(crate) broadcast proof fn goes_on_launch(
    g: Talk,
    setup: SetupView,
    bounds: (Seq<char>, Seq<Seq<char>>, Seq<Seq<char>>),
)
    ensures
        is_step(g, #[trigger] g.launch(setup, bounds)),
        forall|more: ReplyView|
            goes_on(
                g.launch(setup, bounds),
                #[trigger] g.with_reply(more).launch(setup, bounds),
                more,
            ),
{
    broadcast use goes_on_initialize, goes_on_keep;

    reveal(Talk::launch);
}

pub(crate) broadcast proof fn goes_on_drive(g: Talk, s: MergeStateView)
    ensures
        is_step(g, #[trigger] g.drive(s)),
        forall|more: ReplyView| goes_on(g.drive(s), #[trigger] g.with_reply(more).drive(s), more),
{
    broadcast use goes_on_tell, goes_on_complete_frontier, goes_on_request_user_merge;

    reveal(Talk::drive);
}

pub(crate) broadcast proof fn goes_on_launch_and_drive(g: Talk, setup: SetupView, first_parent: bool)
    ensures
        is_step(g, #[trigger] g.launch_and_drive(setup, first_parent)),
        forall|more: ReplyView|
            goes_on(
                g.launch_and_drive(setup, first_parent),
                #[trigger] g.with_reply(more).launch_and_drive(setup, first_parent),
                more,
            ),
{
    broadcast use goes_on_write, goes_on_get_boundaries, goes_on_launch, goes_on_drive;

}

pub(crate) broadcast proof fn goes_on_choose_merge_name(g: Talk, name: Option<Seq<char>>)
    ensures
        is_step(g, #[trigger] g.choose_merge_name(name)),
        forall|more: ReplyView|
            goes_on(
                g.choose_merge_name(name),
                #[trigger] g.with_reply(more).choose_merge_name(name),
                more,
            ),
{
    broadcast use
        goes_on_iter_existing_imerge_names,
        goes_on_choose_given,
        goes_on_get_default_imerge_name,
        goes_on_choose_default,
        goes_on_choose_only,
    ;

}

pub(crate) broadcast proof fn goes_on_choose_given(g: Talk, names: Seq<Seq<char>>, name: Seq<char>)
    ensures
        is_step(g, #[trigger] g.choose_given(names, name)),
        forall|more: ReplyView|
            goes_on(
                g.choose_given(names, name),
                #[trigger] g.with_reply(more).choose_given(names, name),
                more,
            ),
{
    broadcast use goes_on_set_default_imerge_name;

}

pub(crate) broadcast proof fn goes_on_choose_default(g: Talk, default: Seq<char>)
    ensures
        is_step(g, #[trigger] g.choose_default(default)),
        forall|more: ReplyView|
            goes_on(
                g.choose_default(default),
                #[trigger] g.with_reply(more).choose_default(default),
                more,
            ),
{
    broadcast use goes_on_check_imerge_exists, goes_on_set_default_imerge_name;

}

pub(crate) broadcast proof fn goes_on_choose_only(g: Talk, names: Seq<Seq<char>>)
    ensures
        is_step(g, #[trigger] g.choose_only(names)),
        forall|more: ReplyView|
            goes_on(g.choose_only(names), #[trigger] g.with_reply(more).choose_only(names), more),
{
    broadcast use goes_on_check_imerge_exists;

}

pub(crate) broadcast proof fn goes_on_read_merge_state(g: Talk, name: Option<Seq<char>>)
    ensures
        is_step(g, #[trigger] g.read_merge_state(name)),
        forall|more: ReplyView|
            goes_on(
                g.read_merge_state(name),
                #[trigger] g.with_reply(more).read_merge_state(name),
                more,
            ),
{
    broadcast use goes_on_choose_merge_name, goes_on_read_imerge;

    reveal(Talk::read_merge_state);
}

pub(crate) broadcast proof fn goes_on_parse_range(g: Talk, range: Seq<char>)
    ensures
        is_step(g, #[trigger] g.parse_range(range)),
        forall|more: ReplyView|
            goes_on(g.parse_range(range), #[trigger] g.with_reply(more).parse_range(range), more),
{
    broadcast use goes_on_rev_parse_required;

}

pub(crate) broadcast proof fn goes_on_is_branch_name(g: Talk, name: Seq<char>)
    ensures
        is_step(g, #[trigger] g.is_branch_name(name)),
        forall|more: ReplyView|
            goes_on(
                g.is_branch_name(name),
                #[trigger] g.with_reply(more).is_branch_name(name),
                more,
            ),
{
    broadcast use goes_on_check_branch_name_format;

}

pub(crate) broadcast proof fn goes_on_branch_for(g: Talk, branch: Option<Seq<char>>, current: Seq<char>)
    ensures
        is_step(g, #[trigger] g.branch_for(branch, current)),
        forall|more: ReplyView|
            goes_on(
                g.branch_for(branch, current),
                #[trigger] g.with_reply(more).branch_for(branch, current),
                more,
            ),
{
    broadcast use goes_on_is_branch_name;

}

pub(crate) broadcast proof fn goes_on_current_tip(g: Talk, name: Option<Seq<char>>, branch: Option<Seq<char>>)
    ensures
        is_step(g, #[trigger] g.current_tip(name, branch)),
        forall|more: ReplyView|
            goes_on(
                g.current_tip(name, branch),
                #[trigger] g.with_reply(more).current_tip(name, branch),
                more,
            ),
{
    broadcast use goes_on_get_head_refname, goes_on_branch_for, goes_on_rev_parse_required;

}

pub(crate) broadcast proof fn goes_on_init_imerge(g: Talk, args: InitArgsView)
    ensures
        is_step(g, #[trigger] g.init_imerge(args)),
        forall|more: ReplyView|
            goes_on(g.init_imerge(args), #[trigger] g.with_reply(more).init_imerge(args), more),
{
    broadcast use
        goes_on_require_clean_work_tree,
        goes_on_get_head_refname,
        goes_on_get_boundaries,
        goes_on_launch,
    ;

}

pub(crate) broadcast proof fn goes_on_cmd_init(g: Talk, args: InitArgsView)
    ensures
        is_step(g, #[trigger] g.cmd_init(args)),
        forall|more: ReplyView|
            goes_on(g.cmd_init(args), #[trigger] g.with_reply(more).cmd_init(args), more),
{
    broadcast use goes_on_init_imerge;

    reveal(Talk::cmd_init);
}

pub(crate) broadcast proof fn goes_on_cmd_start(g: Talk, args: InitArgsView)
    ensures
        is_step(g, #[trigger] g.cmd_start(args)),
        forall|more: ReplyView|
            goes_on(g.cmd_start(args), #[trigger] g.with_reply(more).cmd_start(args), more),
{
    broadcast use goes_on_init_imerge, goes_on_drive;

    reveal(Talk::cmd_start);
}

pub(crate) broadcast proof fn goes_on_merge_name(g: Talk, args: MergeArgsView)
    ensures
        is_step(g, #[trigger] g.merge_name(args)),
        forall|more: ReplyView|
            goes_on(g.merge_name(args), #[trigger] g.with_reply(more).merge_name(args), more),
{
    broadcast use goes_on_check_imerge_name_format;

}

pub(crate) broadcast proof fn goes_on_merge_branch(g: Talk, args: MergeArgsView)
    ensures
        is_step(g, #[trigger] g.merge_branch(args)),
        forall|more: ReplyView|
            goes_on(g.merge_branch(args), #[trigger] g.with_reply(more).merge_branch(args), more),
{
    broadcast use goes_on_get_head_refname, goes_on_branch_for;

}

pub(crate) broadcast proof fn goes_on_cmd_merge(g: Talk, args: MergeArgsView)
    ensures
        is_step(g, #[trigger] g.cmd_merge(args)),
        forall|more: ReplyView|
            goes_on(g.cmd_merge(args), #[trigger] g.with_reply(more).cmd_merge(args), more),
{
    broadcast use
        goes_on_require_clean_work_tree,
        goes_on_merge_name,
        goes_on_merge_branch,
        goes_on_launch_and_drive,
    ;

    reveal(Talk::cmd_merge);
}

pub(crate) broadcast proof fn goes_on_cmd_rebase(g: Talk, args: RebaseArgsView)
    ensures
        is_step(g, #[trigger] g.cmd_rebase(args)),
        forall|more: ReplyView|
            goes_on(g.cmd_rebase(args), #[trigger] g.with_reply(more).cmd_rebase(args), more),
{
    broadcast use goes_on_require_clean_work_tree, goes_on_current_tip, goes_on_launch_and_drive;

    reveal(Talk::cmd_rebase);
}

pub(crate) broadcast proof fn goes_on_revert_all(g: Talk, commits: Seq<Seq<char>>, n: nat)
    ensures
        is_step(g, #[trigger] g.revert_all(commits, n)),
        forall|more: ReplyView|
            goes_on(
                g.revert_all(commits, n),
                #[trigger] g.with_reply(more).revert_all(commits, n),
                more,
            ),
    decreases n,
{
    broadcast use goes_on_revert;

    if n > 0 {
        if let (h, Ok(_)) = g.revert(commits[n - 1]) {
            goes_on_revert_all(h, commits, (n - 1) as nat);
        }
    }
    assert forall|more: ReplyView|
        goes_on(
            g.revert_all(commits, n),
            #[trigger] g.with_reply(more).revert_all(commits, n),
            more,
        ) by {
        let again = g.with_reply(more);
        if n > 0 {
            if let (h, Ok(_)) = again.revert(commits[n - 1]) {
                goes_on_revert_all(h, commits, (n - 1) as nat);
            }
        }
    }
}

pub(crate) broadcast proof fn goes_on_undo(g: Talk, end: Seq<char>, commits: Seq<Seq<char>>)
    ensures
        is_step(g, #[trigger] g.undo(end, commits)),
        forall|more: ReplyView|
            goes_on(g.undo(end, commits), #[trigger] g.with_reply(more).undo(end, commits), more),
{
    broadcast use goes_on_run_loud_checked, goes_on_revert_all, goes_on_rev_parse_required;

}

pub(crate) broadcast proof fn goes_on_range_setup(g: Talk, args: RangeArgsView, goal: Seq<char>)
    ensures
        is_step(g, #[trigger] g.range_setup(args, goal)),
        forall|more: ReplyView|
            goes_on(
                g.range_setup(args, goal),
                #[trigger] g.with_reply(more).range_setup(args, goal),
                more,
            ),
{
    broadcast use
        goes_on_require_clean_work_tree,
        goes_on_parse_range,
        goes_on_linear_ancestry,
        goes_on_current_tip,
        goes_on_undo,
    ;

}

pub(crate) broadcast proof fn goes_on_cmd_drop_or_revert(g: Talk, args: RangeArgsView, goal: Seq<char>)
    ensures
        is_step(g, #[trigger] g.cmd_drop_or_revert(args, goal)),
        forall|more: ReplyView|
            goes_on(
                g.cmd_drop_or_revert(args, goal),
                #[trigger] g.with_reply(more).cmd_drop_or_revert(args, goal),
                more,
            ),
{
    broadcast use goes_on_range_setup, goes_on_launch_and_drive;

    reveal(Talk::cmd_drop_or_revert);
}

pub(crate) broadcast proof fn goes_on_cmd_continue(g: Talk, args: EditArgsView)
    ensures
        is_step(g, #[trigger] g.cmd_continue(args)),
        forall|more: ReplyView|
            goes_on(g.cmd_continue(args), #[trigger] g.with_reply(more).cmd_continue(args), more),
{
    broadcast use goes_on_read_merge_state, goes_on_incorporate_user_merge, goes_on_drive;

    reveal(Talk::cmd_continue);
}

pub(crate) broadcast proof fn goes_on_cmd_record(g: Talk, args: EditArgsView)
    ensures
        is_step(g, #[trigger] g.cmd_record(args)),
        forall|more: ReplyView|
            goes_on(g.cmd_record(args), #[trigger] g.with_reply(more).cmd_record(args), more),
{
    broadcast use
        goes_on_tell,
        goes_on_read_merge_state,
        goes_on_incorporate_user_merge,
        goes_on_complete_frontier,
    ;

    reveal(Talk::cmd_record);
}

pub(crate) broadcast proof fn goes_on_cmd_autofill(g: Talk, args: NameArgsView)
    ensures
        is_step(g, #[trigger] g.cmd_autofill(args)),
        forall|more: ReplyView|
            goes_on(g.cmd_autofill(args), #[trigger] g.with_reply(more).cmd_autofill(args), more),
{
    broadcast use
        goes_on_require_clean_work_tree,
        goes_on_read_merge_state,
        goes_on_temporary_head,
        goes_on_complete_frontier,
        goes_on_restore,
    ;

    reveal(Talk::cmd_autofill);
}

pub(crate) broadcast proof fn goes_on_simplify_imerge(g: Talk, args: SimplifyArgsView)
    ensures
        is_step(g, #[trigger] g.simplify_imerge(args)),
        forall|more: ReplyView|
            goes_on(
                g.simplify_imerge(args),
                #[trigger] g.with_reply(more).simplify_imerge(args),
                more,
            ),
{
    broadcast use
        goes_on_require_clean_work_tree,
        goes_on_read_merge_state,
        goes_on_change_goal,
        goes_on_simplify,
    ;

}

pub(crate) broadcast proof fn goes_on_change_goal(g: Talk, s: MergeStateView, goal: Option<Seq<char>>)
    ensures
        is_step3(g, #[trigger] g.change_goal(s, goal)),
        forall|more: ReplyView|
            goes_on3(
                g.change_goal(s, goal),
                #[trigger] g.with_reply(more).change_goal(s, goal),
                more,
            ),
{
    broadcast use goes_on_set_goal, goes_on_save_imerge;

    reveal(Talk::change_goal);
}

pub(crate) broadcast proof fn goes_on_cmd_simplify(g: Talk, args: SimplifyArgsView)
    ensures
        is_step(g, #[trigger] g.cmd_simplify(args)),
        forall|more: ReplyView|
            goes_on(g.cmd_simplify(args), #[trigger] g.with_reply(more).cmd_simplify(args), more),
{
    broadcast use goes_on_simplify_imerge;

    reveal(Talk::cmd_simplify);
}

pub(crate) broadcast proof fn goes_on_cmd_finish(g: Talk, args: SimplifyArgsView)
    ensures
        is_step(g, #[trigger] g.cmd_finish(args)),
        forall|more: ReplyView|
            goes_on(g.cmd_finish(args), #[trigger] g.with_reply(more).cmd_finish(args), more),
{
    broadcast use goes_on_simplify_imerge, goes_on_remove_imerge;

    reveal(Talk::cmd_finish);
}

pub(crate) broadcast proof fn goes_on_cmd_remove(g: Talk, args: NameArgsView)
    ensures
        is_step(g, #[trigger] g.cmd_remove(args)),
        forall|more: ReplyView|
            goes_on(g.cmd_remove(args), #[trigger] g.with_reply(more).cmd_remove(args), more),
{
    broadcast use goes_on_choose_merge_name, goes_on_remove_imerge;

    reveal(Talk::cmd_remove);
}

pub(crate) broadcast proof fn goes_on_print_names(
    g: Talk,
    names: Seq<Seq<char>>,
    default: Option<Seq<char>>,
    k: nat,
)
    ensures
        g.grows_to(#[trigger] g.print_names(names, default, k)),
        g.waiting() == g.print_names(names, default, k).waiting(),
        forall|more: ReplyView|
            #[trigger] g.with_reply(more).print_names(names, default, k) == g.print_names(
                names,
                default,
                k,
            ).with_reply(more),
    decreases names.len() - k,
{
    broadcast use goes_on_write;

    if k < names.len() {
        let name = names[k as int];
        let line = if default == Some(name) {
            "* "@ + name
        } else {
            "  "@ + name
        };
        goes_on_print_names(g.print(line), names, default, k + 1);
        assert forall|more: ReplyView|
            #[trigger] g.with_reply(more).print_names(names, default, k) == g.print_names(
                names,
                default,
                k,
            ).with_reply(more) by {
            let h = g.print(line);
            assert(g.with_reply(more).print(line) == h.with_reply(more));
            assert(h.with_reply(more).print_names(names, default, k + 1) == h.print_names(
                names,
                default,
                k + 1,
            ).with_reply(more));
            assert(g.with_reply(more).print_names(names, default, k) == h.with_reply(
                more,
            ).print_names(names, default, k + 1));
        }
    }
}

pub(crate) broadcast proof fn goes_on_cmd_list(g: Talk)
    ensures
        is_step(g, #[trigger] g.cmd_list()),
        forall|more: ReplyView|
            goes_on(g.cmd_list(), #[trigger] g.with_reply(more).cmd_list(), more),
{
    broadcast use
        goes_on_iter_existing_imerge_names,
        goes_on_get_default_imerge_name,
        goes_on_print_names,
    ;

    reveal(Talk::cmd_list);
}

pub(crate) broadcast proof fn goes_on_draw_commits(g: Talk, s: MergeStateView, wanted: bool, enabled: bool)
    ensures
        g.grows_to(#[trigger] g.draw_commits(s, wanted, enabled)),
        g.waiting() == g.draw_commits(s, wanted, enabled).waiting(),
        forall|more: ReplyView|
            #[trigger] g.with_reply(more).draw_commits(s, wanted, enabled) == g.draw_commits(
                s,
                wanted,
                enabled,
            ).with_reply(more),
{
    broadcast use goes_on_write;

}

pub(crate) broadcast proof fn goes_on_draw_frontier(g: Talk, s: MergeStateView, wanted: bool, enabled: bool)
    ensures
        is_step(g, #[trigger] g.draw_frontier(s, wanted, enabled)),
        forall|more: ReplyView|
            goes_on(
                g.draw_frontier(s, wanted, enabled),
                #[trigger] g.with_reply(more).draw_frontier(s, wanted, enabled),
                more,
            ),
{
    broadcast use goes_on_write;

}

pub(crate) broadcast proof fn goes_on_draw_html(g: Talk, s: MergeStateView, path: Option<Seq<char>>)
    ensures
        is_step(g, #[trigger] g.draw_html(s, path)),
        forall|more: ReplyView|
            goes_on(g.draw_html(s, path), #[trigger] g.with_reply(more).draw_html(s, path), more),
{
}

pub(crate) broadcast proof fn goes_on_cmd_diagram(g: Talk, args: DiagramArgsView, terminal: bool)
    ensures
        is_step(g, #[trigger] g.cmd_diagram(args, terminal)),
        forall|more: ReplyView|
            goes_on(
                g.cmd_diagram(args, terminal),
                #[trigger] g.with_reply(more).cmd_diagram(args, terminal),
                more,
            ),
{
    broadcast use
        goes_on_write,
        goes_on_read_merge_state,
        goes_on_draw_commits,
        goes_on_draw_frontier,
        goes_on_draw_html,
    ;

    reveal(Talk::cmd_diagram);
}

pub(crate) broadcast proof fn goes_on_reparent_all(
    g: Talk,
    commits: Seq<(Seq<char>, Seq<Seq<char>>)>,
    k: nat,
    replacements: Seq<(Seq<char>, Seq<char>)>,
)
    ensures
        is_step(g, #[trigger] g.reparent_all(commits, k, replacements)),
        forall|more: ReplyView|
            goes_on(
                g.reparent_all(commits, k, replacements),
                #[trigger] g.with_reply(more).reparent_all(commits, k, replacements),
                more,
            ),
    decreases commits.len() - k,
{
    broadcast use goes_on_reparent;

    if k < commits.len() {
        let (commit, parents) = commits[k as int];
        if let (h, Ok(sha1)) = g.reparent(commit, all_replaced(replacements, parents), None) {
            goes_on_reparent_all(h, commits, k + 1, replacements.push((commit, sha1)));
        }
    }
    assert forall|more: ReplyView|
        goes_on(
            g.reparent_all(commits, k, replacements),
            #[trigger] g.with_reply(more).reparent_all(commits, k, replacements),
            more,
        ) by {
        let again = g.with_reply(more);
        if k < commits.len() {
            let (commit, parents) = commits[k as int];
            if let (h, Ok(sha1)) = again.reparent(commit, all_replaced(replacements, parents), None) {
                goes_on_reparent_all(h, commits, k + 1, replacements.push((commit, sha1)));
            }
        }
    }
}

pub(crate) broadcast proof fn goes_on_reparent_recursively(
    g: Talk,
    start: Seq<char>,
    parents: Seq<Seq<char>>,
    end: Seq<char>,
)
    ensures
        is_step(g, #[trigger] g.reparent_recursively(start, parents, end)),
        forall|more: ReplyView|
            goes_on(
                g.reparent_recursively(start, parents, end),
                #[trigger] g.with_reply(more).reparent_recursively(start, parents, end),
                more,
            ),
{
    broadcast use goes_on_reparent, goes_on_rev_list_with_parents, goes_on_reparent_all;

}

pub(crate) broadcast proof fn goes_on_commits_named(
    g: Talk,
    names: Seq<Seq<char>>,
    k: nat,
    found: Seq<Seq<char>>,
)
    ensures
        is_step(g, #[trigger] g.commits_named(names, k, found)),
        forall|more: ReplyView|
            goes_on(
                g.commits_named(names, k, found),
                #[trigger] g.with_reply(more).commits_named(names, k, found),
                more,
            ),
    decreases names.len() - k,
{
    broadcast use goes_on_get_commit_sha1;

    if k < names.len() {
        if let (h, Ok(sha1)) = g.get_commit_sha1(names[k as int]) {
            goes_on_commits_named(h, names, k + 1, found.push(sha1));
        }
    }
    assert forall|more: ReplyView|
        goes_on(
            g.commits_named(names, k, found),
            #[trigger] g.with_reply(more).commits_named(names, k, found),
            more,
        ) by {
        let again = g.with_reply(more);
        if k < names.len() {
            if let (h, Ok(sha1)) = again.get_commit_sha1(names[k as int]) {
                goes_on_commits_named(h, names, k + 1, found.push(sha1));
            }
        }
    }
}

pub(crate) broadcast proof fn goes_on_cmd_reparent(g: Talk, args: ReparentArgsView)
    ensures
        is_step(g, #[trigger] g.cmd_reparent(args)),
        forall|more: ReplyView|
            goes_on(g.cmd_reparent(args), #[trigger] g.with_reply(more).cmd_reparent(args), more),
{
    broadcast use
        goes_on_write,
        goes_on_get_commit_sha1,
        goes_on_commits_named,
        goes_on_reparent_recursively,
    ;

    reveal(Talk::cmd_reparent);
}

pub(crate) broadcast proof fn goes_on_run_command(g: Talk, command: CommandView, terminal: bool)
    ensures
        is_step(g, #[trigger] g.run_command(command, terminal)),
        forall|more: ReplyView|
            goes_on(
                g.run_command(command, terminal),
                #[trigger] g.with_reply(more).run_command(command, terminal),
                more,
            ),
{
    broadcast use
        goes_on_cmd_init,
        goes_on_cmd_start,
        goes_on_cmd_merge,
        goes_on_cmd_rebase,
        goes_on_cmd_drop_or_revert,
        goes_on_cmd_continue,
        goes_on_cmd_record,
        goes_on_cmd_autofill,
        goes_on_cmd_simplify,
        goes_on_cmd_finish,
        goes_on_cmd_diagram,
        goes_on_cmd_list,
        goes_on_cmd_remove,
        goes_on_cmd_reparent,
    ;

}

} // verus!
