//! How the commands relate to each other.
use vstd::prelude::*;

use crate::block::{diagram_of, GridView};
use crate::cli::{CommandView, EditArgsView};
use crate::diagram::{cell_text, formatted};
use crate::error::ErrorView;
use crate::finishing::refs_at;
use crate::imerge::{full_window, MergeStateView};
use crate::manual::prepared_at;
use crate::outcome::answer_at;
use crate::progress::law_user_is_asked_for_what_blocks;
use crate::store::names_in;
use crate::talk::{lemma_grows, lemma_learns_nothing, MessageView, Talk};
use crate::trace::{asks, did};
use crate::work::is_finished;

verus! {

broadcast use lemma_grows, lemma_learns_nothing;

/// Each command is carried out under its own name. Only drawing depends on whether there
/// is a terminal.
pub proof fn law_commands_are_told_apart(g: Talk, command: CommandView, terminal: bool)
    ensures
        !(command is Diagram) ==> g.run_command(command, terminal) == g.run_command(
            command,
            !terminal,
        ),
        command matches CommandView::Init(args) ==> g.run_command(command, terminal) == g.cmd_init(
            args,
        ),
        command matches CommandView::Start(args) ==> g.run_command(command, terminal)
            == g.cmd_start(args),
        command matches CommandView::Merge(args) ==> g.run_command(command, terminal)
            == g.cmd_merge(args),
        command matches CommandView::Rebase(args) ==> g.run_command(command, terminal)
            == g.cmd_rebase(args),
        command matches CommandView::Drop(args) ==> g.run_command(command, terminal)
            == g.cmd_drop_or_revert(args, "drop"@),
        command matches CommandView::Revert(args) ==> g.run_command(command, terminal)
            == g.cmd_drop_or_revert(args, "revert"@),
        command matches CommandView::Continue(args) ==> g.run_command(command, terminal)
            == g.cmd_continue(args),
        command matches CommandView::Record(args) ==> g.run_command(command, terminal)
            == g.cmd_record(args),
        command matches CommandView::Autofill(args) ==> g.run_command(command, terminal)
            == g.cmd_autofill(args),
        command matches CommandView::Simplify(args) ==> g.run_command(command, terminal)
            == g.cmd_simplify(args),
        command matches CommandView::Finish(args) ==> g.run_command(command, terminal)
            == g.cmd_finish(args),
        command matches CommandView::Remove(args) ==> g.run_command(command, terminal)
            == g.cmd_remove(args),
        command matches CommandView::Reparent(args) ==> g.run_command(command, terminal)
            == g.cmd_reparent(args),
        command is List ==> g.run_command(command, terminal) == g.cmd_list(),
{
}

/// Going on does what recording does, and more: it makes the same requests, and where
/// recording ends because the user is needed, it goes on to prepare just that merge.
pub proof fn law_continue_goes_on_where_record_ends(g: Talk, args: EditArgsView)
    ensures
        g.cmd_record(args) matches (t, Ok(_)) ==> {
            let (u, r) = g.cmd_continue(args);
            &&& t.asked.len() <= u.asked.len()
            &&& forall|k: int| 0 <= k < t.asked.len() ==> #[trigger] u.asked[k] == t.asked[k]
            &&& r is Ok ==> {
                ||| u.asked == t.asked && t.told.len() > 0 && t.told.last() == MessageView::Stderr(
                    "Merge is complete!\n"@,
                )
                ||| exists|s: MergeStateView, i1: usize, i2: usize| #[trigger]
                    is_prepared(u, t.asked.len() as int, s, i1, i2)
            }
        },
{
    broadcast use crate::replay::goes_on_request_user_merge;

    reveal(Talk::cmd_record);
    reveal(Talk::cmd_continue);
    reveal(Talk::drive);
    reveal_strlit("Merge is complete!");
    reveal_strlit("\n");
    reveal_strlit("Merge is complete!\n");
    assert("Merge is complete!"@ + "\n"@ =~= "Merge is complete!\n"@);
    if let (t, Ok(_)) = g.cmd_record(args) {
        let (h, read) = g.read_merge_state(args.name);
        let (k, s, taken) = h.incorporate_user_merge(read->Ok_0, args.edit_log_msg());
        let (l, later, done) = k.complete_frontier(s, false);
        let (u, r) = g.cmd_continue(args);
        assert((u, r) == k.drive(s));
        law_user_is_asked_for_what_blocks(k, s);
        if let Err(ErrorView::FrontierBlocked { i1, i2, .. }) = done {
            assert(t == l);
            assert(l.grows_to(u));
            if r is Ok {
                assert(is_prepared(u, t.asked.len() as int, later, i1, i2));
            }
        }
    }
}

/// From `k` on, the merge `(i1, i2)` was prepared for the user.
pub open spec fn is_prepared(t: Talk, k: int, s: MergeStateView, i1: usize, i2: usize) -> bool {
    prepared_at(
        t,
        k,
        s.grid.name,
        i1 as int,
        i2 as int,
        s.grid.commit(i1 as int, i2 - 1),
        s.grid.commit(i1 - 1, i2 as int),
        s.grid.commit(i1 as int, 0),
        s.grid.commit(0, i2 as int),
    )
}

/// A merge by the user is wanted with its message edited or not, as the user says.
pub proof fn law_editing_is_up_to_the_user(args: EditArgsView)
    ensures
        args.no_edit ==> args.edit_log_msg() == Some(false),
        args.edit && !args.no_edit ==> args.edit_log_msg() == Some(true),
        !args.edit && !args.no_edit ==> args.edit_log_msg() is None,
{
}

// ---------------------------------------------------------------------
// Names
// ---------------------------------------------------------------------

/// Where there are several incremental merges, the new one becomes the default.
pub proof fn law_new_one_becomes_the_default(g: Talk, name: Seq<char>)
    ensures
        g.maybe_set_default(name) matches (t, Ok(_)) ==> {
            let k = g.asked.len() as int;
            &&& did(
                t,
                k,
                seq![
                    "for-each-ref"@,
                    "--format=%(objectname) %(objecttype) %(refname)"@,
                    "refs/imerge"@,
                ],
            )
            &&& if names_in(refs_at(t, k)).len() > 1 {
                asks(t, k + 1, seq!["config"@, "imerge.default"@, name], None, None, false)
            } else {
                t.asked.len() == k + 1
            }
        },
{
    let (g1, r1) = g.iter_existing_imerge_names();
}

/// What is told of one name in a list.
pub open spec fn list_line(name: Seq<char>, default: Option<Seq<char>>) -> MessageView {
    MessageView::Stdout(
        if default == Some(name) {
            "* "@ + name + "\n"@
        } else {
            "  "@ + name + "\n"@
        },
    )
}

proof fn lemma_list(g: Talk, names: Seq<Seq<char>>, default: Option<Seq<char>>, k: nat)
    requires
        k <= names.len(),
    ensures
        ({
            let t = g.print_names(names, default, k);
            &&& t.asked == g.asked
            &&& t.replies == g.replies
            &&& t.told.len() == g.told.len() + names.len() - k
            &&& forall|i: int| 0 <= i < g.told.len() ==> t.told[i] == g.told[i]
            &&& forall|i: int|
                k <= i < names.len() ==> t.told[g.told.len() + (i - k)] == list_line(
                    #[trigger] names[i],
                    default,
                )
        }),
    decreases names.len() - k,
{
    if k < names.len() {
        let name = names[k as int];
        let h = g.print(
            if default == Some(name) {
                "* "@ + name
            } else {
                "  "@ + name
            },
        );
        assert(h.told.last() == list_line(name, default));
        lemma_list(h, names, default, k + 1);
        let t = h.print_names(names, default, k + 1);
        assert forall|i: int| k <= i < names.len() implies t.told[g.told.len() + (i - k)]
            == list_line(#[trigger] names[i], default) by {
            if i == k {
                assert(t.told[g.told.len() as int] == h.told[g.told.len() as int]);
            } else {
                assert(h.told.len() + (i - (k + 1)) == g.told.len() + (i - k));
            }
        }
        assert forall|i: int| 0 <= i < g.told.len() implies t.told[i] == g.told[i] by {
            assert(t.told[i] == h.told[i]);
        }
    }
}

/// The list has one line for each incremental merge that is there, in the order in which
/// `git` lists them, with a star before the default. The only one is the default if no
/// other is set.
pub proof fn law_list_shows_every_name(g: Talk)
    ensures
        g.cmd_list() matches (t, Ok(_)) ==> {
            let k = g.asked.len() as int;
            let names = names_in(refs_at(t, k));
            let default = match answer_at(t, k + 1) {
                Some(d) => Some(d),
                None => if names.len() == 1 {
                    Some(names[0])
                } else {
                    None
                },
            };
            &&& did(
                t,
                k,
                seq![
                    "for-each-ref"@,
                    "--format=%(objectname) %(objecttype) %(refname)"@,
                    "refs/imerge"@,
                ],
            )
            &&& asks(t, k + 1, seq!["config"@, "imerge.default"@], None, None, false)
            &&& t.told.len() == g.told.len() + names.len()
            &&& forall|i: int|
                0 <= i < names.len() ==> t.told[g.told.len() + i] == list_line(
                    #[trigger] names[i],
                    default,
                )
        },
{
    reveal(Talk::cmd_list);
    let k = g.asked.len() as int;
    let (g1, r1) = g.iter_existing_imerge_names();
    if let Ok(names) = r1 {
        let (g2, r2) = g1.get_default_imerge_name();
        if let Ok(default) = r2 {
            let d = if default is None && names.len() == 1 {
                Some(names[0])
            } else {
                default
            };
            lemma_list(g2, names, d, 0);
            let t = g2.print_names(names, d, 0);
            assert forall|i: int| 0 <= i < names.len() implies t.told[g.told.len() + i]
                == list_line(#[trigger] names[i], d) by {
                assert(t.told[g2.told.len() + (i - 0)] == list_line(names[i], d));
            }
        }
    }
}

// ---------------------------------------------------------------------
// Frontiers
// ---------------------------------------------------------------------

/// Where a full or a manual merge ends is the last cell: it is finished exactly when
/// that is known.
pub proof fn law_finished_with_the_last_cell(s: MergeStateView)
    requires
        s.wf(),
        s.manual || s.goal == "full"@,
    ensures
        is_finished(s) == Ok::<bool, ErrorView>(
            s.grid.known(s.grid.len1 - 1, s.grid.len2 - 1),
        ),
{
}

// ---------------------------------------------------------------------
// Diagrams
// ---------------------------------------------------------------------

/// The character for a cell of the grid: a star for a merge by the user, a dot for an
/// automatic one, a hash where a conflict blocks, an at sign where it no longer does,
/// and a question mark where nothing is known.
pub open spec fn sign_of(grid: GridView, i1: int, i2: int) -> Seq<char> {
    let cell = grid.cell(i1, i2);
    if cell.blocked() && !cell.known() {
        "#"@
    } else if cell.blocked() {
        "@"@
    } else if !cell.known() {
        "?"@
    } else if cell.manual() {
        "*"@
    } else {
        "."@
    }
}

/// A diagram without colours shows for each cell what the legend says.
pub proof fn law_diagram_shows_what_is_known(grid: GridView, i1: int, i2: int)
    requires
        grid.wf(),
        grid.has(i1, i2),
    ensures
        formatted(diagram_of(grid, full_window(grid)), false, false)[i1][i2] == sign_of(
            grid,
            i1,
            i2,
        ),
{
    let codes = diagram_of(grid, full_window(grid));
    assert(codes[i1][i2] == grid.code(i1, i2));
    assert(formatted(codes, false, false)[i1][i2] == cell_text(false, false, codes[i1][i2]));
}

} // verus!
