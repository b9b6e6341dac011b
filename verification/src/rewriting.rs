//! The commits that a simplification makes.
//!
//! The laws here say which commits are made and where the branch goes in the end:
//! by the commands that were run, with all their arguments.
use vstd::prelude::*;

use crate::error::ErrorView;
use crate::history::{message_in, parent_args};
use crate::talk::{RequestView, Talk};
use crate::text::{lines_of, trimmed, until_blank, without_line_feeds, words_of};
use crate::trace::{asks, did, ended, said};

verus! {

// ---------------------------------------------------------------------
// Commands
// ---------------------------------------------------------------------

/// The command that prints the tree of a commit.
pub open spec fn tree_of(commit: Seq<char>) -> Seq<Seq<char>> {
    seq!["rev-parse"@, "--verify"@, "--quiet"@, commit + "^{tree}"@]
}

/// The command that prints the text of a commit.
pub open spec fn text_of(commit: Seq<char>) -> Seq<Seq<char>> {
    seq!["cat-file"@, "commit"@, commit]
}

/// The command that prints the author of a commit: name, email and date, each on a
/// line.
pub open spec fn author_of(commit: Seq<char>) -> Seq<Seq<char>> {
    seq!["--no-pager"@, "log"@, "-n1"@, "--format=%an%n%ae%n%ai"@, commit]
}

/// The command that prints the parents of a commit.
pub open spec fn parents_of(commit: Seq<char>) -> Seq<Seq<char>> {
    seq!["--no-pager"@, "log"@, "--no-walk"@, "--pretty=format:%P"@, commit]
}

/// The command makes a commit with this tree and these parents, in this order.
pub open spec fn is_commit_tree(
    args: Seq<Seq<char>>,
    tree: Seq<char>,
    parents: Seq<Seq<char>>,
) -> bool {
    &&& args.len() == 2 + 2 * parents.len()
    &&& args[0] == "commit-tree"@
    &&& args[1] == tree
    &&& forall|i: int| 0 <= i < parents.len() ==> #[trigger] names_parent(args, i, parents[i])
}

/// The parent at place `i` among the arguments is `parent`.
pub open spec fn names_parent(args: Seq<Seq<char>>, i: int, parent: Seq<char>) -> bool {
    args[2 + 2 * i] == "-p"@ && args[3 + 2 * i] == parent
}

/// The request makes a commit.
pub open spec fn makes_commit(r: RequestView) -> bool {
    r matches RequestView::Git { args, .. } && args.len() > 0 && args[0] == "commit-tree"@
}

/// Two line feeds stand at `i`.
pub open spec fn is_blank(text: Seq<char>, i: int) -> bool {
    0 <= i && i + 1 < text.len() && text[i] == '\n' && text[i + 1] == '\n'
}

/// `msg` is the log message in the text of a commit: what stands after the first
/// blank line, with a line feed at its end. Without that there is none.
pub open spec fn is_message(text: Seq<char>, msg: Seq<char>) -> bool {
    &&& (forall|i: int| !#[trigger] is_blank(text, i)) ==> msg.len() == 0
    &&& forall|n: int|
        #[trigger] is_blank(text, n) && (forall|i: int| i < n ==> !#[trigger] is_blank(text, i))
            ==> {
            let body = text.skip(n + 2);
            if body.len() == 0 {
                msg.len() == 0
            } else if body.last() == '\n' {
                msg == body
            } else {
                msg == body.push('\n')
            }
        }
}

/// The environment that gives a commit the author that was printed at `k`.
pub open spec fn author_at(t: Talk, k: int) -> Seq<(Seq<char>, Seq<char>)> {
    let lines = lines_of(without_line_feeds(said(t, k)));
    seq![
        ("GIT_AUTHOR_NAME"@, lines[0]),
        ("GIT_AUTHOR_EMAIL"@, lines[1]),
        ("GIT_AUTHOR_DATE"@, lines[2]),
    ]
}

/// From `k` on, `git` was asked for the tree of `commit` and for message and author
/// of `metadata`. The request at `k + 3` makes a commit with that tree, that author,
/// these parents and the log message `msg`.
pub open spec fn copies_at(
    t: Talk,
    k: int,
    commit: Seq<char>,
    metadata: Seq<char>,
    parents: Seq<Seq<char>>,
    msg: Seq<char>,
) -> bool {
    &&& did(t, k, tree_of(commit))
    &&& did(t, k + 1, text_of(metadata))
    &&& did(t, k + 2, author_of(metadata))
    &&& lines_of(without_line_feeds(said(t, k + 2))).len() >= 3
    &&& exists|args: Seq<Seq<char>>| #[trigger]
        asks(t, k + 3, args, Some(msg), Some(author_at(t, k + 2)), false) && is_commit_tree(
            args,
            trimmed(said(t, k)),
            parents,
        )
}

/// The commit that the command at `k` made is `result`.
pub open spec fn gave(t: Talk, k: int, result: Seq<char>) -> bool {
    ended(t, k, true) && result == without_line_feeds(said(t, k))
}

/// The request at `k + 3` makes a copy of `commit` with these parents, and with the
/// author and the message of `metadata`.
#[verifier::opaque]
pub open spec fn copying_at(
    t: Talk,
    k: int,
    commit: Seq<char>,
    metadata: Seq<char>,
    parents: Seq<Seq<char>>,
) -> bool {
    exists|msg: Seq<char>| #[trigger]
        copies_at(t, k, commit, metadata, parents, msg) && is_message(
            without_line_feeds(said(t, k + 1)),
            msg,
        )
}

pub(crate) proof fn lemma_message(text: Seq<char>)
    ensures
        is_message(text, message_in(text)),
    decreases text.len(),
{
    reveal_strlit("");
    lemma_first_blank(text);
    let m = until_blank(text) as int;
    assert forall|n: int|
        #[trigger] is_blank(text, n) && (forall|i: int| i < n ==> !#[trigger] is_blank(
            text,
            i,
        )) implies n == m by {
        if m < text.len() {
            assert(is_blank(text, m));
        }
    }
    if m < text.len() {
        assert(is_blank(text, m));
    }
}

proof fn lemma_first_blank(text: Seq<char>)
    ensures
        until_blank(text) <= text.len(),
        until_blank(text) < text.len() ==> is_blank(text, until_blank(text) as int),
        forall|i: int| i < until_blank(text) ==> !#[trigger] is_blank(text, i),
    decreases text.len(),
{
    if text.len() > 0 && !(text.len() >= 2 && text[0] == '\n' && text[1] == '\n') {
        let rest = text.skip(1);
        lemma_first_blank(rest);
        assert forall|i: int| i < until_blank(text) implies !#[trigger] is_blank(text, i) by {
            if i > 0 && is_blank(text, i) {
                assert(is_blank(rest, i - 1));
            }
        }
        if until_blank(text) < text.len() {
            assert(is_blank(rest, until_blank(rest) as int));
        }
    }
}

pub(crate) proof fn lemma_commit_tree(tree: Seq<char>, parents: Seq<Seq<char>>)
    ensures
        is_commit_tree(seq!["commit-tree"@, tree] + parent_args(parents), tree, parents),
    decreases parents.len(),
{
    let args = seq!["commit-tree"@, tree] + parent_args(parents);
    if parents.len() == 0 {
        assert(args =~= seq!["commit-tree"@, tree]);
        assert(args[0] == "commit-tree"@ && args[1] == tree);
    } else {
        let front = parents.drop_last();
        lemma_commit_tree(tree, front);
        let before = seq!["commit-tree"@, tree] + parent_args(front);
        assert(args =~= before.push("-p"@).push(parents.last()));
        assert(args[0] == before[0] && args[1] == before[1]);
        assert forall|i: int| 0 <= i < parents.len() implies #[trigger] names_parent(
            args,
            i,
            parents[i],
        ) by {
            if i < front.len() {
                assert(front[i] == parents[i]);
                assert(names_parent(before, i, front[i]));
            }
        }
    }
}

/// The commands here are told apart by how they begin.
pub(crate) proof fn lemma_commands_differ()
    ensures
        "rev-parse"@ != "commit-tree"@,
        "cat-file"@ != "commit-tree"@,
        "--no-pager"@ != "commit-tree"@,
        "symbolic-ref"@ != "commit-tree"@,
        "rev-list"@ != "commit-tree"@,
        "update-ref"@ != "commit-tree"@,
        "checkout"@ != "commit-tree"@,
        "reset"@ != "commit-tree"@,
        "commit"@ != "commit-tree"@,
{
    reveal_strlit("commit-tree");
    reveal_strlit("rev-parse");
    reveal_strlit("cat-file");
    reveal_strlit("--no-pager");
    reveal_strlit("symbolic-ref");
    reveal_strlit("rev-list");
    reveal_strlit("update-ref");
    reveal_strlit("checkout");
    reveal_strlit("reset");
    reveal_strlit("commit");
    assert("commit-tree"@[0] == 'c' && "commit-tree"@[1] == 'o' && "commit-tree"@.len() == 11);
    assert("rev-parse"@[0] == 'r' && "cat-file"@[1] == 'a' && "--no-pager"@[0] == '-');
    assert("symbolic-ref"@[0] == 's' && "rev-list"@[0] == 'r' && "update-ref"@[0] == 'u');
    assert("checkout"@[1] == 'h' && "reset"@[0] == 'r' && "commit"@.len() == 6);
}

// ---------------------------------------------------------------------
// Chains
// ---------------------------------------------------------------------

/// The commit is used as it is: it is its own metadata, and `git` says that it has
/// these parents.
pub open spec fn reused_at(
    t: Talk,
    k: int,
    commit: Seq<char>,
    metadata: Seq<char>,
    parents: Seq<Seq<char>>,
) -> bool {
    &&& commit == metadata
    &&& did(t, k, parents_of(commit))
    &&& words_of(without_line_feeds(said(t, k))) == parents
}

/// The commit is not what a new one would be.
pub open spec fn unlike_at(
    t: Talk,
    k: int,
    commit: Seq<char>,
    metadata: Seq<char>,
    parents: Seq<Seq<char>>,
) -> bool {
    commit != metadata || (did(t, k, parents_of(commit)) && words_of(
        without_line_feeds(said(t, k)),
    ) != parents)
}

/// Every commit that was asked for from `from` on is a copy of an entry of the path
/// from place `i` on.
pub open spec fn only_copies(
    t: Talk,
    from: int,
    path: Seq<(Seq<char>, Seq<char>)>,
    i: int,
) -> bool {
    forall|k: int|
        from <= k < t.asked.len() && #[trigger] makes_commit(t.asked[k]) ==> exists|
            j: int,
            parents: Seq<Seq<char>>,
        |
            i <= j < path.len() && from <= k - 3 && #[trigger] copying_at(
                t,
                k - 3,
                path[j].0,
                path[j].1,
                parents,
            )
}

/// What is asked for a copy, step by step.
proof fn lemma_remade_steps(
    g: Talk,
    commit: Seq<char>,
    metadata: Seq<char>,
    parents: Seq<Seq<char>>,
)
    ensures
        ({
            let (t, r) = g.remade(commit, metadata, parents);
            let k = g.asked.len() as int;
            &&& g.grows_to(t)
            &&& t.asked.len() <= k + 4
            &&& k < t.asked.len() ==> asks(t, k, tree_of(commit), None, None, false)
            &&& k + 1 < t.asked.len() ==> asks(t, k + 1, text_of(metadata), None, None, false)
            &&& k + 2 < t.asked.len() ==> asks(t, k + 2, author_of(metadata), None, None, false)
            &&& k + 3 < t.asked.len() ==> {
                &&& ended(t, k, true)
                &&& ended(t, k + 1, true)
                &&& ended(t, k + 2, true)
                &&& lines_of(without_line_feeds(said(t, k + 2))).len() >= 3
                &&& asks(
                    t,
                    k + 3,
                    seq!["commit-tree"@, trimmed(said(t, k))] + parent_args(parents),
                    Some(message_in(without_line_feeds(said(t, k + 1)))),
                    Some(author_at(t, k + 2)),
                    false,
                )
            }
            &&& r matches Ok(result) ==> t.asked.len() == k + 4 && gave(t, k + 3, result)
        }),
{
    broadcast use crate::talk::lemma_learns_nothing;

}

proof fn lemma_remade(
    g: Talk,
    commit: Seq<char>,
    metadata: Seq<char>,
    parents: Seq<Seq<char>>,
)
    ensures
        ({
            let (t, r) = g.remade(commit, metadata, parents);
            let k = g.asked.len() as int;
            &&& g.grows_to(t)
            &&& forall|j: int|
                k <= j < t.asked.len() && #[trigger] makes_commit(t.asked[j]) ==> j == k + 3
                    && copying_at(t, k, commit, metadata, parents)
            &&& r matches Ok(result) ==> copying_at(t, k, commit, metadata, parents) && gave(
                t,
                k + 3,
                result,
            )
        }),
{
    lemma_remade_steps(g, commit, metadata, parents);
    let (t, r) = g.remade(commit, metadata, parents);
    let k = g.asked.len() as int;
    lemma_made(t, k, commit, metadata, parents);
}

proof fn lemma_made(
    t: Talk,
    k: int,
    commit: Seq<char>,
    metadata: Seq<char>,
    parents: Seq<Seq<char>>,
)
    requires
        0 <= k <= t.asked.len() <= k + 4,
        k < t.asked.len() ==> asks(t, k, tree_of(commit), None, None, false),
        k + 1 < t.asked.len() ==> asks(t, k + 1, text_of(metadata), None, None, false),
        k + 2 < t.asked.len() ==> asks(t, k + 2, author_of(metadata), None, None, false),
        k + 3 < t.asked.len() ==> {
            &&& ended(t, k, true)
            &&& ended(t, k + 1, true)
            &&& ended(t, k + 2, true)
            &&& lines_of(without_line_feeds(said(t, k + 2))).len() >= 3
            &&& asks(
                t,
                k + 3,
                seq!["commit-tree"@, trimmed(said(t, k))] + parent_args(parents),
                Some(message_in(without_line_feeds(said(t, k + 1)))),
                Some(author_at(t, k + 2)),
                false,
            )
        },
    ensures
        k + 3 < t.asked.len() ==> copying_at(t, k, commit, metadata, parents),
        forall|j: int|
            k <= j < t.asked.len() && #[trigger] makes_commit(t.asked[j]) ==> j == k + 3,
{
    reveal(copying_at);
    lemma_commands_differ();
    if k + 3 < t.asked.len() {
        lemma_commit_tree(trimmed(said(t, k)), parents);
        let text = without_line_feeds(said(t, k + 1));
        lemma_message(text);
        assert(copies_at(t, k, commit, metadata, parents, message_in(text)));
    }
}

/// One link of a chain was made, or found to be there already.
#[verifier::opaque]
pub open spec fn is_link(
    t: Talk,
    from: int,
    commit: Seq<char>,
    metadata: Seq<char>,
    parents: Seq<Seq<char>>,
    result: Seq<char>,
    reused: bool,
) -> bool {
    if reused {
        result == commit && exists|k: int|
            from <= k && #[trigger] reused_at(t, k, commit, metadata, parents)
    } else {
        exists|k: int|
            from <= k && #[trigger] copying_at(t, k, commit, metadata, parents) && gave(
                t,
                k + 3,
                result,
            )
    }
}

proof fn lemma_link(
    g: Talk,
    commit: Seq<char>,
    metadata: Seq<char>,
    parents: Seq<Seq<char>>,
    reusing: bool,
)
    ensures
        ({
            let (t, r) = g.link(commit, metadata, parents, reusing);
            let from = g.asked.len() as int;
            &&& g.grows_to(t)
            &&& forall|j: int|
                from <= j < t.asked.len() && #[trigger] makes_commit(t.asked[j]) ==> from <= j - 3
                    && copying_at(t, j - 3, commit, metadata, parents)
            &&& r matches Ok((result, reused)) ==> {
                &&& is_link(t, from, commit, metadata, parents, result, reused)
                &&& reused ==> reusing
                &&& !reused ==> !reusing || unlike_at(t, from, commit, metadata, parents)
            }
        }),
{
    broadcast use crate::talk::lemma_grows, crate::talk::lemma_learns_nothing;

    reveal(is_link);
    lemma_commands_differ();
    let from = g.asked.len() as int;
    let (h, usable) = if reusing {
        g.usable(commit, metadata, parents)
    } else {
        (g, Ok(false))
    };
    assert(g.grows_to(h));
    let (t, r) = g.link(commit, metadata, parents, reusing);
    if usable == Ok::<bool, ErrorView>(true) {
        assert(reused_at(t, from, commit, metadata, parents));
    }
    if usable == Ok::<bool, ErrorView>(false) {
        lemma_remade(h, commit, metadata, parents);
        let k = h.asked.len() as int;
        assert forall|j: int|
            from <= j < t.asked.len() && #[trigger] makes_commit(t.asked[j]) implies from <= j - 3
            && copying_at(t, j - 3, commit, metadata, parents) by {
            if j < k {
                assert(t.asked[j] == h.asked[j]);
            }
        }
    }
}

pub(crate) proof fn lemma_copying_stays(
    g: Talk,
    t: Talk,
    k: int,
    commit: Seq<char>,
    metadata: Seq<char>,
    parents: Seq<Seq<char>>,
)
    requires
        g.grows_to(t),
        copying_at(g, k, commit, metadata, parents),
    ensures
        copying_at(t, k, commit, metadata, parents),
        said(t, k + 1) == said(g, k + 1),
{
    reveal(copying_at);
    let msg = choose|msg: Seq<char>| #[trigger]
        copies_at(g, k, commit, metadata, parents, msg) && is_message(
            without_line_feeds(said(g, k + 1)),
            msg,
        );
    lemma_copies_stays(g, t, k, commit, metadata, parents, msg);
}

pub(crate) proof fn lemma_copies_stays(
    g: Talk,
    t: Talk,
    k: int,
    commit: Seq<char>,
    metadata: Seq<char>,
    parents: Seq<Seq<char>>,
    msg: Seq<char>,
)
    requires
        g.grows_to(t),
        copies_at(g, k, commit, metadata, parents, msg),
    ensures
        copies_at(t, k, commit, metadata, parents, msg),
{
    let args = choose|args: Seq<Seq<char>>| #[trigger]
        asks(g, k + 3, args, Some(msg), Some(author_at(g, k + 2)), false) && is_commit_tree(
            args,
            trimmed(said(g, k)),
            parents,
        );
    assert(asks(t, k + 3, args, Some(msg), Some(author_at(t, k + 2)), false));
}

proof fn lemma_link_stays(
    g: Talk,
    t: Talk,
    from: int,
    earlier: int,
    commit: Seq<char>,
    metadata: Seq<char>,
    parents: Seq<Seq<char>>,
    result: Seq<char>,
    reused: bool,
)
    requires
        g.grows_to(t),
        earlier <= from,
        is_link(g, from, commit, metadata, parents, result, reused),
    ensures
        is_link(t, earlier, commit, metadata, parents, result, reused),
{
    reveal(is_link);
    if reused {
        let k = choose|k: int|
            from <= k && #[trigger] reused_at(g, k, commit, metadata, parents);
        assert(reused_at(t, k, commit, metadata, parents));
    } else {
        let k = choose|k: int|
            from <= k && #[trigger] copying_at(g, k, commit, metadata, parents) && gave(
                g,
                k + 3,
                result,
            );
        lemma_copying_stays(g, t, k, commit, metadata, parents);
        assert(gave(t, k + 3, result));
    }
}

/// What the link at place `i` stands on: the one before it, or the base.
pub open spec fn below(base: Seq<Seq<char>>, made: Seq<Seq<char>>, i: int) -> Seq<Seq<char>> {
    if i == 0 {
        base
    } else {
        seq![made[i - 1]]
    }
}

/// `made` are the commits of a chain along `path`. Each stands on the one before it.
/// The first `n` were there already; from there on each is a new commit with the tree
/// of the first commit of its entry and the author and message of the second.
pub open spec fn is_chain(
    t: Talk,
    from: int,
    base: Seq<Seq<char>>,
    path: Seq<(Seq<char>, Seq<char>)>,
    made: Seq<Seq<char>>,
    n: int,
) -> bool {
    &&& made.len() == path.len()
    &&& 0 <= n <= path.len()
    &&& forall|i: int|
        0 <= i < path.len() ==> is_link(
            t,
            from,
            path[i].0,
            path[i].1,
            below(base, made, i),
            #[trigger] made[i],
            i < n,
        )
    &&& n < path.len() ==> exists|k: int| #[trigger]
        unlike_at(t, k, path[n].0, path[n].1, below(base, made, n))
}

/// What is known of a chain once it is made.
spec fn is_extended(
    t: Talk,
    from: int,
    parents: Seq<Seq<char>>,
    rest: Seq<(Seq<char>, Seq<char>)>,
    reusing: bool,
    made: Seq<Seq<char>>,
    n: int,
    last: Seq<Seq<char>>,
) -> bool {
    &&& if reusing {
        is_chain(t, from, parents, rest, made, n)
    } else {
        n == 0 && is_new_chain(t, from, parents, rest, made)
    }
    &&& last == below(parents, made, rest.len() as int)
}

proof fn lemma_only_copies(
    h: Talk,
    t: Talk,
    from: int,
    path: Seq<(Seq<char>, Seq<char>)>,
    i: int,
    parents: Seq<Seq<char>>,
)
    requires
        h.grows_to(t),
        0 <= from <= h.asked.len(),
        0 <= i < path.len(),
        forall|j: int|
            from <= j < h.asked.len() && #[trigger] makes_commit(h.asked[j]) ==> from <= j - 3
                && copying_at(h, j - 3, path[i].0, path[i].1, parents),
        only_copies(t, h.asked.len() as int, path, i + 1),
    ensures
        only_copies(t, from, path, i),
{
    assert forall|k: int|
        from <= k < t.asked.len() && #[trigger] makes_commit(t.asked[k]) implies exists|
        j: int,
        p: Seq<Seq<char>>,
    |
        i <= j < path.len() && from <= k - 3 && #[trigger] copying_at(
            t,
            k - 3,
            path[j].0,
            path[j].1,
            p,
        ) by {
        if k < h.asked.len() {
            assert(t.asked[k] == h.asked[k]);
            lemma_copying_stays(h, t, k - 3, path[i].0, path[i].1, parents);
        } else {
            let (j, p) = choose|j: int, p: Seq<Seq<char>>|
                i + 1 <= j < path.len() && h.asked.len() <= k - 3 && #[trigger] copying_at(
                    t,
                    k - 3,
                    path[j].0,
                    path[j].1,
                    p,
                );
            assert(copying_at(t, k - 3, path[j].0, path[j].1, p));
        }
    }
}

proof fn lemma_chain_step(
    h: Talk,
    t: Talk,
    from: int,
    rest: Seq<(Seq<char>, Seq<char>)>,
    parents: Seq<Seq<char>>,
    reusing: bool,
    sha1: Seq<char>,
    reused: bool,
    made: Seq<Seq<char>>,
    n: int,
    last: Seq<Seq<char>>,
)
    requires
        h.grows_to(t),
        0 <= from <= h.asked.len(),
        rest.len() > 0,
        is_link(h, from, rest[0].0, rest[0].1, parents, sha1, reused),
        reused ==> reusing,
        !reused ==> !reusing || unlike_at(h, from, rest[0].0, rest[0].1, parents),
        is_extended(t, h.asked.len() as int, seq![sha1], rest.skip(1), reused, made, n, last),
    ensures
        is_extended(
            t,
            from,
            parents,
            rest,
            reusing,
            seq![sha1] + made,
            if reused {
                n + 1
            } else {
                0
            },
            last,
        ),
{
    broadcast use crate::talk::lemma_learns_nothing;

    let all = seq![sha1] + made;
    let m = if reused {
        n + 1
    } else {
        0
    };
    let tail = rest.skip(1);
    lemma_link_stays(h, t, from, from, rest[0].0, rest[0].1, parents, sha1, reused);
    assert forall|j: int| 0 <= j < rest.len() implies is_link(
        t,
        from,
        rest[j].0,
        rest[j].1,
        below(parents, all, j),
        #[trigger] all[j],
        j < m,
    ) by {
        if j > 0 {
            assert(all[j] == made[j - 1]);
            assert(rest[j] == tail[j - 1]);
            assert(below(parents, all, j) == below(seq![sha1], made, j - 1));
            lemma_link_stays(
                t,
                t,
                h.asked.len() as int,
                from,
                tail[j - 1].0,
                tail[j - 1].1,
                below(seq![sha1], made, j - 1),
                made[j - 1],
                j < m,
            );
        }
    }
    if m < rest.len() {
        if reused {
            assert(rest[m] == tail[n]);
            assert(below(parents, all, m) == below(seq![sha1], made, n));
            let k = choose|k: int| #[trigger]
                unlike_at(t, k, tail[n].0, tail[n].1, below(seq![sha1], made, n));
            assert(unlike_at(t, k, rest[m].0, rest[m].1, below(parents, all, m)));
        } else if reusing {
            assert(unlike_at(t, from, rest[0].0, rest[0].1, below(parents, all, 0)));
        }
    }
    if made.len() > 0 {
        assert(all[all.len() - 1] == made[made.len() - 1]);
    }
}

proof fn lemma_extend(
    g: Talk,
    path: Seq<(Seq<char>, Seq<char>)>,
    i: nat,
    parents: Seq<Seq<char>>,
    reusing: bool,
) -> (r: (Seq<Seq<char>>, int))
    requires
        i <= path.len(),
    ensures
        g.grows_to(g.extend_chain(path, i, parents, reusing).0),
        only_copies(
            g.extend_chain(path, i, parents, reusing).0,
            g.asked.len() as int,
            path,
            i as int,
        ),
        g.extend_chain(path, i, parents, reusing) matches (t, Ok(last)) ==> is_extended(
            t,
            g.asked.len() as int,
            parents,
            path.skip(i as int),
            reusing,
            r.0,
            r.1,
            last,
        ),
    decreases path.len() - i,
{
    broadcast use crate::talk::lemma_grows, crate::talk::lemma_learns_nothing;

    let from = g.asked.len() as int;
    let rest = path.skip(i as int);
    if i >= path.len() {
        (Seq::empty(), 0)
    } else {
        let (commit, metadata) = path[i as int];
        lemma_link(g, commit, metadata, parents, reusing);
        let (h, linked) = g.link(commit, metadata, parents, reusing);
        if let Ok((sha1, reused)) = linked {
            let (made, n) = lemma_extend(h, path, i + 1, seq![sha1], reused);
            let (t, end) = h.extend_chain(path, i + 1, seq![sha1], reused);
            assert(g.extend_chain(path, i, parents, reusing) == (t, end));
            lemma_only_copies(h, t, from, path, i as int, parents);
            if let Ok(last) = end {
                assert(rest.skip(1) =~= path.skip(i as int + 1));
                lemma_chain_step(
                    h,
                    t,
                    from,
                    rest,
                    parents,
                    reusing,
                    sha1,
                    reused,
                    made,
                    n,
                    last,
                );
            }
            (
                seq![sha1] + made,
                if reused {
                    n + 1
                } else {
                    0
                },
            )
        } else {
            let t = g.extend_chain(path, i, parents, reusing).0;
            assert(t == h);
            assert forall|k: int|
                from <= k < t.asked.len() && #[trigger] makes_commit(t.asked[k]) implies exists|
                j: int,
                p: Seq<Seq<char>>,
            |
                i <= j < path.len() && from <= k - 3 && #[trigger] copying_at(
                    t,
                    k - 3,
                    path[j].0,
                    path[j].1,
                    p,
                ) by {
                assert(copying_at(t, k - 3, path[i as int].0, path[i as int].1, parents));
            }
            (Seq::empty(), 0)
        }
    }
}

/// Like [`is_chain`], with nothing that was there already.
pub open spec fn is_new_chain(
    t: Talk,
    from: int,
    base: Seq<Seq<char>>,
    path: Seq<(Seq<char>, Seq<char>)>,
    made: Seq<Seq<char>>,
) -> bool {
    &&& made.len() == path.len()
    &&& forall|i: int|
        0 <= i < path.len() ==> is_link(
            t,
            from,
            path[i].0,
            path[i].1,
            below(base, made, i),
            #[trigger] made[i],
            false,
        )
}

/// A chain of commits on a base has one commit for each entry of its path, each on
/// the one before it. A new commit has the tree of the first commit of its entry, and
/// author and message of the second. Commits are used as they are only at the start
/// of the chain, as long as they are what new ones would be. Whatever comes of it, no
/// other commit is made.
pub proof fn law_chain_copies_its_path(
    g: Talk,
    base: Seq<char>,
    path: Seq<(Seq<char>, Seq<char>)>,
) -> (r: (Seq<Seq<char>>, int))
    ensures
        ({
            let (t, end) = g.create_commit_chain(Some(base), path);
            let from = g.asked.len() as int;
            &&& g.grows_to(t)
            &&& only_copies(t, from, path, 0)
            &&& end matches Ok(last) ==> is_chain(t, from, seq![base], path, r.0, r.1) && last
                == below(seq![base], r.0, path.len() as int)[0]
        }),
{
    assert(path.skip(0) =~= path);
    lemma_extend(g, path, 0, seq![base], true)
}

/// What an exchange shows of a chain, a later one shows, too.
pub(crate) proof fn lemma_chain_stays(
    g: Talk,
    t: Talk,
    from: int,
    earlier: int,
    base: Seq<Seq<char>>,
    path: Seq<(Seq<char>, Seq<char>)>,
    made: Seq<Seq<char>>,
    n: int,
)
    requires
        g.grows_to(t),
        earlier <= from,
        is_chain(g, from, base, path, made, n),
    ensures
        is_chain(t, earlier, base, path, made, n),
{
    assert forall|i: int| 0 <= i < path.len() implies is_link(
        t,
        earlier,
        path[i].0,
        path[i].1,
        below(base, made, i),
        #[trigger] made[i],
        i < n,
    ) by {
        lemma_link_stays(
            g,
            t,
            from,
            earlier,
            path[i].0,
            path[i].1,
            below(base, made, i),
            made[i],
            i < n,
        );
    }
    if n < path.len() {
        let k = choose|k: int| #[trigger]
            unlike_at(g, k, path[n].0, path[n].1, below(base, made, n));
        assert(unlike_at(t, k, path[n].0, path[n].1, below(base, made, n)));
    }
}

} // verus!
