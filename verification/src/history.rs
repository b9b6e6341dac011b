//! Commits: reading them, walking along them and making new ones.
use vstd::prelude::*;

use crate::error::{failure, res, ErrorView, ImergeError};
use crate::git::{command_failed, count, count_in, quiet_request, Git};
use crate::talk::{
    latest, lemma_grows, lemma_learns_nothing, CommitMetadata, EMPTY_TREE_SHA1, OutputView,
    ReplyView, RequestView, Talk, Told,
};
use crate::text::{
    after_char, after_prefix, before_char, begins, cat2, cat3, cat4, copied_option, debug_form,
    join, lemma_split, lemma_until, lines, lines_of, list2, list3, list4, list5, quoted, same,
    same_list, split_at_blank, split_at_char, trim, until_blank, with, without_line_feeds, words,
    words_of,
};

verus! {

broadcast use lemma_grows, lemma_learns_nothing;

/// The place of the value that was entered last for `key`.
pub(crate) fn latest_place<V: DeepView>(entries: &Vec<(String, V)>, key: &str) -> (r: Option<usize>)
    ensures
        match r {
            Some(i) => i < entries.len() && latest(entries.deep_view(), key@) == Some(
                entries[i as int].1.deep_view(),
            ),
            None => latest(entries.deep_view(), key@) is None,
        },
{
    let mut i: usize = entries.len();
    let ghost all = entries.deep_view();
    assert(all.take(i as int) =~= all);
    while i > 0
        invariant
            i <= entries.len(),
            all == entries.deep_view(),
            latest(all, key@) == latest(all.take(i as int), key@),
        decreases i,
    {
        assert(all[i - 1] == entries[i - 1].deep_view());
        assert(all.take(i as int).drop_last() =~= all.take(i - 1));
        i -= 1;
        if same(&entries[i].0, key) {
            return Some(i);
        }
    }
    None
}

/// Commits and their parents, from lines that hold a commit and its parents.
pub open spec fn history_of(list: Seq<Seq<char>>) -> Seq<(Seq<char>, Seq<Seq<char>>)>
    decreases list.len(),
{
    if list.len() == 0 {
        Seq::empty()
    } else {
        let w = words_of(list.last());
        if w.len() == 0 {
            history_of(list.drop_last())
        } else {
            history_of(list.drop_last()).push((w[0], w.skip(1)))
        }
    }
}

/// The log message in the text of a commit: what stands after the first blank
/// line, with a line feed at its end.
pub open spec fn message_in(text: Seq<char>) -> Seq<char> {
    let n = until_blank(text);
    let body = text.skip(n as int + 2);
    if n >= text.len() || body.len() == 0 {
        ""@
    } else if body.last() == '\n' {
        body
    } else {
        body.push('\n')
    }
}

/// The environment that gives a commit an author.
pub open spec fn author_env(name: Seq<char>, email: Seq<char>, date: Seq<char>) -> Seq<
    (Seq<char>, Seq<char>),
> {
    seq![
        ("GIT_AUTHOR_NAME"@, name),
        ("GIT_AUTHOR_EMAIL"@, email),
        ("GIT_AUTHOR_DATE"@, date),
    ]
}

/// The parents that are among the entries.
pub open spec fn included(
    entries: Seq<(Seq<char>, Seq<Seq<char>>)>,
    parents: Seq<Seq<char>>,
) -> Seq<Seq<char>>
    decreases parents.len(),
{
    if parents.len() == 0 {
        Seq::empty()
    } else if latest(entries, parents.last()) is Some {
        included(entries, parents.drop_last()).push(parents.last())
    } else {
        included(entries, parents.drop_last())
    }
}

/// The parents of `commit` that are among the entries.
pub open spec fn parents_in(
    entries: Seq<(Seq<char>, Seq<Seq<char>>)>,
    commit: Seq<char>,
) -> Seq<Seq<char>> {
    match latest(entries, commit) {
        Some(parents) => included(entries, parents),
        None => Seq::empty(),
    }
}

/// Why no linear chain leads from one commit to another.
pub enum Gap {
    /// No parent leads on.
    DeadEnd,
    /// More than one parent leads on.
    Fork,
    /// The parents lead back to where they came from.
    Cycle,
}

/// The commits from `start` (without it) to `commit` (with it), oldest first, in
/// at most `steps` steps. Where several parents lead on, the first one is
/// followed or none at all.
pub open spec fn chain(
    entries: Seq<(Seq<char>, Seq<Seq<char>>)>,
    start: Seq<char>,
    commit: Seq<char>,
    first_parent: bool,
    steps: nat,
) -> Result<Seq<Seq<char>>, Gap>
    decreases steps,
{
    let next = parents_in(entries, commit);
    if commit == start {
        Ok(Seq::empty())
    } else if steps == 0 {
        Err(Gap::Cycle)
    } else if next.len() == 0 {
        Err(Gap::DeadEnd)
    } else if next.len() > 1 && !first_parent {
        Err(Gap::Fork)
    } else {
        match chain(entries, start, next[0], first_parent, (steps - 1) as nat) {
            Ok(older) => Ok(older.push(commit)),
            Err(e) => Err(e),
        }
    }
}

/// The error for a range without a linear chain of commits.
pub open spec fn gap_error(gap: Gap, commit1: Seq<char>, commit2: Seq<char>) -> ErrorView {
    match gap {
        Gap::DeadEnd => ErrorView::NotFirstParentAncestor(
            commit1 + " is not an ancestor of "@ + commit2,
        ),
        Gap::Fork => ErrorView::NonlinearAncestry(
            commit1 + ".."@ + commit2
                + " has non-linear ancestry (it contains a merge); git-imerge needs a single linear chain of commits"@,
        ),
        Gap::Cycle => ErrorView::Failure(commit1 + ".."@ + commit2 + " has no beginning"@),
    }
}

/// One commit of a chain comes after another: the older one is the only parent
/// that leads on, or the first.
pub open spec fn follows(
    entries: Seq<(Seq<char>, Seq<Seq<char>>)>,
    older: Seq<char>,
    newer: Seq<char>,
    first_parent: bool,
) -> bool {
    let next = parents_in(entries, newer);
    next.len() > 0 && next[0] == older && (first_parent || next.len() == 1)
}

/// The chain from `start` to `commit` is linear: each of its commits follows the
/// one before it, the first one follows `start`, and the last one is `commit`. It
/// is empty only if `start` is `commit`.
pub proof fn law_chain_is_linear(
    entries: Seq<(Seq<char>, Seq<Seq<char>>)>,
    start: Seq<char>,
    commit: Seq<char>,
    first_parent: bool,
    steps: nat,
)
    ensures
        chain(entries, start, commit, first_parent, steps) matches Ok(list) ==> {
            &&& list.len() == 0 <==> start == commit
            &&& list.len() > 0 ==> list.last() == commit
            &&& list.len() > 0 ==> follows(entries, start, list[0], first_parent)
            &&& forall|i: int|
                0 < i < list.len() ==> follows(
                    entries,
                    list[i - 1],
                    #[trigger] list[i],
                    first_parent,
                )
            &&& !list.contains(start)
        },
    decreases steps,
{
    let next = parents_in(entries, commit);
    if commit != start && steps > 0 && next.len() > 0 && (next.len() == 1 || first_parent) {
        law_chain_is_linear(entries, start, next[0], first_parent, (steps - 1) as nat);
        if let Ok(older) = chain(entries, start, next[0], first_parent, (steps - 1) as nat) {
            let list = older.push(commit);
            assert forall|i: int| 0 < i < list.len() implies follows(
                entries,
                list[i - 1],
                #[trigger] list[i],
                first_parent,
            ) by {
                if i < older.len() {
                    assert(older[i] == list[i]);
                }
            }
            assert(!list.contains(start)) by {
                if list.contains(start) {
                    let k = choose|k: int| 0 <= k < list.len() && list[k] == start;
                    if k < older.len() {
                        assert(older[k] == start);
                    }
                }
            }
        }
    }
}

/// Lines that give a commit these parents.
pub open spec fn parent_lines(parents: Seq<Seq<char>>) -> Seq<char>
    decreases parents.len(),
{
    if parents.len() == 0 {
        ""@
    } else {
        parent_lines(parents.drop_last()) + "parent "@ + parents.last() + "\n"@
    }
}

/// A header line of a commit that gets these parents.
pub open spec fn header_with(line: Seq<char>, parents: Seq<Seq<char>>) -> Seq<char> {
    if begins(line, "tree "@) {
        line + "\n"@ + parent_lines(parents)
    } else if begins(line, "parent "@) {
        ""@
    } else {
        line + "\n"@
    }
}

/// The header of a commit that gets these parents.
pub open spec fn headers_with(header: Seq<char>, parents: Seq<Seq<char>>) -> Seq<char>
    decreases header.len(),
{
    header_with(before_char(header, '\n'), parents) + match after_char(header, '\n') {
        Some(rest) => headers_with(rest, parents),
        None => ""@,
    }
}

/// A log message with a line feed at its end.
pub open spec fn ended(msg: Seq<char>) -> Seq<char> {
    if msg.len() > 0 && msg.last() == '\n' {
        msg
    } else {
        msg + "\n"@
    }
}

/// The text of a commit, given these parents and perhaps another message.
/// Without a blank line it is no commit.
pub open spec fn reparented(
    text: Seq<char>,
    parents: Seq<Seq<char>>,
    msg: Option<Seq<char>>,
) -> Option<Seq<char>> {
    let n = until_blank(text);
    if n >= text.len() {
        None
    } else {
        Some(
            headers_with(text.take(n as int), parents) + "\n"@ + match msg {
                Some(m) => ended(m),
                None => text.skip(n as int + 2),
            },
        )
    }
}

/// The arguments by which a new commit gets these parents.
pub open spec fn parent_args(parents: Seq<Seq<char>>) -> Seq<Seq<char>>
    decreases parents.len(),
{
    if parents.len() == 0 {
        Seq::empty()
    } else {
        parent_args(parents.drop_last()).push("-p"@).push(parents.last())
    }
}

impl Talk {
    /// See [`Git::rev_list_with_parents`].
    pub open spec fn rev_list_with_parents(self, args: Seq<Seq<char>>) -> Told<
        Seq<(Seq<char>, Seq<Seq<char>>)>,
    > {
        match self.run(seq!["log"@, "--format=%H %P"@] + args) {
            (g, Err(e)) => (g, Err(e)),
            (g, Ok(out)) => (g, Ok(history_of(lines_of(out)))),
        }
    }

    /// See [`Git::get_author_info`].
    pub open spec fn get_author_info(self, commit: Seq<char>) -> Told<
        Seq<(Seq<char>, Seq<char>)>,
    > {
        match self.run(seq!["--no-pager"@, "log"@, "-n1"@, "--format=%an%n%ae%n%ai"@, commit]) {
            (g, Err(e)) => (g, Err(e)),
            (g, Ok(out)) => {
                let l = lines_of(out);
                if l.len() < 3 {
                    (
                        g,
                        Err(ErrorView::Failure("could not read author info for "@ + commit)),
                    )
                } else {
                    (g, Ok(author_env(l[0], l[1], l[2])))
                }
            },
        }
    }

    /// See [`Git::get_log_message`].
    pub open spec fn get_log_message(self, commit: Seq<char>) -> Told<Seq<char>> {
        match self.run(seq!["cat-file"@, "commit"@, commit]) {
            (g, Err(e)) => (g, Err(e)),
            (g, Ok(out)) => (g, Ok(message_in(out))),
        }
    }

    /// The exchange with one more patch id known.
    pub open spec fn remember(self, commit: Seq<char>, id: Option<Seq<char>>) -> Talk {
        Talk { patch_ids: self.patch_ids.push((commit, id)), ..self }
    }

    /// The patch id of the change from `base` to `commit`.
    pub open spec fn change_id(self, base: Seq<char>, commit: Seq<char>) -> Told<
        Option<Seq<char>>,
    > {
        match self.output(seq!["diff"@, base, commit]) {
            (g, Err(e)) => (g, Err(e)),
            (g, Ok(o)) => if !o.success {
                (g, Err(command_failed(seq!["diff"@, base, commit], o.stderr)))
            } else {
                match g.run_stdin(seq!["patch-id"@, "--stable"@], o.stdout) {
                    (g, Err(e)) => (g, Err(e)),
                    (g, Ok(out)) => (
                        g,
                        Ok(
                            if words_of(out).len() > 0 {
                                Some(words_of(out)[0])
                            } else {
                                None
                            },
                        ),
                    ),
                }
            },
        }
    }

    /// See [`Git::patch_id`].
    pub open spec fn patch_id(self, commit: Seq<char>) -> Told<Option<Seq<char>>> {
        match latest(self.patch_ids, commit) {
            Some(id) => (self, Ok(id)),
            None => match self.get_commit_parents(commit) {
                (g, Err(e)) => (g, Err(e)),
                (g, Ok(parents)) => if parents.len() > 1 {
                    (g.remember(commit, None), Ok(None))
                } else {
                    let base = if parents.len() == 1 {
                        parents[0]
                    } else {
                        EMPTY_TREE_SHA1@
                    };
                    match g.change_id(base, commit) {
                        (g, Err(e)) => (g, Err(e)),
                        (g, Ok(id)) => (g.remember(commit, id), Ok(id)),
                    }
                },
            },
        }
    }

    /// The best of the merge bases from place `i` on and of `best`: the first one
    /// that the fewest commits without merges lead from to `tip1`.
    pub open spec fn best_base(
        self,
        bases: Seq<Seq<char>>,
        i: nat,
        tip1: Seq<char>,
        best: Option<(Seq<char>, u64)>,
    ) -> Told<Option<(Seq<char>, u64)>>
        decreases bases.len() - i,
    {
        if i >= bases.len() {
            (self, Ok(best))
        } else {
            let base = bases[i as int];
            match self.run(
                seq!["rev-list"@, "--no-merges"@, "--count"@, base + ".."@ + tip1],
            ) {
                (g, Err(e)) => (g, Err(e)),
                (g, Ok(out)) => if best is None || count_in(out) < (best->0).1 {
                    g.best_base(bases, i + 1, tip1, Some((base, count_in(out))))
                } else {
                    g.best_base(bases, i + 1, tip1, best)
                },
            }
        }
    }

    /// See [`Git::compute_best_merge_base`].
    pub open spec fn compute_best_merge_base(self, tip1: Seq<char>, tip2: Seq<char>) -> Told<
        Seq<char>,
    > {
        match self.output(seq!["merge-base"@, "--all"@, tip1, tip2]) {
            (g, Err(e)) => (g, Err(e)),
            (g, Ok(o)) => {
                let bases = lines_of(o.stdout);
                if !o.success {
                    (
                        g,
                        Err(
                            ErrorView::Failure(
                                "Cannot compute merge base for "@ + debug_form(tip1) + " and "@
                                    + debug_form(tip2),
                            ),
                        ),
                    )
                } else if bases.len() == 0 {
                    (
                        g,
                        Err(
                            ErrorView::Failure(
                                debug_form(tip1) + " and "@ + debug_form(tip2)
                                    + " do not have a common merge base"@,
                            ),
                        ),
                    )
                } else if bases.len() == 1 {
                    (g, Ok(bases[0]))
                } else {
                    match g.best_base(bases, 0, tip1, None) {
                        (g, Err(e)) => (g, Err(e)),
                        (g, Ok(best)) => (g, Ok((best->0).0)),
                    }
                }
            },
        }
    }

    /// See [`Git::linear_ancestry`].
    pub open spec fn linear_ancestry(
        self,
        commit1: Seq<char>,
        commit2: Seq<char>,
        first_parent: bool,
    ) -> Told<Seq<Seq<char>>> {
        match self.rev_parse_required(commit1) {
            (g, Err(e)) => (g, Err(e)),
            (g, Ok(oid1)) => match g.rev_parse_required(commit2) {
                (g, Err(e)) => (g, Err(e)),
                (g, Ok(oid2)) => match g.rev_list_with_parents(
                    seq!["--ancestry-path"@, "--topo-order"@, oid1 + ".."@ + oid2],
                ) {
                    (g, Err(e)) => (g, Err(e)),
                    (g, Ok(list)) => {
                        let entries = seq![(oid1, Seq::<Seq<char>>::empty())] + list;
                        match chain(entries, oid1, oid2, first_parent, entries.len()) {
                            Ok(commits) => (g, Ok(commits)),
                            Err(gap) => (g, Err(gap_error(gap, commit1, commit2))),
                        }
                    },
                },
            },
        }
    }

    /// See [`Git::get_boundaries`].
    pub open spec fn get_boundaries(
        self,
        tip1: Seq<char>,
        tip2: Seq<char>,
        first_parent: bool,
    ) -> Told<(Seq<char>, Seq<Seq<char>>, Seq<Seq<char>>)> {
        match self.compute_best_merge_base(tip1, tip2) {
            (g, Err(e)) => (g, Err(e)),
            (g, Ok(base)) => match g.linear_ancestry(base, tip1, first_parent) {
                (g, Err(e)) => (g, Err(e)),
                (g, Ok(commits1)) => if commits1.len() == 0 {
                    (g, Err(ErrorView::NothingToDo))
                } else {
                    match g.linear_ancestry(base, tip2, first_parent) {
                        (g, Err(e)) => (g, Err(e)),
                        (g, Ok(commits2)) => if commits2.len() == 0 {
                            (g, Err(ErrorView::NothingToDo))
                        } else {
                            (g, Ok((base, commits1, commits2)))
                        },
                    }
                },
            },
        }
    }

    /// See [`Git::commit_tree`].
    pub open spec fn commit_tree(
        self,
        tree: Seq<char>,
        parents: Seq<Seq<char>>,
        msg: Seq<char>,
        metadata: Option<Seq<(Seq<char>, Seq<char>)>>,
    ) -> Told<Seq<char>> {
        self.run_stdin_env(seq!["commit-tree"@, tree] + parent_args(parents), msg, metadata)
    }

    /// A commit with the tree of `commit`, message and author of `metadata`, and
    /// these parents.
    pub open spec fn remade(
        self,
        commit: Seq<char>,
        metadata: Seq<char>,
        parents: Seq<Seq<char>>,
    ) -> Told<Seq<char>> {
        match self.get_tree(commit) {
            (g, Err(e)) => (g, Err(e)),
            (g, Ok(tree)) => match g.get_log_message(metadata) {
                (g, Err(e)) => (g, Err(e)),
                (g, Ok(msg)) => match g.get_author_info(metadata) {
                    (g, Err(e)) => (g, Err(e)),
                    (g, Ok(author)) => g.commit_tree(tree, parents, msg, Some(author)),
                },
            },
        }
    }

    /// Whether `commit` is already what a new commit would be.
    pub open spec fn usable(
        self,
        commit: Seq<char>,
        metadata: Seq<char>,
        parents: Seq<Seq<char>>,
    ) -> Told<bool> {
        if commit != metadata {
            (self, Ok(false))
        } else {
            match self.get_commit_parents(commit) {
                (g, Err(e)) => (g, Err(e)),
                (g, Ok(found)) => (g, Ok(found == parents)),
            }
        }
    }

    /// The next commit of a chain, and whether it was there already.
    pub open spec fn link(
        self,
        commit: Seq<char>,
        metadata: Seq<char>,
        parents: Seq<Seq<char>>,
        reusing: bool,
    ) -> Told<(Seq<char>, bool)> {
        let (g, reuse) = if reusing {
            self.usable(commit, metadata, parents)
        } else {
            (self, Ok(false))
        };
        match reuse {
            Err(e) => (g, Err(e)),
            Ok(true) => (g, Ok((commit, true))),
            Ok(false) => match g.remade(commit, metadata, parents) {
                (g, Err(e)) => (g, Err(e)),
                (g, Ok(sha1)) => (g, Ok((sha1, false))),
            },
        }
    }

    /// The rest of a commit chain, from place `i` of the path on. As long as the
    /// commits are what new ones would be they are used as they are.
    pub open spec fn extend_chain(
        self,
        path: Seq<(Seq<char>, Seq<char>)>,
        i: nat,
        parents: Seq<Seq<char>>,
        reusing: bool,
    ) -> Told<Seq<Seq<char>>>
        decreases path.len() - i,
    {
        if i >= path.len() {
            (self, Ok(parents))
        } else {
            let (commit, metadata) = path[i as int];
            match self.link(commit, metadata, parents, reusing) {
                (g, Err(e)) => (g, Err(e)),
                (g, Ok((sha1, reused))) => g.extend_chain(path, i + 1, seq![sha1], reused),
            }
        }
    }

    /// See [`Git::create_commit_chain`].
    pub open spec fn create_commit_chain(
        self,
        base: Option<Seq<char>>,
        path: Seq<(Seq<char>, Seq<char>)>,
    ) -> Told<Seq<char>> {
        if base is None && path.len() == 0 {
            (self, Err(ErrorView::Failure("neither base nor path specified"@)))
        } else {
            let parents = match base {
                Some(b) => seq![b],
                None => seq![],
            };
            match self.extend_chain(path, 0, parents, true) {
                (g, Err(e)) => (g, Err(e)),
                (g, Ok(p)) => (g, Ok(p[0])),
            }
        }
    }

    /// See [`Git::reparent`].
    pub open spec fn reparent(
        self,
        commit: Seq<char>,
        parents: Seq<Seq<char>>,
        msg: Option<Seq<char>>,
    ) -> Told<Seq<char>> {
        match self.output(seq!["cat-file"@, "commit"@, commit]) {
            (g, Err(e)) => (g, Err(e)),
            (g, Ok(o)) => if !o.success {
                (g, Err(command_failed(seq!["cat-file"@, "commit"@, commit], o.stderr)))
            } else {
                match reparented(o.stdout, parents, msg) {
                    None => (
                        g,
                        Err(ErrorView::Failure("could not parse commit object "@ + commit)),
                    ),
                    Some(text) => match g.run_stdin(
                        seq!["hash-object"@, "-t"@, "commit"@, "-w"@, "--stdin"@],
                        text,
                    ) {
                        (g, Err(ErrorView::Suspended)) => (g, Err(ErrorView::Suspended)),
                        (g, Err(_)) => (
                            g,
                            Err(ErrorView::Failure("Could not reparent commit "@ + commit)),
                        ),
                        (g, Ok(sha1)) => (g, Ok(sha1)),
                    },
                }
            },
        }
    }
}

impl Git {
    /// The commits that `git log` lists for `args`, each with its parents.
    pub fn rev_list_with_parents(&mut self, args: Vec<String>) -> (r: Result<
        Vec<(String, Vec<String>)>,
        ImergeError,
    >)
        ensures
            (final(self)@, res(r)) == old(self)@.rev_list_with_parents(args.deep_view()),
            old(self)@.grows_to(final(self)@),
    {
        let out = self.run(crate::text::chained(list2("log", "--format=%H %P"), args))?;
        let list = lines(&out);
        let ghost all = list.deep_view();
        let mut r: Vec<(String, Vec<String>)> = Vec::new();
        let mut i: usize = 0;
        assert(r.deep_view() =~= history_of(all.take(0)));
        while i < list.len()
            invariant
                i <= list.len(),
                all == list.deep_view(),
                r.deep_view() == history_of(all.take(i as int)),
            decreases list.len() - i,
        {
            let ghost before = r.deep_view();
            assert(all[i as int] == list[i as int]@);
            assert(all.take(i + 1).drop_last() =~= all.take(i as int));
            let mut w = words(&list[i]);
            let ghost line = w.deep_view();
            i += 1;
            if w.len() > 0 {
                assert(line[0] == w@[0]@);
                let commit = w.remove(0);
                assert(w.deep_view() =~= line.skip(1));
                r.push((commit, w));
                assert(r.deep_view() =~= before.push((line[0], line.skip(1))));
            }
        }
        assert(all.take(i as int) =~= all);
        Ok(r)
    }

    /// The author of `commit`, as environment variables for a new commit.
    pub fn get_author_info(&mut self, commit: &str) -> (r: Result<CommitMetadata, ImergeError>)
        ensures
            (final(self)@, res(r)) == old(self)@.get_author_info(commit@),
            old(self)@.grows_to(final(self)@),
    {
        let out = self.run(
            list5("--no-pager", "log", "-n1", "--format=%an%n%ae%n%ai", commit),
        )?;
        let l = lines(&out);
        let ghost all = l.deep_view();
        if l.len() < 3 {
            return failure(&cat2("could not read author info for ", commit));
        }
        assert(all[0] == l[0]@ && all[1] == l[1]@ && all[2] == l[2]@);
        let mut m: CommitMetadata = Vec::new();
        m.push(("GIT_AUTHOR_NAME".to_owned(), l[0].clone()));
        m.push(("GIT_AUTHOR_EMAIL".to_owned(), l[1].clone()));
        m.push(("GIT_AUTHOR_DATE".to_owned(), l[2].clone()));
        assert(m.deep_view() =~= author_env(all[0], all[1], all[2]));
        Ok(m)
    }

    /// The log message of `commit`.
    pub fn get_log_message(&mut self, commit: &str) -> (r: Result<String, ImergeError>)
        ensures
            (final(self)@, res(r)) == old(self)@.get_log_message(commit@),
            old(self)@.grows_to(final(self)@),
    {
        let out = self.run(list3("cat-file", "commit", commit))?;
        match split_at_blank(&out) {
            Some((_, body)) => {
                if body.unicode_len() == 0 {
                    Ok("".to_owned())
                } else if ends_with_line_feed(&body) {
                    Ok(body)
                } else {
                    let mut body = body;
                    body.push('\n');
                    Ok(body)
                }
            },
            None => Ok("".to_owned()),
        }
    }

    /// The id of the change that an ordinary commit makes: the same for two
    /// commits that make the same change. A commit with several parents has none.
    pub fn patch_id(&mut self, commit: &str) -> (r: Result<Option<String>, ImergeError>)
        ensures
            (final(self)@, res(r)) == old(self)@.patch_id(commit@),
            old(self)@.grows_to(final(self)@),
    {
        if let Some(i) = latest_place(&self.patch_ids, commit) {
            return Ok(copied_option(&self.patch_ids[i].1));
        }
        let parents = self.get_commit_parents(commit)?;
        let ghost p = parents.deep_view();
        let id = if parents.len() > 1 {
            None
        } else {
            let base = if parents.len() == 1 {
                assert(p[0] == parents@[0]@);
                parents[0].clone()
            } else {
                EMPTY_TREE_SHA1.to_owned()
            };
            self.change_id(&base, commit)?
        };
        let ghost before = self@;
        self.patch_ids.push((commit.to_owned(), copied_option(&id)));
        assert(self@.patch_ids =~= before.remember(commit@, id.deep_view()).patch_ids);
        proof {
            lemma_id_learned(old(self)@, before, commit@, id.deep_view());
        }
        Ok(id)
    }

    fn change_id(&mut self, base: &str, commit: &str) -> (r: Result<Option<String>, ImergeError>)
        ensures
            (final(self)@, res(r)) == old(self)@.change_id(base@, commit@),
            old(self)@.grows_to(final(self)@),
    {
        let args = list3("diff", base, commit);
        let shown = join(&args, " ");
        let out = self.output(args)?;
        if !out.success {
            return failure(&cat4("'git ", &shown, "' failed: ", &trim(&out.stderr)));
        }
        let id = self.run_stdin(list2("patch-id", "--stable"), &out.stdout)?;
        let w = words(&id);
        let ghost all = w.deep_view();
        if w.len() > 0 {
            assert(all[0] == w@[0]@);
            Ok(Some(w[0].clone()))
        } else {
            Ok(None)
        }
    }

    /// The merge base of the two tips; of several, the one nearest to `tip1`.
    pub fn compute_best_merge_base(&mut self, tip1: &str, tip2: &str) -> (r: Result<
        String,
        ImergeError,
    >)
        ensures
            (final(self)@, res(r)) == old(self)@.compute_best_merge_base(tip1@, tip2@),
            old(self)@.grows_to(final(self)@),
    {
        let out = self.output(list4("merge-base", "--all", tip1, tip2))?;
        if !out.success {
            return failure(
                &cat4("Cannot compute merge base for ", &quoted(tip1), " and ", &quoted(tip2)),
            );
        }
        let bases = lines(&out.stdout);
        let ghost all = bases.deep_view();
        if bases.len() == 0 {
            return failure(
                &cat4(&quoted(tip1), " and ", &quoted(tip2), " do not have a common merge base"),
            );
        }
        assert(all[0] == bases@[0]@);
        if bases.len() == 1 {
            return Ok(bases[0].clone());
        }
        let mut best: usize = 0;
        let mut least: u64 = 0;
        let mut i: usize = 0;
        let ghost start = self@;
        while i < bases.len()
            invariant
                i <= bases.len(),
                best < bases.len(),
                all == bases.deep_view(),
                old(self)@.grows_to(self@),
                old(self)@.compute_best_merge_base(tip1@, tip2@) == match start.best_base(
                    all,
                    0,
                    tip1@,
                    None,
                ) {
                    (g, Err(e)) => (g, Err(e)),
                    (g, Ok(best)) => (g, Ok((best->0).0)),
                },
                start.best_base(all, 0, tip1@, None) == self@.best_base(
                    all,
                    i as nat,
                    tip1@,
                    if i == 0 {
                        None
                    } else {
                        Some((all[best as int], least))
                    },
                ),
            decreases bases.len() - i,
        {
            assert(all[i as int] == bases[i as int]@);
            let range = cat3(&bases[i], "..", tip1);
            match self.run(list4("rev-list", "--no-merges", "--count", &range)) {
                Err(e) => {
                    return Err(e);
                },
                Ok(out) => {
                    let n: u64 = count(&out);
                    if i == 0 || n < least {
                        best = i;
                        least = n;
                    }
                },
            }
            i += 1;
        }
        assert(all[best as int] == bases[best as int]@);
        Ok(bases[best].clone())
    }

    /// The commits from `commit1` (without it) to `commit2` (with it), oldest
    /// first, where they form a single chain. With `first_parent`, only first
    /// parents count where there is a choice.
    pub fn linear_ancestry(&mut self, commit1: &str, commit2: &str, first_parent: bool) -> (r:
        Result<Vec<String>, ImergeError>)
        ensures
            (final(self)@, res(r)) == old(self)@.linear_ancestry(commit1@, commit2@, first_parent),
            old(self)@.grows_to(final(self)@),
    {
        let oid1 = self.rev_parse_required(commit1)?;
        let oid2 = self.rev_parse_required(commit2)?;
        let range = cat3(&oid1, "..", &oid2);
        let list = self.rev_list_with_parents(
            list3("--ancestry-path", "--topo-order", &range),
        )?;
        let none: Vec<String> = Vec::new();
        let mut entries: Vec<(String, Vec<String>)> = Vec::new();
        assert(none.deep_view() =~= Seq::<Seq<char>>::empty());
        entries.push((oid1.clone(), none));
        let ghost found = list.deep_view();
        let mut list = list;
        entries.append(&mut list);
        let ghost e = entries.deep_view();
        assert(e =~= seq![(oid1@, Seq::<Seq<char>>::empty())] + found);
        let mut newest_first: Vec<String> = Vec::new();
        let mut commit = oid2.clone();
        let mut left: usize = entries.len();
        let ghost whole = chain(e, oid1@, oid2@, first_parent, e.len());
        proof {
            if let Ok(v) = whole {
                assert(v =~= v + newest_first.deep_view().reverse());
            }
        }
        while !same(&commit, &oid1)
            invariant
                e == entries.deep_view(),
                whole == chain(e, oid1@, oid2@, first_parent, e.len()),
                whole == match chain(e, oid1@, commit@, first_parent, left as nat) {
                    Ok(v) => Ok(v + newest_first.deep_view().reverse()),
                    Err(gap) => Err(gap),
                },
                old(self)@.linear_ancestry(commit1@, commit2@, first_parent) == match whole {
                    Ok(v) => (self@, Ok::<Seq<Seq<char>>, ErrorView>(v)),
                    Err(gap) => (self@, Err(gap_error(gap, commit1@, commit2@))),
                },
                old(self)@.grows_to(self@),
            decreases left,
        {
            let next = next_commits(&entries, &commit);
            if left == 0 {
                return failure(&cat4(commit1, "..", commit2, " has no beginning"));
            }
            if next.len() == 0 {
                return Err(
                    ImergeError::NotFirstParentAncestor(
                        cat3(commit1, " is not an ancestor of ", commit2),
                    ),
                );
            }
            if next.len() > 1 && !first_parent {
                return Err(
                    ImergeError::NonlinearAncestry(
                        cat4(
                            commit1,
                            "..",
                            commit2,
                            " has non-linear ancestry (it contains a merge); git-imerge needs a single linear chain of commits",
                        ),
                    ),
                );
            }
            proof {
                let older = chain(
                    e,
                    oid1@,
                    next.deep_view()[0],
                    first_parent,
                    (left - 1) as nat,
                );
                if let Ok(v) = older {
                    assert(v.push(commit@) + newest_first.deep_view().reverse() =~= v
                        + newest_first.deep_view().push(commit@).reverse());
                }
            }
            let ghost before = newest_first.deep_view();
            assert(next.deep_view()[0] == next@[0]@);
            newest_first.push(commit);
            assert(newest_first.deep_view() =~= before.push(commit@));
            commit = next[0].clone();
            left -= 1;
        }
        assert(Seq::<Seq<char>>::empty() + newest_first.deep_view().reverse()
            =~= newest_first.deep_view().reverse());
        Ok(reversed(&newest_first))
    }

    /// The merge base of the two tips, and the commits from there to each of them.
    pub fn get_boundaries(&mut self, tip1: &str, tip2: &str, first_parent: bool) -> (r: Result<
        (String, Vec<String>, Vec<String>),
        ImergeError,
    >)
        ensures
            (final(self)@, res(r)) == old(self)@.get_boundaries(tip1@, tip2@, first_parent),
            old(self)@.grows_to(final(self)@),
    {
        let base = self.compute_best_merge_base(tip1, tip2)?;
        let commits1 = self.linear_ancestry(&base, tip1, first_parent)?;
        if commits1.len() == 0 {
            return Err(ImergeError::NothingToDo);
        }
        let commits2 = self.linear_ancestry(&base, tip2, first_parent)?;
        if commits2.len() == 0 {
            return Err(ImergeError::NothingToDo);
        }
        Ok((base, commits1, commits2))
    }

    /// Makes a commit of a tree.
    pub fn commit_tree(
        &mut self,
        tree: &str,
        parents: &Vec<String>,
        msg: &str,
        metadata: Option<CommitMetadata>,
    ) -> (r: Result<String, ImergeError>)
        ensures
            (final(self)@, res(r)) == old(self)@.commit_tree(
                tree@,
                parents.deep_view(),
                msg@,
                metadata.deep_view(),
            ),
            old(self)@.grows_to(final(self)@),
    {
        let mut args = list2("commit-tree", tree);
        let ghost head = args.deep_view();
        let ghost all = parents.deep_view();
        let mut i: usize = 0;
        assert(args.deep_view() =~= head + parent_args(all.take(0)));
        while i < parents.len()
            invariant
                i <= parents.len(),
                all == parents.deep_view(),
                args.deep_view() == head + parent_args(all.take(i as int)),
            decreases parents.len() - i,
        {
            assert(all[i as int] == parents[i as int]@);
            assert(all.take(i + 1).drop_last() =~= all.take(i as int));
            args = with(with(args, "-p"), &parents[i]);
            i += 1;
            assert(args.deep_view() =~= head + parent_args(all.take(i as int)));
        }
        assert(all.take(i as int) =~= all);
        self.run_stdin_env(args, msg, metadata)
    }

    fn remade(&mut self, commit: &str, metadata: &str, parents: &Vec<String>) -> (r: Result<
        String,
        ImergeError,
    >)
        ensures
            (final(self)@, res(r)) == old(self)@.remade(commit@, metadata@, parents.deep_view()),
            old(self)@.grows_to(final(self)@),
    {
        let tree = self.get_tree(commit)?;
        let msg = self.get_log_message(metadata)?;
        let author = self.get_author_info(metadata)?;
        self.commit_tree(&tree, parents, &msg, Some(author))
    }

    fn usable(&mut self, commit: &str, metadata: &str, parents: &Vec<String>) -> (r: Result<
        bool,
        ImergeError,
    >)
        ensures
            (final(self)@, res(r)) == old(self)@.usable(commit@, metadata@, parents.deep_view()),
            old(self)@.grows_to(final(self)@),
    {
        if !same(commit, metadata) {
            return Ok(false);
        }
        let found = self.get_commit_parents(commit)?;
        Ok(same_list(&found, parents))
    }

    fn link(&mut self, commit: &str, metadata: &str, parents: &Vec<String>, reusing: bool) -> (r:
        Result<(String, bool), ImergeError>)
        ensures
            (final(self)@, res(r)) == old(self)@.link(
                commit@,
                metadata@,
                parents.deep_view(),
                reusing,
            ),
            old(self)@.grows_to(final(self)@),
    {
        if reusing && self.usable(commit, metadata, parents)? {
            return Ok((commit.to_owned(), true));
        }
        Ok((self.remade(commit, metadata, parents)?, false))
    }

    /// Builds a linear chain of commits on `base`. Each entry of the path gives a
    /// commit for the tree and a commit for message and author. Commits at the
    /// beginning that are already right are used as they are.
    pub fn create_commit_chain(&mut self, base: Option<&str>, path: &Vec<(String, String)>) -> (r:
        Result<String, ImergeError>)
        ensures
            (final(self)@, res(r)) == old(self)@.create_commit_chain(
                base.deep_view(),
                path.deep_view(),
            ),
            old(self)@.grows_to(final(self)@),
    {
        let ghost all = path.deep_view();
        let mut reusing = true;
        let mut parents: Vec<String> = Vec::new();
        match base {
            Some(base) => {
                parents.push(base.to_owned());
                assert(parents.deep_view() =~= seq![base@]);
            },
            None => {
                if path.len() == 0 {
                    return failure("neither base nor path specified");
                }
                assert(parents.deep_view() =~= seq![]);
            },
        }
        let ghost start = parents.deep_view();
        let mut i: usize = 0;
        while i < path.len()
            invariant
                i <= path.len(),
                i > 0 || base is Some ==> parents.len() == 1,
                all == path.deep_view(),
                old(self)@.create_commit_chain(base.deep_view(), all) == match old(
                    self,
                )@.extend_chain(all, 0, start, true) {
                    (g, Err(e)) => (g, Err(e)),
                    (g, Ok(p)) => (g, Ok(p[0])),
                },
                old(self)@.extend_chain(all, 0, start, true) == self@.extend_chain(
                    all,
                    i as nat,
                    parents.deep_view(),
                    reusing,
                ),
                old(self)@.grows_to(self@),
            decreases path.len() - i,
        {
            assert(all[i as int] == path[i as int].deep_view());
            let (next, reused) = self.link(&path[i].0, &path[i].1, &parents, reusing)?;
            reusing = reused;
            parents = Vec::new();
            parents.push(next);
            assert(parents.deep_view() =~= seq![next@]);
            i += 1;
        }
        let ghost done = parents.deep_view();
        assert(done[0] == parents@[0]@);
        Ok(parents[0].clone())
    }

    /// Makes a commit like `commit`, but with these parents and, if one is given,
    /// another log message. No ref points to it yet.
    pub fn reparent(&mut self, commit: &str, parent_sha1s: &Vec<String>, msg: Option<&str>) -> (r:
        Result<String, ImergeError>)
        ensures
            (final(self)@, res(r)) == old(self)@.reparent(
                commit@,
                parent_sha1s.deep_view(),
                msg.deep_view(),
            ),
            old(self)@.grows_to(final(self)@),
    {
        let args = list3("cat-file", "commit", commit);
        let shown = join(&args, " ");
        let out = self.output(args)?;
        if !out.success {
            return failure(&cat4("'git ", &shown, "' failed: ", &trim(&out.stderr)));
        }
        let text = match reparented_text(&out.stdout, parent_sha1s, msg) {
            Some(text) => text,
            None => {
                return failure(&cat2("could not parse commit object ", commit));
            },
        };
        match self.run_stdin(list5("hash-object", "-t", "commit", "-w", "--stdin"), &text) {
            Ok(sha1) => Ok(sha1),
            Err(ImergeError::Suspended) => Err(ImergeError::Suspended),
            Err(_) => failure(&cat2("Could not reparent commit ", commit)),
        }
    }
}

/// Whether `s` ends with a line feed.
fn ends_with_line_feed(s: &str) -> (r: bool)
    ensures
        r == (s@.len() > 0 && s@.last() == '\n'),
{
    let n: usize = s.unicode_len();
    n > 0 && s.get_char(n - 1) == '\n'
}

/// A list in reverse order.
fn reversed(list: &Vec<String>) -> (r: Vec<String>)
    ensures
        r.deep_view() == list.deep_view().reverse(),
{
    let mut r: Vec<String> = Vec::new();
    let mut i: usize = list.len();
    let ghost all = list.deep_view();
    while i > 0
        invariant
            i <= list.len(),
            all == list.deep_view(),
            r.len() == list.len() - i,
            forall|k: int| 0 <= k < r.len() ==> #[trigger] r@[k]@ == all[all.len() - 1 - k],
        decreases i,
    {
        i -= 1;
        assert(all[i as int] == list[i as int]@);
        r.push(list[i].clone());
    }
    assert(r.deep_view() =~= all.reverse());
    r
}

/// The parents of `commit` that are among the entries.
fn next_commits(entries: &Vec<(String, Vec<String>)>, commit: &str) -> (r: Vec<String>)
    ensures
        r.deep_view() == parents_in(entries.deep_view(), commit@),
{
    let ghost e = entries.deep_view();
    let mut r: Vec<String> = Vec::new();
    assert(r.deep_view() =~= Seq::<Seq<char>>::empty());
    match latest_place(entries, commit) {
        None => r,
        Some(k) => {
            let parents = &entries[k].1;
            let ghost all = parents.deep_view();
            let mut i: usize = 0;
            while i < parents.len()
                invariant
                    i <= parents.len(),
                    all == parents.deep_view(),
                    e == entries.deep_view(),
                    r.deep_view() == included(e, all.take(i as int)),
                decreases parents.len() - i,
            {
                assert(all[i as int] == parents[i as int]@);
                assert(all.take(i + 1).drop_last() =~= all.take(i as int));
                if latest_place(entries, &parents[i]).is_some() {
                    r = with(r, &parents[i]);
                }
                i += 1;
            }
            assert(all.take(i as int) =~= all);
            r
        },
    }
}

/// Lines that give a commit these parents.
fn lines_for_parents(parents: &Vec<String>) -> (r: String)
    ensures
        r@ == parent_lines(parents.deep_view()),
{
    let ghost all = parents.deep_view();
    let mut r = "".to_owned();
    let mut i: usize = 0;
    while i < parents.len()
        invariant
            i <= parents.len(),
            all == parents.deep_view(),
            r@ == parent_lines(all.take(i as int)),
        decreases parents.len() - i,
    {
        assert(all[i as int] == parents[i as int]@);
        assert(all.take(i + 1).drop_last() =~= all.take(i as int));
        r = cat4(&r, "parent ", &parents[i], "\n");
        i += 1;
    }
    assert(all.take(i as int) =~= all);
    r
}

/// Gives the text of a commit other parents, and perhaps another log message.
fn reparented_text(text: &str, parents: &Vec<String>, msg: Option<&str>) -> (r: Option<String>)
    ensures
        r.deep_view() == reparented(text@, parents.deep_view(), msg.deep_view()),
{
    let (header, body) = match split_at_blank(text) {
        Some(parts) => parts,
        None => {
            return None;
        },
    };
    let ghost p = parents.deep_view();
    let ghost whole = headers_with(header@, p);
    let added = lines_for_parents(parents);
    let mut r = "".to_owned();
    let mut rest = Some(header);
    proof {
        reveal_strlit("");
    }
    assert(r@ + whole =~= whole);
    while rest.is_some()
        invariant
            added@ == parent_lines(p),
            whole == r@ + match rest {
                Some(h) => headers_with(h@, p),
                None => ""@,
            },
        decreases (match rest {
            Some(h) => h@.len() + 1,
            None => 0,
        }),
    {
        let h = match rest {
            Some(h) => h,
            None => "".to_owned(),
        };
        let (line, more) = split_at_char(&h, '\n');
        let ghost before = r@;
        let kept = if after_prefix(&line, "tree ").is_some() {
            cat3(&line, "\n", &added)
        } else if after_prefix(&line, "parent ").is_some() {
            "".to_owned()
        } else {
            cat2(&line, "\n")
        };
        r = cat2(&r, &kept);
        rest = more;
        proof {
            let tail = match after_char(h@, '\n') {
                Some(t) => headers_with(t, p),
                None => ""@,
            };
            assert(kept@ == header_with(before_char(h@, '\n'), p));
            assert(before + (kept@ + tail) =~= r@ + tail);
        }
    }
    assert(whole =~= r@);
    match msg {
        Some(m) => if ends_with_line_feed(m) {
            Some(cat3(&r, "\n", m))
        } else {
            let e = cat2(m, "\n");
            Some(cat3(&r, "\n", &e))
        },
        None => Some(cat3(&r, "\n", &body)),
    }
}

// ---------------------------------------------------------------------
// Patch ids
// ---------------------------------------------------------------------

proof fn lemma_latest_pushed<V>(
    entries: Seq<(Seq<char>, V)>,
    key: Seq<char>,
    value: V,
    other: Seq<char>,
)
    ensures
        latest(entries.push((key, value)), other) == if other == key {
            Some(value)
        } else {
            latest(entries, other)
        },
{
    assert(entries.push((key, value)).drop_last() =~= entries);
}

/// An exchange that has asked for a patch id has grown.
pub(crate) proof fn lemma_id_learned(
    g: Talk,
    before: Talk,
    commit: Seq<char>,
    id: Option<Seq<char>>,
)
    requires
        g.grows_to(before),
        latest(g.patch_ids, commit) is None,
        g.patch_id(commit) == (
            before.remember(commit, id),
            Ok::<Option<Seq<char>>, ErrorView>(id),
        ),
    ensures
        g.grows_to(before.remember(commit, id)),
{
    reveal(Talk::learns);
    let later = before.remember(commit, id);
    assert forall|other: Seq<char>| #[trigger] g.learns_id(later, other) by {
        assert(g.learns_id(before, other));
        lemma_latest_pushed(before.patch_ids, commit, id, other);
        if other == commit {
            assert(later.finds_id_at(g.asked.len() as int, commit, id));
        } else if let Some(found) = latest(before.patch_ids, other) {
            if latest(g.patch_ids, other) is None {
                let k = choose|k: int| #[trigger] before.finds_id_at(k, other, found);
                assert(later.finds_id_at(k, other, found));
            }
        }
    }
}

/// What the patch id of a commit is that was not asked for before. A commit with
/// several parents has none. For any other it is the first word that
/// `git patch-id --stable` prints for the difference to its parent, or to the empty
/// tree if it has no parent; there is none if nothing is printed. It is known from
/// there on.
pub proof fn law_patch_id_of_a_new_commit(g: Talk, commit: Seq<char>)
    requires
        latest(g.patch_ids, commit) is None,
    ensures
        g.get_commit_parents(commit) matches (h, Ok(parents)) ==> {
            let base = if parents.len() == 0 {
                EMPTY_TREE_SHA1@
            } else {
                parents[0]
            };
            let (k, diff) = h.output(seq!["diff"@, base, commit]);
            &&& parents.len() > 1 ==> g.patch_id(commit) == (
                h.remember(commit, None),
                Ok::<Option<Seq<char>>, ErrorView>(None),
            )
            &&& parents.len() <= 1 ==> (diff matches Ok(o) ==> o.success ==> (k.run_stdin(
                seq!["patch-id"@, "--stable"@],
                o.stdout,
            ) matches (l, Ok(out)) ==> {
                let id = if words_of(out).len() == 0 {
                    None
                } else {
                    Some(words_of(out)[0])
                };
                g.patch_id(commit) == (
                    l.remember(commit, id),
                    Ok::<Option<Seq<char>>, ErrorView>(id),
                )
            }))
        },
        g.patch_id(commit) matches (later, Ok(id)) ==> latest(later.patch_ids, commit) == Some(id),
{
    if let (later, Ok(id)) = g.patch_id(commit) {
        assert(later.patch_ids.last() == (commit, id));
    }
}

/// Asking for the patch id of one commit changes nothing that is known of another.
pub proof fn law_other_patch_ids_stay(g: Talk, commit: Seq<char>, other: Seq<char>)
    requires
        other != commit,
    ensures
        latest(g.patch_id(commit).0.patch_ids, other) == latest(g.patch_ids, other),
{
    if latest(g.patch_ids, commit) is None {
        let (later, r) = g.patch_id(commit);
        if let Ok(id) = r {
            lemma_latest_pushed(g.patch_ids, commit, id, other);
        }
    }
}

/// A patch id that was known once is known in every later exchange, whatever was
/// done on the way: asking for it again gives the same and makes no request.
pub proof fn law_known_patch_id_stays_known(g: Talk, later: Talk, commit: Seq<char>)
    requires
        g.grows_to(later),
    ensures
        latest(g.patch_ids, commit) matches Some(id) ==> later.patch_id(commit) == (
            later,
            Ok::<Option<Seq<char>>, ErrorView>(id),
        ),
{
    reveal(Talk::learns);
    assert(g.learns_id(later, commit));
}

/// After the patch id of a commit was asked for successfully, every later call gives
/// the same and makes no request.
pub proof fn law_patch_id_is_remembered(g: Talk, commit: Seq<char>, later: Talk)
    requires
        g.patch_id(commit).0.grows_to(later),
    ensures
        g.patch_id(commit).1 matches Ok(id) ==> later.patch_id(commit) == (
            later,
            Ok::<Option<Seq<char>>, ErrorView>(id),
        ),
{
    let (after, r) = g.patch_id(commit);
    if let Ok(id) = r {
        if latest(g.patch_ids, commit) is None {
            law_patch_id_of_a_new_commit(g, commit);
        }
        law_known_patch_id_stays_known(after, later, commit);
    }
}

/// Every patch id comes from `git`: in an exchange that began without any, the patch
/// id of a commit is what some requests of that exchange found.
pub proof fn law_patch_ids_come_from_git(start: Talk, g: Talk, commit: Seq<char>)
    requires
        start.patch_ids.len() == 0,
        start.grows_to(g),
    ensures
        g.patch_id(commit) matches (later, Ok(id)) ==> later.finds_id(commit, id),
{
    reveal(Talk::learns);
    if let (later, Ok(id)) = g.patch_id(commit) {
        assert(start.learns_id(g, commit));
        if latest(g.patch_ids, commit) is None {
            assert(later.finds_id_at(g.asked.len() as int, commit, id));
        }
    }
}

// ---------------------------------------------------------------------
// What reparenting changes
// ---------------------------------------------------------------------

/// Lines, each with its line feed.
pub open spec fn line_text(list: Seq<Seq<char>>) -> Seq<char>
    decreases list.len(),
{
    if list.len() == 0 {
        Seq::empty()
    } else {
        list[0].push('\n') + line_text(list.skip(1))
    }
}

/// A header line of a commit: not empty, and without a line feed.
pub open spec fn is_line(line: Seq<char>) -> bool {
    line.len() > 0 && !line.contains('\n')
}

/// A header line that says neither the tree nor a parent.
pub open spec fn is_other_line(line: Seq<char>) -> bool {
    is_line(line) && !begins(line, "tree "@) && !begins(line, "parent "@)
}

/// The header lines of a commit: its tree, its parents, and others.
pub open spec fn commit_header(
    tree: Seq<char>,
    parents: Seq<Seq<char>>,
    others: Seq<Seq<char>>,
) -> Seq<Seq<char>> {
    seq!["tree "@ + tree] + Seq::new(parents.len(), |k: int| "parent "@ + parents[k]) + others
}

/// The text of a commit.
pub open spec fn commit_text(
    tree: Seq<char>,
    parents: Seq<Seq<char>>,
    others: Seq<Seq<char>>,
    body: Seq<char>,
) -> Seq<char> {
    line_text(commit_header(tree, parents, others)).push('\n') + body
}

/// The parts of a commit's header: no line feed in the tree or in a parent, and no
/// other line that is empty or says a tree or a parent.
pub open spec fn is_commit(
    tree: Seq<char>,
    parents: Seq<Seq<char>>,
    others: Seq<Seq<char>>,
) -> bool {
    &&& !tree.contains('\n')
    &&& forall|k: int| 0 <= k < parents.len() ==> !(#[trigger] parents[k]).contains('\n')
    &&& forall|k: int| 0 <= k < others.len() ==> is_other_line(#[trigger] others[k])
}

/// The log message of a reparented commit: the one that is given, with a line feed
/// at its end, or that of the commit.
pub open spec fn new_body(body: Seq<char>, msg: Option<Seq<char>>) -> Seq<char> {
    match msg {
        Some(m) => ended(m),
        None => body,
    }
}

/// Header lines as they are written for a commit that gets these parents.
spec fn rewritten(list: Seq<Seq<char>>, parents: Seq<Seq<char>>) -> Seq<char>
    decreases list.len(),
{
    if list.len() == 0 {
        Seq::empty()
    } else {
        header_with(list[0], parents) + rewritten(list.skip(1), parents)
    }
}

/// The blank line after a line is found where it is.
proof fn lemma_blank_after(line: Seq<char>, rest: Seq<char>)
    requires
        !line.contains('\n'),
    ensures
        rest.len() > 0 && rest[0] == '\n' ==> until_blank(line.push('\n') + rest) == line.len(),
        rest.len() > 0 && rest[0] != '\n' ==> until_blank(line.push('\n') + rest) == line.len() + 1
            + until_blank(rest),
    decreases line.len(),
{
    let text = line.push('\n') + rest;
    if line.len() > 0 {
        assert(line.contains(line[0]));
        let tail = line.skip(1);
        assert(!tail.contains('\n')) by {
            if tail.contains('\n') {
                let k = choose|k: int| 0 <= k < tail.len() && tail[k] == '\n';
                assert(line[k + 1] == '\n');
            }
        }
        lemma_blank_after(tail, rest);
        assert(text.skip(1) =~= tail.push('\n') + rest);
    } else if rest.len() > 0 && rest[0] != '\n' {
        assert(text.skip(1) =~= rest);
        assert(text[0] == '\n' && text[1] == rest[0]);
    } else if rest.len() > 0 {
        assert(text[0] == '\n' && text[1] == '\n');
    }
}

proof fn lemma_header_ends(list: Seq<Seq<char>>, body: Seq<char>)
    requires
        list.len() > 0,
        forall|k: int| 0 <= k < list.len() ==> is_line(#[trigger] list[k]),
    ensures
        line_text(list).len() > 0,
        line_text(list)[0] != '\n',
        until_blank(line_text(list).push('\n') + body) == line_text(list).len() - 1,
    decreases list.len(),
{
    let rest = list.skip(1);
    let tail = line_text(rest).push('\n') + body;
    let text = line_text(list).push('\n') + body;
    assert(is_line(list[0]));
    assert(list[0].contains(list[0][0]));
    assert(text =~= list[0].push('\n') + tail);
    lemma_blank_after(list[0], tail);
    if rest.len() > 0 {
        assert forall|k: int| 0 <= k < rest.len() implies is_line(#[trigger] rest[k]) by {
            assert(is_line(list[k + 1]));
        }
        lemma_header_ends(rest, body);
        assert(tail[0] == line_text(rest)[0]);
    } else {
        assert(line_text(rest) =~= Seq::empty());
        assert(tail[0] == '\n');
    }
}

proof fn lemma_headers_rewritten(list: Seq<Seq<char>>, parents: Seq<Seq<char>>)
    requires
        list.len() > 0,
        forall|k: int| 0 <= k < list.len() ==> is_line(#[trigger] list[k]),
    ensures
        headers_with(line_text(list).drop_last(), parents) == rewritten(list, parents),
    decreases list.len(),
{
    let rest = list.skip(1);
    let header = line_text(list).drop_last();
    reveal_strlit("");
    assert(is_line(list[0]));
    if rest.len() > 0 {
        assert forall|k: int| 0 <= k < rest.len() implies is_line(#[trigger] rest[k]) by {
            assert(is_line(list[k + 1]));
        }
        lemma_headers_rewritten(rest, parents);
        lemma_header_ends(rest, Seq::empty());
        assert(header =~= list[0].push('\n') + line_text(rest).drop_last());
        lemma_split(list[0], '\n', line_text(rest).drop_last());
    } else {
        assert(line_text(rest) =~= Seq::empty());
        assert(header =~= list[0]);
        assert forall|i: int| 0 <= i < header.len() implies header[i] != '\n' by {
            assert(list[0].contains(list[0][i]));
        }
        lemma_until(header, '\n', header.len());
        assert(header.take(header.len() as int) =~= header);
        assert(rewritten(rest, parents) =~= Seq::empty());
        assert(headers_with(header, parents) =~= header_with(list[0], parents));
        assert(rewritten(list, parents) =~= header_with(list[0], parents));
    }
}

proof fn lemma_others_stay(list: Seq<Seq<char>>, parents: Seq<Seq<char>>)
    requires
        forall|k: int| 0 <= k < list.len() ==> is_other_line(#[trigger] list[k]),
    ensures
        rewritten(list, parents) == line_text(list),
    decreases list.len(),
{
    if list.len() > 0 {
        let rest = list.skip(1);
        assert forall|k: int| 0 <= k < rest.len() implies is_other_line(#[trigger] rest[k]) by {
            assert(is_other_line(list[k + 1]));
        }
        lemma_others_stay(rest, parents);
        assert(is_other_line(list[0]));
        reveal_strlit("\n");
        assert(header_with(list[0], parents) =~= list[0].push('\n'));
    }
}

proof fn lemma_parents_go(
    present: Seq<Seq<char>>,
    others: Seq<Seq<char>>,
    parents: Seq<Seq<char>>,
)
    ensures
        rewritten(
            Seq::new(present.len(), |k: int| "parent "@ + present[k]) + others,
            parents,
        ) == rewritten(others, parents),
    decreases present.len(),
{
    let lines_before = Seq::new(present.len(), |k: int| "parent "@ + present[k]);
    let list = lines_before + others;
    if present.len() == 0 {
        assert(list =~= others);
    } else {
        let rest = present.skip(1);
        lemma_parents_go(rest, others, parents);
        assert(list.skip(1) =~= Seq::new(rest.len(), |k: int| "parent "@ + rest[k]) + others);
        let line = "parent "@ + present[0];
        assert(list[0] == line);
        reveal_strlit("parent ");
        reveal_strlit("tree ");
        reveal_strlit("");
        assert(line.take(7) =~= "parent "@);
        assert(!begins(line, "tree "@)) by {
            if begins(line, "tree "@) {
                assert(line.take(5)[0] == 'p');
                assert("tree "@[0] == 't');
            }
        }
        assert(header_with(line, parents) =~= Seq::empty());
        assert(rewritten(list, parents) =~= rewritten(list.skip(1), parents));
    }
}

proof fn lemma_parent_lines(parents: Seq<Seq<char>>, others: Seq<Seq<char>>)
    ensures
        parent_lines(parents) + line_text(others) == line_text(
            Seq::new(parents.len(), |k: int| "parent "@ + parents[k]) + others,
        ),
    decreases parents.len(),
{
    reveal_strlit("");
    reveal_strlit("\n");
    let list = Seq::new(parents.len(), |k: int| "parent "@ + parents[k]);
    if parents.len() == 0 {
        assert(list + others =~= others);
        assert(parent_lines(parents) + line_text(others) =~= line_text(others));
    } else {
        let front = parents.drop_last();
        let line = "parent "@ + parents.last();
        let more = seq![line] + others;
        lemma_parent_lines(front, more);
        assert(Seq::new(front.len(), |k: int| "parent "@ + front[k]) + more =~= list + others);
        assert(more.skip(1) =~= others);
        assert(line_text(more) =~= line.push('\n') + line_text(others));
        assert(parent_lines(parents) + line_text(others) =~= parent_lines(front) + line_text(more));
    }
}

/// Reparenting changes the parents of a commit and, if a message is given, its log
/// message, and nothing else: tree, author and all other header lines stay as they
/// are. A message that is given gets a line feed at its end unless it has one. With
/// its own parents and no message a commit comes out as it was.
pub proof fn law_reparent_changes_only_parents(
    tree: Seq<char>,
    present: Seq<Seq<char>>,
    others: Seq<Seq<char>>,
    body: Seq<char>,
    parents: Seq<Seq<char>>,
    msg: Option<Seq<char>>,
)
    requires
        is_commit(tree, present, others),
    ensures
        reparented(commit_text(tree, present, others, body), parents, msg) == Some(
            commit_text(tree, parents, others, new_body(body, msg)),
        ),
{
    let list = commit_header(tree, present, others);
    let text = commit_text(tree, present, others, body);
    reveal_strlit("tree ");
    reveal_strlit("parent ");
    reveal_strlit("\n");
    assert forall|k: int| 0 <= k < list.len() implies is_line(#[trigger] list[k]) by {
        if k == 0 {
            lemma_no_line_feed("tree "@, tree);
        } else if k < 1 + present.len() {
            lemma_no_line_feed("parent "@, present[k - 1]);
        } else {
            assert(is_other_line(others[k - 1 - present.len()]));
            assert(list[k] == others[k - 1 - present.len()]);
        }
    }
    lemma_header_ends(list, body);
    lemma_headers_rewritten(list, parents);
    let n = until_blank(text);
    let h = line_text(list);
    assert(text.take(n as int) =~= h.drop_last());
    assert(h.last() == '\n') by {
        lemma_ends_line(list);
    }
    assert(text.skip(n as int + 2) =~= body);
    let line = "tree "@ + tree;
    assert(list[0] == line);
    assert(line.take(5) =~= "tree "@);
    assert(list.skip(1) =~= Seq::new(present.len(), |k: int| "parent "@ + present[k]) + others);
    lemma_parents_go(present, others, parents);
    lemma_others_stay(others, parents);
    lemma_parent_lines(parents, others);
    let new_list = commit_header(tree, parents, others);
    assert(new_list.skip(1) =~= Seq::new(parents.len(), |k: int| "parent "@ + parents[k]) + others);
    assert(rewritten(list, parents) =~= line.push('\n') + (parent_lines(parents) + line_text(
        others,
    )));
    assert(line_text(new_list) =~= rewritten(list, parents));
    assert(reparented(text, parents, msg)->0 =~= commit_text(
        tree,
        parents,
        others,
        new_body(body, msg),
    ));
}

/// What reparenting did is undone by giving a commit its parents back.
pub proof fn law_reparent_can_be_undone(
    tree: Seq<char>,
    present: Seq<Seq<char>>,
    others: Seq<Seq<char>>,
    body: Seq<char>,
    parents: Seq<Seq<char>>,
)
    requires
        is_commit(tree, present, others),
        is_commit(tree, parents, others),
    ensures
        reparented(commit_text(tree, present, others, body), parents, None) matches Some(changed)
            && reparented(changed, present, None) == Some(
            commit_text(tree, present, others, body),
        ),
{
    law_reparent_changes_only_parents(tree, present, others, body, parents, None);
    law_reparent_changes_only_parents(tree, parents, others, body, present, None);
}

/// Reparenting asks for two things only: the text of the commit, and that the
/// changed text be written as a commit. No ref is touched. The result is the id of
/// what was written.
pub proof fn law_reparent_writes_one_commit(
    g: Talk,
    commit: Seq<char>,
    tree: Seq<char>,
    present: Seq<Seq<char>>,
    others: Seq<Seq<char>>,
    body: Seq<char>,
    parents: Seq<Seq<char>>,
    msg: Option<Seq<char>>,
    id: Seq<char>,
)
    requires
        is_commit(tree, present, others),
        g.remaining() >= 2,
        g.replies[g.asked.len() as int] == succeeded(commit_text(tree, present, others, body)),
        g.replies[g.asked.len() as int + 1] == succeeded(id),
    ensures
        g.reparent(commit, parents, msg) == (
            Talk {
                asked: g.asked.push(quiet_request(seq!["cat-file"@, "commit"@, commit])).push(
                    RequestView::Git {
                        args: seq!["hash-object"@, "-t"@, "commit"@, "-w"@, "--stdin"@],
                        stdin: Some(commit_text(tree, parents, others, new_body(body, msg))),
                        env: None,
                        loud: false,
                    },
                ),
                ..g
            },
            Ok::<Seq<char>, ErrorView>(without_line_feeds(id)),
        ),
{
    law_reparent_changes_only_parents(tree, present, others, body, parents, msg);
}

/// The reply of a command that succeeded and printed this.
pub open spec fn succeeded(stdout: Seq<char>) -> ReplyView {
    ReplyView::Output(OutputView { success: true, stdout, stderr: Seq::empty() })
}

proof fn lemma_no_line_feed(a: Seq<char>, b: Seq<char>)
    requires
        a.len() > 0,
        !a.contains('\n'),
        !b.contains('\n'),
    ensures
        is_line(a + b),
{
    let s = a + b;
    if s.contains('\n') {
        let k = choose|k: int| 0 <= k < s.len() && s[k] == '\n';
        if k < a.len() {
            assert(a[k] == '\n');
        } else {
            assert(b[k - a.len()] == '\n');
        }
    }
}

proof fn lemma_ends_line(list: Seq<Seq<char>>)
    requires
        list.len() > 0,
    ensures
        line_text(list).len() > 0,
        line_text(list).last() == '\n',
    decreases list.len(),
{
    let rest = list.skip(1);
    if rest.len() > 0 {
        lemma_ends_line(rest);
    } else {
        assert(line_text(rest) =~= Seq::empty());
    }
}

// ---------------------------------------------------------------------
// Chains are linear
// ---------------------------------------------------------------------

/// The request makes no commit, or one with exactly one parent.
pub open spec fn is_linear_request(r: RequestView) -> bool {
    r matches RequestView::Git { args, .. } ==> args.len() > 0 && args[0] == "commit-tree"@ ==>
        args.len() == 4 && args[2] == "-p"@
}

/// From `g` to `later` every commit that was made has exactly one parent.
pub open spec fn is_linear_since(g: Talk, later: Talk) -> bool {
    g.asked.len() <= later.asked.len() && forall|i: int|
        g.asked.len() <= i < later.asked.len() ==> is_linear_request(#[trigger] later.asked[i])
}

proof fn lemma_link_is_linear(
    g: Talk,
    commit: Seq<char>,
    metadata: Seq<char>,
    parents: Seq<Seq<char>>,
    reusing: bool,
)
    requires
        parents.len() == 1,
    ensures
        is_linear_since(g, g.link(commit, metadata, parents, reusing).0),
        forall|i: int|
            0 <= i < g.asked.len() ==> g.link(commit, metadata, parents, reusing).0.asked[i]
                == g.asked[i],
{
    reveal_strlit("commit-tree");
    reveal_strlit("--no-pager");
    reveal_strlit("rev-parse");
    reveal_strlit("cat-file");
    assert("commit-tree"@[0] == 'c' && "--no-pager"@[0] == '-' && "rev-parse"@[0] == 'r'
        && "cat-file"@[1] == 'a' && "commit-tree"@[1] == 'o');
    assert(parent_args(parents) =~= seq!["-p"@, parents[0]]) by {
        assert(parents.drop_last() =~= Seq::empty());
        reveal_with_fuel(parent_args, 2);
    }
}

proof fn lemma_extend_is_linear(
    g: Talk,
    path: Seq<(Seq<char>, Seq<char>)>,
    i: nat,
    parents: Seq<Seq<char>>,
    reusing: bool,
)
    requires
        parents.len() == 1,
    ensures
        is_linear_since(g, g.extend_chain(path, i, parents, reusing).0),
        forall|k: int|
            0 <= k < g.asked.len() ==> g.extend_chain(path, i, parents, reusing).0.asked[k]
                == g.asked[k],
    decreases path.len() - i,
{
    if i < path.len() {
        let (commit, metadata) = path[i as int];
        lemma_link_is_linear(g, commit, metadata, parents, reusing);
        if let (g2, Ok((sha1, reused))) = g.link(commit, metadata, parents, reusing) {
            lemma_extend_is_linear(g2, path, i + 1, seq![sha1], reused);
            let end = g2.extend_chain(path, i + 1, seq![sha1], reused).0;
            assert forall|k: int| g.asked.len() <= k < end.asked.len() implies is_linear_request(
                #[trigger] end.asked[k],
            ) by {
                if k < g2.asked.len() {
                    assert(end.asked[k] == g2.asked[k]);
                }
            }
        }
    }
}

/// A chain of commits on a base is linear: every commit that is made for it has
/// exactly one parent.
pub proof fn law_chain_makes_linear_history(
    g: Talk,
    base: Seq<char>,
    path: Seq<(Seq<char>, Seq<char>)>,
)
    ensures
        is_linear_since(g, g.create_commit_chain(Some(base), path).0),
{
    lemma_extend_is_linear(g, path, 0, seq![base], true);
}

impl Talk {
    /// The commits of a chain from place `i` of the path on, oldest first.
    pub open spec fn chain_commits(
        self,
        path: Seq<(Seq<char>, Seq<char>)>,
        i: nat,
        parents: Seq<Seq<char>>,
        reusing: bool,
    ) -> Seq<Seq<char>>
        decreases path.len() - i,
    {
        if i >= path.len() {
            Seq::empty()
        } else {
            match self.link(path[i as int].0, path[i as int].1, parents, reusing) {
                (g, Ok((sha1, reused))) => seq![sha1] + g.chain_commits(
                    path,
                    i + 1,
                    seq![sha1],
                    reused,
                ),
                _ => Seq::empty(),
            }
        }
    }
}

proof fn lemma_chain_commits(
    g: Talk,
    path: Seq<(Seq<char>, Seq<char>)>,
    i: nat,
    parents: Seq<Seq<char>>,
    reusing: bool,
)
    requires
        i <= path.len(),
    ensures
        g.extend_chain(path, i, parents, reusing).1 matches Ok(last) ==> ({
            let list = g.chain_commits(path, i, parents, reusing);
            &&& list.len() == path.len() - i
            &&& last == if list.len() > 0 {
                seq![list.last()]
            } else {
                parents
            }
        }),
    decreases path.len() - i,
{
    if i < path.len() {
        let (commit, metadata) = path[i as int];
        if let (h, Ok((sha1, reused))) = g.link(commit, metadata, parents, reusing) {
            lemma_chain_commits(h, path, i + 1, seq![sha1], reused);
            let rest = h.chain_commits(path, i + 1, seq![sha1], reused);
            if rest.len() > 0 {
                assert((seq![sha1] + rest).last() == rest.last());
            }
        }
    }
}

/// A chain has one commit for each entry of its path, on top of its base; its
/// result is the last of them.
pub proof fn law_chain_has_a_commit_for_each_entry(
    g: Talk,
    base: Seq<char>,
    path: Seq<(Seq<char>, Seq<char>)>,
)
    ensures
        g.create_commit_chain(Some(base), path).1 matches Ok(last) ==> ({
            let list = g.chain_commits(path, 0, seq![base], true);
            &&& list.len() == path.len()
            &&& last == if list.len() > 0 {
                list.last()
            } else {
                base
            }
        }),
{
    lemma_chain_commits(g, path, 0, seq![base], true);
}

} // verus!
