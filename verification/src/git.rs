//! Operations on a git repository, as exchanges with the `git` program.
use vstd::prelude::*;

use crate::error::{failure, res, ErrorView, ImergeError};
pub use crate::talk::EMPTY_TREE_SHA1;
use crate::talk::{
    lemma_grows, lemma_learns_nothing, CommitMetadata, Message, Output, OutputView, Reply,
    ReplyView, Request, RequestView, Talk, Told,
};
use crate::text::{
    after_prefix, begins, cat2, cat3, cat4, chained, debug_form, drop_line_feeds, join, joined,
    lines, lines_of, list1, list2, list3, list4, list5, list6, parse, parsed, quoted, same, trim,
    trimmed, without_line_feeds, words, words_of,
};

verus! {

broadcast use lemma_grows, lemma_learns_nothing;

/// Where branches live.
pub const BRANCH_PREFIX: &'static str = "refs/heads/";

/// What came of an automatic merge.
#[derive(Debug)]
pub enum AutomergeOutcome {
    /// The commit that was made.
    Success(String),
    Conflict,
}

/// The content of an [`AutomergeOutcome`].
pub enum OutcomeView {
    Success(Seq<char>),
    Conflict,
}

impl DeepView for AutomergeOutcome {
    type V = OutcomeView;

    open spec fn deep_view(&self) -> OutcomeView {
        match self {
            AutomergeOutcome::Success(c) => OutcomeView::Success(c@),
            AutomergeOutcome::Conflict => OutcomeView::Conflict,
        }
    }
}

/// A git repository, seen through the replies of the `git` program.
pub struct Git {
    pub replies: Vec<Reply>,
    pub asked: Vec<Request>,
    pub told: Vec<Message>,
    /// The patch ids that are known. A commit with several parents has none.
    pub patch_ids: Vec<(String, Option<String>)>,
}

impl View for Git {
    type V = Talk;

    open spec fn view(&self) -> Talk {
        Talk {
            replies: self.replies.deep_view(),
            asked: self.asked.deep_view(),
            told: self.told.deep_view(),
            patch_ids: self.patch_ids.deep_view(),
        }
    }
}

/// A `git` command with nothing on its standard input.
pub open spec fn quiet_request(args: Seq<Seq<char>>) -> RequestView {
    RequestView::Git { args, stdin: None, env: None, loud: false }
}

/// The message for a command that ended badly.
pub open spec fn command_failed(args: Seq<Seq<char>>, stderr: Seq<char>) -> ErrorView {
    ErrorView::Failure("'git "@ + joined(args, " "@) + "' failed: "@ + trimmed(stderr))
}

/// How a command ended, as far as its reply tells.
pub open spec fn outcome_of(args: Seq<Seq<char>>, reply: ReplyView) -> Result<
    OutputView,
    ErrorView,
> {
    match reply {
        ReplyView::Output(o) => Ok(o),
        ReplyView::Broken(e) => Err(ErrorView::Failure(e)),
        ReplyView::Refused(e) => Err(
            ErrorView::Failure("could not run 'git "@ + joined(args, " "@) + "': "@ + e),
        ),
        _ => Err(ErrorView::Failure("unexpected reply to 'git "@ + joined(args, " "@) + "'"@)),
    }
}

/// The standard output of a command that has to succeed.
pub open spec fn checked_output(args: Seq<Seq<char>>, o: OutputView) -> Result<
    Seq<char>,
    ErrorView,
> {
    if o.success {
        Ok(without_line_feeds(o.stdout))
    } else {
        Err(command_failed(args, o.stderr))
    }
}

impl Talk {
    /// A `git` command and how it ended.
    pub open spec fn call(
        self,
        args: Seq<Seq<char>>,
        stdin: Option<Seq<char>>,
        env: Option<Seq<(Seq<char>, Seq<char>)>>,
        loud: bool,
    ) -> Told<OutputView> {
        match self.ask(RequestView::Git { args, stdin, env, loud }) {
            (g, Err(e)) => (g, Err(e)),
            (g, Ok(reply)) => (g, outcome_of(args, reply)),
        }
    }

    /// A command whose output is collected.
    pub open spec fn output(self, args: Seq<Seq<char>>) -> Told<OutputView> {
        self.call(args, None, None, false)
    }

    /// A command that has to succeed; its output, without line feeds at the end.
    pub open spec fn run(self, args: Seq<Seq<char>>) -> Told<Seq<char>> {
        match self.output(args) {
            (g, Err(e)) => (g, Err(e)),
            (g, Ok(o)) => (g, checked_output(args, o)),
        }
    }

    /// A command of which only the success is looked at.
    pub open spec fn success(self, args: Seq<Seq<char>>) -> Told<bool> {
        match self.output(args) {
            (g, Err(e)) => (g, Err(e)),
            (g, Ok(o)) => (g, Ok(o.success)),
        }
    }

    /// Like `run`, with text for standard input and additions to the environment.
    pub open spec fn run_stdin_env(
        self,
        args: Seq<Seq<char>>,
        input: Seq<char>,
        env: Option<Seq<(Seq<char>, Seq<char>)>>,
    ) -> Told<Seq<char>> {
        match self.call(args, Some(input), env, false) {
            (g, Err(e)) => (g, Err(e)),
            (g, Ok(o)) => (g, checked_output(args, o)),
        }
    }

    /// Like `run`, with text for standard input.
    pub open spec fn run_stdin(self, args: Seq<Seq<char>>, input: Seq<char>) -> Told<Seq<char>> {
        self.run_stdin_env(args, input, None)
    }

    /// A command that shares the terminal with the user.
    pub open spec fn run_loud(self, args: Seq<Seq<char>>) -> Told<bool> {
        match self.call(args, None, None, true) {
            (g, Err(e)) => (g, Err(e)),
            (g, Ok(o)) => (g, Ok(o.success)),
        }
    }

    /// A loud command that has to succeed.
    pub open spec fn run_loud_checked(self, args: Seq<Seq<char>>) -> Told<()> {
        match self.run_loud(args) {
            (g, Err(e)) => (g, Err(e)),
            (g, Ok(true)) => (g, Ok(())),
            (g, Ok(false)) => (
                g,
                Err(ErrorView::Failure("'git "@ + joined(args, " "@) + "' failed"@)),
            ),
        }
    }
}

impl Git {
    /// A repository of which nothing is known yet.
    pub fn new() -> (r: Git)
        ensures
            r@ == (Talk {
                replies: Seq::empty(),
                asked: Seq::empty(),
                told: Seq::empty(),
                patch_ids: Seq::empty(),
            }),
    {
        let r = Git {
            replies: Vec::new(),
            asked: Vec::new(),
            told: Vec::new(),
            patch_ids: Vec::new(),
        };
        assert(r@ =~= Talk {
            replies: Seq::empty(),
            asked: Seq::empty(),
            told: Seq::empty(),
            patch_ids: Seq::empty(),
        });
        r
    }

    /// Goes back to the start of the operation. The replies stay.
    pub fn rewind(&mut self)
        ensures
            final(self)@ == (Talk {
                replies: old(self)@.replies,
                asked: Seq::empty(),
                told: Seq::empty(),
                patch_ids: Seq::empty(),
            }),
    {
        self.asked = Vec::new();
        self.told = Vec::new();
        self.patch_ids = Vec::new();
        assert(self@ =~= Talk {
            replies: old(self)@.replies,
            asked: Seq::empty(),
            told: Seq::empty(),
            patch_ids: Seq::empty(),
        });
    }

    /// Adds the reply to the request that waits for one.
    pub fn answer(&mut self, reply: Reply)
        ensures
            final(self)@ == (Talk {
                replies: old(self)@.replies.push(reply.deep_view()),
                ..old(self)@
            }),
    {
        self.replies.push(reply);
        assert(self@.replies =~= old(self)@.replies.push(reply.deep_view()));
    }

    /// The request that waits for a reply.
    pub fn pending(&self) -> (r: Option<&Request>)
        ensures
            r.deep_view() == if self@.waiting() {
                Some(self@.asked.last())
            } else {
                None
            },
    {
        if self.asked.len() > self.replies.len() {
            Some(&self.asked[self.asked.len() - 1])
        } else {
            None
        }
    }

    /// Makes a request.
    pub fn ask(&mut self, request: Request) -> (r: Result<Reply, ImergeError>)
        ensures
            (final(self)@, res(r)) == old(self)@.ask(request.deep_view()),
            old(self)@.grows_to(final(self)@),
            r is Ok ==> final(self)@.remaining() < old(self)@.remaining(),
    {
        if self.asked.len() > self.replies.len() {
            return Err(ImergeError::Suspended);
        }
        self.asked.push(request);
        assert(self@.asked =~= old(self)@.asked.push(request.deep_view()));
        if self.asked.len() > self.replies.len() {
            return Err(ImergeError::Suspended);
        }
        let n: usize = self.asked.len() - 1;
        assert(self@.replies[n as int] == self.replies@[n as int].deep_view());
        Ok(self.replies[n].copy())
    }

    /// Leaves some text for standard error.
    pub fn tell(&mut self, text: &str)
        ensures
            final(self)@ == old(self)@.tell(text@),
            old(self)@.grows_to(final(self)@),
    {
        self.told.push(Message::Stderr(text.to_owned()));
        assert(self@.told =~= old(self)@.tell(text@).told);
    }

    /// Leaves a line for standard error.
    pub fn note(&mut self, line: &str)
        ensures
            final(self)@ == old(self)@.note(line@),
            old(self)@.grows_to(final(self)@),
    {
        self.tell(&cat2(line, "\n"));
    }

    /// Leaves a line for standard output.
    pub fn print(&mut self, line: &str)
        ensures
            final(self)@ == old(self)@.print(line@),
            old(self)@.grows_to(final(self)@),
    {
        self.write(&cat2(line, "\n"));
    }

    /// Leaves some text for standard output.
    pub fn write(&mut self, text: &str)
        ensures
            final(self)@ == old(self)@.write(text@),
            old(self)@.grows_to(final(self)@),
    {
        self.told.push(Message::Stdout(text.to_owned()));
        assert(self@.told =~= old(self)@.write(text@).told);
    }

    pub(crate) fn call(
        &mut self,
        args: Vec<String>,
        stdin: Option<String>,
        env: Option<CommitMetadata>,
        loud: bool,
    ) -> (r: Result<Output, ImergeError>)
        ensures
            (final(self)@, res(r)) == old(self)@.call(
                args.deep_view(),
                stdin.deep_view(),
                env.deep_view(),
                loud,
            ),
            old(self)@.grows_to(final(self)@),
            r is Ok ==> final(self)@.remaining() < old(self)@.remaining(),
    {
        let shown = join(&args, " ");
        match self.ask(Request::Git { args, stdin, env, loud })? {
            Reply::Output(o) => Ok(o),
            Reply::Broken(e) => Err(ImergeError::Failure(e)),
            Reply::Refused(e) => failure(&cat4("could not run 'git ", &shown, "': ", &e)),
            _ => failure(&cat3("unexpected reply to 'git ", &shown, "'")),
        }
    }

    pub(crate) fn output(&mut self, args: Vec<String>) -> (r: Result<Output, ImergeError>)
        ensures
            (final(self)@, res(r)) == old(self)@.output(args.deep_view()),
            old(self)@.grows_to(final(self)@),
            r is Ok ==> final(self)@.remaining() < old(self)@.remaining(),
    {
        self.call(args, None, None, false)
    }

    pub(crate) fn run(&mut self, args: Vec<String>) -> (r: Result<String, ImergeError>)
        ensures
            (final(self)@, res(r)) == old(self)@.run(args.deep_view()),
            old(self)@.grows_to(final(self)@),
            r is Ok ==> final(self)@.remaining() < old(self)@.remaining(),
    {
        let shown = join(&args, " ");
        let out = self.output(args)?;
        if out.success {
            Ok(drop_line_feeds(&out.stdout))
        } else {
            failure(&cat4("'git ", &shown, "' failed: ", &trim(&out.stderr)))
        }
    }

    pub(crate) fn success(&mut self, args: Vec<String>) -> (r: Result<bool, ImergeError>)
        ensures
            (final(self)@, res(r)) == old(self)@.success(args.deep_view()),
            old(self)@.grows_to(final(self)@),
            r is Ok ==> final(self)@.remaining() < old(self)@.remaining(),
    {
        let out = self.output(args)?;
        Ok(out.success)
    }

    pub(crate) fn run_stdin_env(
        &mut self,
        args: Vec<String>,
        input: &str,
        env: Option<CommitMetadata>,
    ) -> (r: Result<String, ImergeError>)
        ensures
            (final(self)@, res(r)) == old(self)@.run_stdin_env(
                args.deep_view(),
                input@,
                env.deep_view(),
            ),
            old(self)@.grows_to(final(self)@),
            r is Ok ==> final(self)@.remaining() < old(self)@.remaining(),
    {
        let shown = join(&args, " ");
        let out = self.call(args, Some(input.to_owned()), env, false)?;
        if out.success {
            Ok(drop_line_feeds(&out.stdout))
        } else {
            failure(&cat4("'git ", &shown, "' failed: ", &trim(&out.stderr)))
        }
    }

    pub(crate) fn run_stdin(&mut self, args: Vec<String>, input: &str) -> (r: Result<String, ImergeError>)
        ensures
            (final(self)@, res(r)) == old(self)@.run_stdin(args.deep_view(), input@),
            old(self)@.grows_to(final(self)@),
            r is Ok ==> final(self)@.remaining() < old(self)@.remaining(),
    {
        self.run_stdin_env(args, input, None)
    }

    pub(crate) fn run_loud(&mut self, args: Vec<String>) -> (r: Result<bool, ImergeError>)
        ensures
            (final(self)@, res(r)) == old(self)@.run_loud(args.deep_view()),
            old(self)@.grows_to(final(self)@),
            r is Ok ==> final(self)@.remaining() < old(self)@.remaining(),
    {
        let out = self.call(args, None, None, true)?;
        Ok(out.success)
    }

    pub(crate) fn run_loud_checked(&mut self, args: Vec<String>) -> (r: Result<(), ImergeError>)
        ensures
            (final(self)@, res(r)) == old(self)@.run_loud_checked(args.deep_view()),
            old(self)@.grows_to(final(self)@),
            r is Ok ==> final(self)@.remaining() < old(self)@.remaining(),
    {
        let shown = join(&args, " ");
        if self.run_loud(args)? {
            Ok(())
        } else {
            failure(&cat3("'git ", &shown, "' failed"))
        }
    }
}

impl Default for Git {
    fn default() -> (r: Git)
        ensures
            r@ == (Talk {
                replies: Seq::empty(),
                asked: Seq::empty(),
                told: Seq::empty(),
                patch_ids: Seq::empty(),
            }),
    {
        Git::new()
    }
}

/// What a commit is called where only a commit will do.
pub open spec fn as_commit(arg: Seq<char>) -> Seq<char> {
    arg + "^{commit}"@
}

/// A count that a command printed; anything else counts as none.
pub open spec fn count_in(out: Seq<char>) -> u64 {
    match parsed(trimmed(out), u64::MAX as nat) {
        Some(n) => n as u64,
        None => 0,
    }
}

/// Reads a count that a command printed.
pub(crate) fn count(out: &str) -> (r: u64)
    ensures
        r == count_in(out@),
{
    match parse(&trim(out), u64::MAX) {
        Some(n) => n,
        None => 0,
    }
}

/// The arguments of an automatic merge of `commit2` into the current commit.
pub open spec fn merge_args(
    commit2: Seq<char>,
    msg: Option<Seq<char>>,
    global_opts: Seq<Seq<char>>,
    extra: Seq<Seq<char>>,
) -> Seq<Seq<char>> {
    seq!["-c"@, "rerere.enabled=false"@] + global_opts + seq!["merge"@] + extra + (match msg {
        Some(m) => seq!["-m"@, m],
        None => seq![],
    }) + seq![commit2]
}

/// What the user is told about changes that stand in the way of `action`.
pub open spec fn unclean(action: Seq<char>, unstaged: bool, uncommitted: bool) -> Seq<Seq<char>> {
    (if unstaged {
        seq!["Cannot "@ + action + ": You have unstaged changes."@]
    } else {
        seq![]
    }) + (if !uncommitted {
        seq![]
    } else if unstaged {
        seq!["Additionally, your index contains uncommitted changes."@]
    } else {
        seq!["Cannot "@ + action + ": Your index contains uncommitted changes."@]
    })
}

/// What is checked out for `refname`: a branch by its short name, anything else
/// as a commit.
pub open spec fn checkout_target(refname: Seq<char>) -> Seq<char> {
    if begins(refname, BRANCH_PREFIX@) {
        refname.skip(BRANCH_PREFIX@.len() as int)
    } else {
        refname + "^0"@
    }
}

impl Talk {
    /// See [`Git::git_dir`].
    pub open spec fn git_dir(self) -> Told<Seq<char>> {
        self.run(seq!["rev-parse"@, "--git-dir"@])
    }

    /// See [`Git::check_imerge_name_format`].
    pub open spec fn check_imerge_name_format(self, name: Seq<char>) -> Told<()> {
        match self.success(seq!["check-ref-format"@, "refs/imerge/"@ + name]) {
            (g, Err(e)) => (g, Err(e)),
            (g, Ok(true)) => (g, Ok(())),
            (g, Ok(false)) => (
                g,
                Err(
                    ErrorView::Failure(
                        "Name '"@ + name + "' is not a valid refname component!"@,
                    ),
                ),
            ),
        }
    }

    /// See [`Git::check_branch_name_format`].
    pub open spec fn check_branch_name_format(self, name: Seq<char>) -> Told<()> {
        match self.success(seq!["check-ref-format"@, "refs/heads/"@ + name]) {
            (g, Err(e)) => (g, Err(e)),
            (g, Ok(true)) => (g, Ok(())),
            (g, Ok(false)) => (
                g,
                Err(ErrorView::Failure("Name '"@ + name + "' is not a valid branch name!"@)),
            ),
        }
    }

    /// See [`Git::set_default_imerge_name`].
    pub open spec fn set_default_imerge_name(self, name: Option<Seq<char>>) -> Told<()> {
        match self.output(
            match name {
                None => seq!["config"@, "--unset"@, "imerge.default"@],
                Some(n) => seq!["config"@, "imerge.default"@, n],
            },
        ) {
            (g, Err(e)) => (g, Err(e)),
            (g, Ok(_)) => (g, Ok(())),
        }
    }

    /// See [`Git::get_default_imerge_name`].
    pub open spec fn get_default_imerge_name(self) -> Told<Option<Seq<char>>> {
        match self.output(seq!["config"@, "imerge.default"@]) {
            (g, Err(e)) => (g, Err(e)),
            (g, Ok(o)) => (
                g,
                Ok(
                    if o.success {
                        Some(trimmed(o.stdout))
                    } else {
                        None
                    },
                ),
            ),
        }
    }

    /// See [`Git::get_default_edit`].
    pub open spec fn get_default_edit(self) -> Told<bool> {
        match self.output(seq!["config"@, "--bool"@, "imerge.editmergemessages"@]) {
            (g, Err(ErrorView::Suspended)) => (g, Err(ErrorView::Suspended)),
            (g, Err(_)) => (g, Ok(false)),
            (g, Ok(o)) => (g, Ok(o.success && trimmed(o.stdout) == "true"@)),
        }
    }

    /// See [`Git::unstaged_changes`].
    pub open spec fn unstaged_changes(self) -> Told<bool> {
        match self.success(seq!["diff-files"@, "--quiet"@, "--ignore-submodules"@]) {
            (g, Err(e)) => (g, Err(e)),
            (g, Ok(b)) => (g, Ok(!b)),
        }
    }

    /// See [`Git::uncommitted_changes`].
    pub open spec fn uncommitted_changes(self) -> Told<bool> {
        match self.success(
            seq![
                "diff-index"@,
                "--cached"@,
                "--quiet"@,
                "--ignore-submodules"@,
                "HEAD"@,
                "--"@,
            ],
        ) {
            (g, Err(e)) => (g, Err(e)),
            (g, Ok(b)) => (g, Ok(!b)),
        }
    }

    /// See [`Git::rev_parse`].
    pub open spec fn rev_parse(self, arg: Seq<char>) -> Told<Option<Seq<char>>> {
        match self.output(seq!["rev-parse"@, "--verify"@, "--quiet"@, arg]) {
            (g, Err(e)) => (g, Err(e)),
            (g, Ok(o)) => (
                g,
                Ok(
                    if o.success {
                        Some(trimmed(o.stdout))
                    } else {
                        None
                    },
                ),
            ),
        }
    }

    /// See [`Git::rev_parse_required`].
    pub open spec fn rev_parse_required(self, arg: Seq<char>) -> Told<Seq<char>> {
        match self.rev_parse(arg) {
            (g, Err(e)) => (g, Err(e)),
            (g, Ok(Some(sha1))) => (g, Ok(sha1)),
            (g, Ok(None)) => (
                g,
                Err(ErrorView::Failure(debug_form(arg) + " is not a valid revision"@)),
            ),
        }
    }

    /// See [`Git::get_commit_sha1`].
    pub open spec fn get_commit_sha1(self, arg: Seq<char>) -> Told<Seq<char>> {
        match self.rev_parse(as_commit(arg)) {
            (g, Err(e)) => (g, Err(e)),
            (g, Ok(Some(sha1))) => (g, Ok(sha1)),
            (g, Ok(None)) => (
                g,
                Err(
                    ErrorView::Failure(
                        debug_form(arg) + " does not refer to a valid git commit"@,
                    ),
                ),
            ),
        }
    }

    /// See [`Git::get_tree`].
    pub open spec fn get_tree(self, arg: Seq<char>) -> Told<Seq<char>> {
        self.rev_parse_required(arg + "^{tree}"@)
    }

    /// See [`Git::refresh_index`].
    pub open spec fn refresh_index(self) -> Told<()> {
        match self.output(
            seq!["update-index"@, "-q"@, "--ignore-submodules"@, "--refresh"@],
        ) {
            (g, Err(e)) => (g, Err(e)),
            (g, Ok(o)) => (
                g,
                if o.success {
                    Ok(())
                } else if trimmed(o.stderr).len() > 0 {
                    Err(ErrorView::UncleanWorkTree(trimmed(o.stderr)))
                } else {
                    Err(ErrorView::UncleanWorkTree(trimmed(o.stdout)))
                },
            ),
        }
    }

    /// See [`Git::is_ancestor`].
    pub open spec fn is_ancestor(self, commit1: Seq<char>, commit2: Seq<char>) -> Told<bool> {
        if commit1 == commit2 {
            (self, Ok(true))
        } else {
            match self.run(
                seq!["rev-list"@, "--count"@, "--ancestry-path"@, commit1 + ".."@ + commit2],
            ) {
                (g, Err(e)) => (g, Err(e)),
                (g, Ok(out)) => (g, Ok(count_in(out) != 0)),
            }
        }
    }

    /// See [`Git::is_ff`].
    pub open spec fn is_ff(self, refname: Seq<char>, commit: Seq<char>) -> Told<bool> {
        match self.get_commit_sha1(refname) {
            (g, Err(ErrorView::Suspended)) => (g, Err(ErrorView::Suspended)),
            (g, Err(_)) => (g, Ok(true)),
            (g, Ok(sha1)) => g.is_ancestor(sha1, commit),
        }
    }

    /// See [`Git::abort_merge`].
    pub open spec fn abort_merge(self) -> Told<()> {
        match self.output(seq!["reset"@, "--merge"@]) {
            (g, Err(e)) => (g, Err(e)),
            (g, Ok(_)) => (g, Ok(())),
        }
    }

    /// An automatic merge with more options: check `commit1` out, merge `commit2`,
    /// and either take the commit that was made or abort the merge.
    pub open spec fn automerge_with_strategy(
        self,
        commit1: Seq<char>,
        commit2: Seq<char>,
        msg: Option<Seq<char>>,
        global_opts: Seq<Seq<char>>,
        extra: Seq<Seq<char>>,
    ) -> Told<OutcomeView> {
        match self.output(seq!["checkout"@, "-f"@, commit1]) {
            (g, Err(e)) => (g, Err(e)),
            (g, Ok(o)) => if !o.success {
                (
                    g,
                    Err(
                        ErrorView::Failure(
                            "'git checkout -f "@ + commit1 + "' failed: "@ + trimmed(o.stderr),
                        ),
                    ),
                )
            } else {
                match g.output(merge_args(commit2, msg, global_opts, extra)) {
                    (g, Err(e)) => (g, Err(e)),
                    (g, Ok(o)) => if o.success {
                        match g.get_commit_sha1("HEAD"@) {
                            (g, Err(e)) => (g, Err(e)),
                            (g, Ok(sha1)) => (g, Ok(OutcomeView::Success(sha1))),
                        }
                    } else {
                        match g.abort_merge() {
                            (g, Err(e)) => (g, Err(e)),
                            (g, Ok(_)) => (g, Ok(OutcomeView::Conflict)),
                        }
                    },
                }
            },
        }
    }

    /// See [`Git::automerge`].
    pub open spec fn automerge(
        self,
        commit1: Seq<char>,
        commit2: Seq<char>,
        msg: Option<Seq<char>>,
    ) -> Told<OutcomeView> {
        self.automerge_with_strategy(commit1, commit2, msg, seq![], seq![])
    }

    /// The path of a file without attributes.
    pub open spec fn empty_attributes_file(self) -> Told<Seq<char>> {
        match self.ask(RequestView::EmptyAttributesFile) {
            (g, Err(e)) => (g, Err(e)),
            (g, Ok(ReplyView::Text(path))) => (g, Ok(path)),
            (g, Ok(ReplyView::Refused(e))) => (g, Err(ErrorView::Failure(e))),
            (g, Ok(_)) => (g, Err(ErrorView::Failure("unexpected reply for a file"@))),
        }
    }

    /// See [`Git::automerge_prefer_ours`].
    pub open spec fn automerge_prefer_ours(
        self,
        commit1: Seq<char>,
        commit2: Seq<char>,
        msg: Option<Seq<char>>,
    ) -> Told<OutcomeView> {
        match self.empty_attributes_file() {
            (g, Err(e)) => (g, Err(e)),
            (g, Ok(path)) => g.automerge_with_strategy(
                commit1,
                commit2,
                msg,
                seq!["-c"@, "core.attributesFile="@ + path],
                seq!["-X"@, "ours"@],
            ),
        }
    }

    /// See [`Git::manualmerge`].
    pub open spec fn manualmerge(self, commit: Seq<char>, msg: Seq<char>) -> Told<()> {
        match self.run_loud(seq!["merge"@, "--no-commit"@, "-m"@, msg, commit]) {
            (g, Err(e)) => (g, Err(e)),
            (g, Ok(_)) => (g, Ok(())),
        }
    }

    /// See [`Git::require_clean_work_tree`].
    pub open spec fn require_clean_work_tree(self, action: Seq<char>) -> Told<()> {
        match self.output(seq!["rev-parse"@, "--verify"@, "HEAD"@]) {
            (g, Err(e)) => (g, Err(e)),
            (g, Ok(o)) => if !o.success {
                (g, Err(ErrorView::UncleanWorkTree(trimmed(o.stderr))))
            } else {
                match g.refresh_index() {
                    (g, Err(e)) => (g, Err(e)),
                    (g, Ok(_)) => match g.unstaged_changes() {
                        (g, Err(e)) => (g, Err(e)),
                        (g, Ok(unstaged)) => match g.uncommitted_changes() {
                            (g, Err(e)) => (g, Err(e)),
                            (g, Ok(uncommitted)) => (
                                g,
                                if unstaged || uncommitted {
                                    Err(
                                        ErrorView::UncleanWorkTree(
                                            joined(
                                                unclean(action, unstaged, uncommitted),
                                                "\n"@,
                                            ),
                                        ),
                                    )
                                } else {
                                    Ok(())
                                },
                            ),
                        },
                    },
                }
            },
        }
    }

    /// See [`Git::simple_merge_in_progress`].
    pub open spec fn simple_merge_in_progress(self) -> Told<bool> {
        match self.git_dir() {
            (g, Err(e)) => (g, Err(e)),
            (g, Ok(git_dir)) => match g.ask(RequestView::ReadMergeHead { git_dir }) {
                (g, Err(e)) => (g, Err(e)),
                (g, Ok(ReplyView::Text(contents))) => (g, Ok(lines_of(contents).len() == 1)),
                (g, Ok(_)) => (g, Ok(false)),
            },
        }
    }

    /// Whether the user wants to edit log messages.
    pub open spec fn edit_wanted(self, edit_log_msg: Option<bool>) -> Told<bool> {
        match edit_log_msg {
            Some(edit) => (self, Ok(edit)),
            None => self.get_default_edit(),
        }
    }

    /// See [`Git::commit_user_merge`].
    pub open spec fn commit_user_merge(self, edit_log_msg: Option<bool>) -> Told<bool> {
        match self.simple_merge_in_progress() {
            (g, Err(e)) => (g, Err(e)),
            (g, Ok(false)) => (g, Ok(false)),
            (g, Ok(true)) => match g.refresh_index() {
                (g, Err(e)) => (g, Err(e)),
                (g, Ok(_)) => match g.unstaged_changes() {
                    (g, Err(e)) => (g, Err(e)),
                    (g, Ok(true)) => (
                        g,
                        Err(
                            ErrorView::UncleanWorkTree(
                                "Cannot proceed: You have unstaged changes."@,
                            ),
                        ),
                    ),
                    (g, Ok(false)) => match g.edit_wanted(edit_log_msg) {
                        (g, Err(e)) => (g, Err(e)),
                        (g, Ok(edit)) => match g.run_loud(
                            seq![
                                "commit"@,
                                "--no-verify"@,
                                if edit {
                                    "--edit"@
                                } else {
                                    "--no-edit"@
                                },
                            ],
                        ) {
                            (g, Err(e)) => (g, Err(e)),
                            (g, Ok(true)) => (g, Ok(true)),
                            (g, Ok(false)) => (
                                g,
                                Err(ErrorView::Failure("Could not commit staged changes."@)),
                            ),
                        },
                    },
                },
            },
        }
    }

    /// See [`Git::summarize_commit`].
    pub open spec fn summarize_commit(self, commit: Seq<char>) -> Told<()> {
        self.run_loud_checked(seq!["--no-pager"@, "log"@, "--no-walk"@, commit])
    }

    /// See [`Git::update_ref`].
    pub open spec fn update_ref(
        self,
        refname: Seq<char>,
        value: Seq<char>,
        msg: Seq<char>,
        deref: bool,
    ) -> Told<()> {
        match self.run(
            if deref {
                seq!["update-ref"@, "-m"@, msg, refname, value]
            } else {
                seq!["update-ref"@, "--no-deref"@, "-m"@, msg, refname, value]
            },
        ) {
            (g, Err(e)) => (g, Err(e)),
            (g, Ok(_)) => (g, Ok(())),
        }
    }

    /// See [`Git::delete_ref`].
    pub open spec fn delete_ref(self, refname: Seq<char>, msg: Seq<char>) -> Told<()> {
        match self.run(seq!["update-ref"@, "-m"@, msg, "-d"@, refname]) {
            (g, Err(e)) => (g, Err(e)),
            (g, Ok(_)) => (g, Ok(())),
        }
    }

    /// See [`Git::detach`].
    pub open spec fn detach(self, msg: Seq<char>) -> Told<()> {
        self.update_ref("HEAD"@, "HEAD^0"@, msg, false)
    }

    /// See [`Git::reset_hard`].
    pub open spec fn reset_hard(self, commit: Option<Seq<char>>) -> Told<()> {
        self.run_loud_checked(
            match commit {
                Some(c) => seq!["reset"@, "--hard"@, c],
                None => seq!["reset"@, "--hard"@],
            },
        )
    }

    /// See [`Git::amend`].
    pub open spec fn amend(self) -> Told<()> {
        self.run_loud_checked(seq!["commit"@, "--amend"@])
    }

    /// See [`Git::get_head_refname`].
    pub open spec fn get_head_refname(self, short: bool) -> Told<Option<Seq<char>>> {
        match self.output(
            if short {
                seq!["symbolic-ref"@, "--quiet"@, "--short"@, "HEAD"@]
            } else {
                seq!["symbolic-ref"@, "--quiet"@, "HEAD"@]
            },
        ) {
            (g, Err(ErrorView::Suspended)) => (g, Err(ErrorView::Suspended)),
            (g, Err(_)) => (g, Ok(None)),
            (g, Ok(o)) => (
                g,
                Ok(
                    if o.success {
                        Some(trimmed(o.stdout))
                    } else {
                        None
                    },
                ),
            ),
        }
    }

    /// See [`Git::checkout`].
    pub open spec fn checkout(self, refname: Seq<char>, quiet: bool) -> Told<()> {
        self.run_loud_checked(
            if quiet {
                seq!["checkout"@, "--quiet"@, checkout_target(refname)]
            } else {
                seq!["checkout"@, checkout_target(refname)]
            },
        )
    }

    /// See [`Git::get_commit_parents`].
    pub open spec fn get_commit_parents(self, commit: Seq<char>) -> Told<Seq<Seq<char>>> {
        match self.run(
            seq!["--no-pager"@, "log"@, "--no-walk"@, "--pretty=format:%P"@, commit],
        ) {
            (g, Err(e)) => (g, Err(e)),
            (g, Ok(out)) => (g, Ok(words_of(out))),
        }
    }

    /// See [`Git::revert`].
    pub open spec fn revert(self, commit: Seq<char>) -> Told<()> {
        match self.get_commit_parents(commit) {
            (g, Err(e)) => (g, Err(e)),
            (g, Ok(parents)) => g.run_loud_checked(
                if parents.len() > 1 {
                    seq!["revert"@, "--no-edit"@, "-m"@, "1"@, commit]
                } else {
                    seq!["revert"@, "--no-edit"@, commit]
                },
            ),
        }
    }

    /// See [`Git::restore_head`].
    pub open spec fn restore_head(self, refname: Seq<char>, message: Seq<char>) -> Told<()> {
        match self.run(seq!["symbolic-ref"@, "-m"@, message, "HEAD"@, refname]) {
            (g, Err(e)) => (g, Err(e)),
            (g, Ok(_)) => g.reset_hard(None),
        }
    }

    /// See [`Git::temporary_head`].
    pub open spec fn temporary_head(self, message: Seq<char>) -> Told<TemporaryHeadView> {
        match self.get_head_refname(false) {
            (g, Err(e)) => (g, Err(e)),
            (g, Ok(old_refname)) => match g.get_commit_sha1("HEAD"@) {
                (g, Err(e)) => (g, Err(e)),
                (g, Ok(old_sha1)) => (
                    g,
                    Ok(TemporaryHeadView { message, old_refname, old_sha1 }),
                ),
            },
        }
    }

    /// See [`TemporaryHead::restore`].
    pub open spec fn restore(self, head: TemporaryHeadView) -> Told<()> {
        match head.old_refname {
            Some(refname) => self.restore_head(refname, head.message),
            None => match self.detach(head.message) {
                (g, Err(e)) => (g, Err(e)),
                (g, Ok(_)) => g.reset_hard(Some(head.old_sha1)),
            },
        }
    }
}

/// What was checked out before an operation that checks out many commits. It is
/// restored afterwards.
#[derive(Debug)]
pub struct TemporaryHead {
    pub message: String,
    pub old_refname: Option<String>,
    pub old_sha1: String,
}

/// The content of a [`TemporaryHead`].
pub struct TemporaryHeadView {
    pub message: Seq<char>,
    pub old_refname: Option<Seq<char>>,
    pub old_sha1: Seq<char>,
}

impl DeepView for TemporaryHead {
    type V = TemporaryHeadView;

    open spec fn deep_view(&self) -> TemporaryHeadView {
        TemporaryHeadView {
            message: self.message@,
            old_refname: self.old_refname.deep_view(),
            old_sha1: self.old_sha1@,
        }
    }
}

impl TemporaryHead {
    /// Checks the remembered branch or commit out again.
    pub fn restore(&self, git: &mut Git) -> (r: Result<(), ImergeError>)
        ensures
            (final(git)@, res(r)) == old(git)@.restore(self.deep_view()),
            old(git)@.grows_to(final(git)@),
    {
        match &self.old_refname {
            Some(refname) => git.restore_head(refname, &self.message),
            None => {
                git.detach(&self.message)?;
                git.reset_hard(Some(&self.old_sha1))
            },
        }
    }
}

impl Git {
    /// The repository's own directory.
    pub fn git_dir(&mut self) -> (r: Result<String, ImergeError>)
        ensures
            (final(self)@, res(r)) == old(self)@.git_dir(),
            old(self)@.grows_to(final(self)@),
    {
        self.run(list2("rev-parse", "--git-dir"))
    }

    /// Fails unless `name` can name an incremental merge.
    pub fn check_imerge_name_format(&mut self, name: &str) -> (r: Result<(), ImergeError>)
        ensures
            (final(self)@, res(r)) == old(self)@.check_imerge_name_format(name@),
            old(self)@.grows_to(final(self)@),
    {
        if self.success(list2("check-ref-format", &cat2("refs/imerge/", name)))? {
            Ok(())
        } else {
            failure(&cat3("Name '", name, "' is not a valid refname component!"))
        }
    }

    /// Fails unless `name` can name a branch.
    pub fn check_branch_name_format(&mut self, name: &str) -> (r: Result<(), ImergeError>)
        ensures
            (final(self)@, res(r)) == old(self)@.check_branch_name_format(name@),
            old(self)@.grows_to(final(self)@),
    {
        if self.success(list2("check-ref-format", &cat2("refs/heads/", name)))? {
            Ok(())
        } else {
            failure(&cat3("Name '", name, "' is not a valid branch name!"))
        }
    }

    /// Sets or clears the name of the incremental merge that commands work on by
    /// default. That there was none to clear is no error.
    pub fn set_default_imerge_name(&mut self, name: Option<&str>) -> (r: Result<(), ImergeError>)
        ensures
            (final(self)@, res(r)) == old(self)@.set_default_imerge_name(name.deep_view()),
            old(self)@.grows_to(final(self)@),
    {
        match name {
            None => {
                self.output(list3("config", "--unset", "imerge.default"))?;
            },
            Some(name) => {
                self.output(list3("config", "imerge.default", name))?;
            },
        }
        Ok(())
    }

    /// The name of the incremental merge that commands work on by default.
    pub fn get_default_imerge_name(&mut self) -> (r: Result<Option<String>, ImergeError>)
        ensures
            (final(self)@, res(r)) == old(self)@.get_default_imerge_name(),
            old(self)@.grows_to(final(self)@),
    {
        let out = self.output(list2("config", "imerge.default"))?;
        if out.success {
            Ok(Some(trim(&out.stdout)))
        } else {
            Ok(None)
        }
    }

    /// Whether log messages are edited by default.
    pub fn get_default_edit(&mut self) -> (r: Result<bool, ImergeError>)
        ensures
            (final(self)@, res(r)) == old(self)@.get_default_edit(),
            old(self)@.grows_to(final(self)@),
    {
        match self.output(list3("config", "--bool", "imerge.editmergemessages")) {
            Err(ImergeError::Suspended) => Err(ImergeError::Suspended),
            Err(_) => Ok(false),
            Ok(out) => Ok(out.success && same(&trim(&out.stdout), "true")),
        }
    }

    /// Whether the work tree differs from the index.
    pub fn unstaged_changes(&mut self) -> (r: Result<bool, ImergeError>)
        ensures
            (final(self)@, res(r)) == old(self)@.unstaged_changes(),
            old(self)@.grows_to(final(self)@),
    {
        let clean = self.success(list3("diff-files", "--quiet", "--ignore-submodules"))?;
        Ok(!clean)
    }

    /// Whether the index differs from the current commit.
    pub fn uncommitted_changes(&mut self) -> (r: Result<bool, ImergeError>)
        ensures
            (final(self)@, res(r)) == old(self)@.uncommitted_changes(),
            old(self)@.grows_to(final(self)@),
    {
        let clean = self.success(
            list6("diff-index", "--cached", "--quiet", "--ignore-submodules", "HEAD", "--"),
        )?;
        Ok(!clean)
    }

    /// The object that `arg` stands for, if there is one.
    pub fn rev_parse(&mut self, arg: &str) -> (r: Result<Option<String>, ImergeError>)
        ensures
            (final(self)@, res(r)) == old(self)@.rev_parse(arg@),
            old(self)@.grows_to(final(self)@),
    {
        let out = self.output(list4("rev-parse", "--verify", "--quiet", arg))?;
        if out.success {
            Ok(Some(trim(&out.stdout)))
        } else {
            Ok(None)
        }
    }

    /// The object that `arg` stands for.
    pub fn rev_parse_required(&mut self, arg: &str) -> (r: Result<String, ImergeError>)
        ensures
            (final(self)@, res(r)) == old(self)@.rev_parse_required(arg@),
            old(self)@.grows_to(final(self)@),
    {
        match self.rev_parse(arg)? {
            Some(sha1) => Ok(sha1),
            None => failure(&cat2(&quoted(arg), " is not a valid revision")),
        }
    }

    /// The commit that `arg` stands for.
    pub fn get_commit_sha1(&mut self, arg: &str) -> (r: Result<String, ImergeError>)
        ensures
            (final(self)@, res(r)) == old(self)@.get_commit_sha1(arg@),
            old(self)@.grows_to(final(self)@),
    {
        match self.rev_parse(&cat2(arg, "^{commit}"))? {
            Some(sha1) => Ok(sha1),
            None => failure(&cat2(&quoted(arg), " does not refer to a valid git commit")),
        }
    }

    /// The tree of the commit that `arg` stands for.
    pub fn get_tree(&mut self, arg: &str) -> (r: Result<String, ImergeError>)
        ensures
            (final(self)@, res(r)) == old(self)@.get_tree(arg@),
            old(self)@.grows_to(final(self)@),
    {
        self.rev_parse_required(&cat2(arg, "^{tree}"))
    }

    /// Brings the index up to date with the work tree's timestamps.
    pub fn refresh_index(&mut self) -> (r: Result<(), ImergeError>)
        ensures
            (final(self)@, res(r)) == old(self)@.refresh_index(),
            old(self)@.grows_to(final(self)@),
    {
        let out = self.output(list4("update-index", "-q", "--ignore-submodules", "--refresh"))?;
        if out.success {
            return Ok(());
        }
        let err = trim(&out.stderr);
        if err.unicode_len() > 0 {
            Err(ImergeError::UncleanWorkTree(err))
        } else {
            Err(ImergeError::UncleanWorkTree(trim(&out.stdout)))
        }
    }

    /// Whether `commit1` is `commit2` or one of its ancestors.
    pub fn is_ancestor(&mut self, commit1: &str, commit2: &str) -> (r: Result<bool, ImergeError>)
        ensures
            (final(self)@, res(r)) == old(self)@.is_ancestor(commit1@, commit2@),
            old(self)@.grows_to(final(self)@),
    {
        if same(commit1, commit2) {
            return Ok(true);
        }
        let range = cat3(commit1, "..", commit2);
        let out = self.run(list4("rev-list", "--count", "--ancestry-path", &range))?;
        Ok(count(&out) != 0)
    }

    /// Whether `refname` can move to `commit` without losing a commit. It can if
    /// it does not exist yet.
    pub fn is_ff(&mut self, refname: &str, commit: &str) -> (r: Result<bool, ImergeError>)
        ensures
            (final(self)@, res(r)) == old(self)@.is_ff(refname@, commit@),
            old(self)@.grows_to(final(self)@),
    {
        match self.get_commit_sha1(refname) {
            Ok(sha1) => self.is_ancestor(&sha1, commit),
            Err(ImergeError::Suspended) => Err(ImergeError::Suspended),
            Err(_) => Ok(true),
        }
    }

    /// Tries to merge `commit2` into `commit1`. The work tree has to be clean.
    /// Recorded conflict resolutions are not used: the many merges that are only
    /// tried would confuse them.
    pub fn automerge(&mut self, commit1: &str, commit2: &str, msg: Option<&str>) -> (r: Result<
        AutomergeOutcome,
        ImergeError,
    >)
        ensures
            (final(self)@, res(r)) == old(self)@.automerge(commit1@, commit2@, msg.deep_view()),
            old(self)@.grows_to(final(self)@),
            r is Ok ==> final(self)@.remaining() < old(self)@.remaining(),
    {
        let none: Vec<String> = Vec::new();
        let none2: Vec<String> = Vec::new();
        assert(none.deep_view() =~= seq![] && none2.deep_view() =~= seq![]);
        self.automerge_with_strategy(commit1, commit2, msg, none, none2)
    }

    /// Like [`Git::automerge`], but takes the side of `commit1` where the two
    /// conflict. It is meant for two commits that make the same change: either
    /// side is right there. Merge drivers from attributes do not know which side
    /// is preferred, so they are switched off.
    pub fn automerge_prefer_ours(
        &mut self,
        commit1: &str,
        commit2: &str,
        msg: Option<&str>,
    ) -> (r: Result<AutomergeOutcome, ImergeError>)
        ensures
            (final(self)@, res(r)) == old(self)@.automerge_prefer_ours(
                commit1@,
                commit2@,
                msg.deep_view(),
            ),
            old(self)@.grows_to(final(self)@),
            r is Ok ==> final(self)@.remaining() < old(self)@.remaining(),
    {
        let path = self.empty_attributes_file()?;
        let option = cat2("core.attributesFile=", &path);
        self.automerge_with_strategy(
            commit1,
            commit2,
            msg,
            list2("-c", &option),
            list2("-X", "ours"),
        )
    }

    fn empty_attributes_file(&mut self) -> (r: Result<String, ImergeError>)
        ensures
            (final(self)@, res(r)) == old(self)@.empty_attributes_file(),
            old(self)@.grows_to(final(self)@),
    {
        match self.ask(Request::EmptyAttributesFile)? {
            Reply::Text(path) => Ok(path),
            Reply::Refused(e) => Err(ImergeError::Failure(e)),
            _ => failure("unexpected reply for a file"),
        }
    }

    fn automerge_with_strategy(
        &mut self,
        commit1: &str,
        commit2: &str,
        msg: Option<&str>,
        global_opts: Vec<String>,
        extra: Vec<String>,
    ) -> (r: Result<AutomergeOutcome, ImergeError>)
        ensures
            (final(self)@, res(r)) == old(self)@.automerge_with_strategy(
                commit1@,
                commit2@,
                msg.deep_view(),
                global_opts.deep_view(),
                extra.deep_view(),
            ),
            old(self)@.grows_to(final(self)@),
            r is Ok ==> final(self)@.remaining() < old(self)@.remaining(),
    {
        let ghost global = global_opts.deep_view();
        let ghost more = extra.deep_view();
        let out = self.output(list3("checkout", "-f", commit1))?;
        if !out.success {
            return failure(
                &cat4("'git checkout -f ", commit1, "' failed: ", &trim(&out.stderr)),
            );
        }
        let args = chained(list2("-c", "rerere.enabled=false"), global_opts);
        let args = chained(chained(args, list1("merge")), extra);
        let args = match msg {
            Some(m) => chained(args, list2("-m", m)),
            None => args,
        };
        let args = chained(args, list1(commit2));
        assert(args.deep_view() =~= merge_args(commit2@, msg.deep_view(), global, more));
        let out = self.output(args)?;
        if out.success {
            Ok(AutomergeOutcome::Success(self.get_commit_sha1("HEAD")?))
        } else {
            self.abort_merge()?;
            Ok(AutomergeOutcome::Conflict)
        }
    }

    /// Starts a merge of `commit` that the user is to finish. A conflict is
    /// expected.
    pub fn manualmerge(&mut self, commit: &str, msg: &str) -> (r: Result<(), ImergeError>)
        ensures
            (final(self)@, res(r)) == old(self)@.manualmerge(commit@, msg@),
            old(self)@.grows_to(final(self)@),
    {
        self.run_loud(list5("merge", "--no-commit", "-m", msg, commit))?;
        Ok(())
    }

    /// Fails unless work tree and index are as in the current commit.
    pub fn require_clean_work_tree(&mut self, action: &str) -> (r: Result<(), ImergeError>)
        ensures
            (final(self)@, res(r)) == old(self)@.require_clean_work_tree(action@),
            old(self)@.grows_to(final(self)@),
    {
        let out = self.output(list3("rev-parse", "--verify", "HEAD"))?;
        if !out.success {
            return Err(ImergeError::UncleanWorkTree(trim(&out.stderr)));
        }
        self.refresh_index()?;
        let mut errors: Vec<String> = Vec::new();
        let unstaged = self.unstaged_changes()?;
        if unstaged {
            errors.push(cat3("Cannot ", action, ": You have unstaged changes."));
        }
        let uncommitted = self.uncommitted_changes()?;
        if uncommitted {
            if !unstaged {
                errors.push(
                    cat3("Cannot ", action, ": Your index contains uncommitted changes."),
                );
            } else {
                errors.push("Additionally, your index contains uncommitted changes.".to_owned());
            }
        }
        assert(errors.deep_view() =~= unclean(action@, unstaged, uncommitted));
        if errors.len() > 0 {
            return Err(ImergeError::UncleanWorkTree(join(&errors, "\n")));
        }
        Ok(())
    }

    /// Whether a merge of one commit waits to be finished.
    pub fn simple_merge_in_progress(&mut self) -> (r: Result<bool, ImergeError>)
        ensures
            (final(self)@, res(r)) == old(self)@.simple_merge_in_progress(),
            old(self)@.grows_to(final(self)@),
    {
        let git_dir = self.git_dir()?;
        match self.ask(Request::ReadMergeHead { git_dir })? {
            Reply::Text(contents) => Ok(lines(&contents).len() == 1),
            _ => Ok(false),
        }
    }

    /// Commits the merge that the user has resolved, if one is in progress, and
    /// says whether it did so.
    pub fn commit_user_merge(&mut self, edit_log_msg: Option<bool>) -> (r: Result<
        bool,
        ImergeError,
    >)
        ensures
            (final(self)@, res(r)) == old(self)@.commit_user_merge(edit_log_msg),
            old(self)@.grows_to(final(self)@),
    {
        if !self.simple_merge_in_progress()? {
            return Ok(false);
        }
        self.refresh_index()?;
        if self.unstaged_changes()? {
            return Err(
                ImergeError::UncleanWorkTree(
                    "Cannot proceed: You have unstaged changes.".to_owned(),
                ),
            );
        }
        let edit = match edit_log_msg {
            Some(edit) => edit,
            None => self.get_default_edit()?,
        };
        let choice = if edit {
            "--edit"
        } else {
            "--no-edit"
        };
        if self.run_loud(list3("commit", "--no-verify", choice))? {
            Ok(true)
        } else {
            failure("Could not commit staged changes.")
        }
    }

    /// Shows the user a summary of `commit`.
    pub fn summarize_commit(&mut self, commit: &str) -> (r: Result<(), ImergeError>)
        ensures
            (final(self)@, res(r)) == old(self)@.summarize_commit(commit@),
            old(self)@.grows_to(final(self)@),
    {
        self.run_loud_checked(list4("--no-pager", "log", "--no-walk", commit))
    }

    /// Points `refname` to `value`. Without `deref`, a symbolic ref itself is
    /// overwritten.
    pub fn update_ref(&mut self, refname: &str, value: &str, msg: &str, deref: bool) -> (r: Result<
        (),
        ImergeError,
    >)
        ensures
            (final(self)@, res(r)) == old(self)@.update_ref(refname@, value@, msg@, deref),
            old(self)@.grows_to(final(self)@),
            r is Ok ==> final(self)@.remaining() < old(self)@.remaining(),
    {
        let args = if deref {
            list5("update-ref", "-m", msg, refname, value)
        } else {
            list6("update-ref", "--no-deref", "-m", msg, refname, value)
        };
        self.run(args)?;
        Ok(())
    }

    /// Deletes `refname`.
    pub fn delete_ref(&mut self, refname: &str, msg: &str) -> (r: Result<(), ImergeError>)
        ensures
            (final(self)@, res(r)) == old(self)@.delete_ref(refname@, msg@),
            old(self)@.grows_to(final(self)@),
    {
        self.run(list5("update-ref", "-m", msg, "-d", refname))?;
        Ok(())
    }

    /// Leaves the current branch, but not the current commit.
    pub fn detach(&mut self, msg: &str) -> (r: Result<(), ImergeError>)
        ensures
            (final(self)@, res(r)) == old(self)@.detach(msg@),
            old(self)@.grows_to(final(self)@),
    {
        self.update_ref("HEAD", "HEAD^0", msg, false)
    }

    /// Makes index and work tree as in `commit`, or as in the current commit.
    pub fn reset_hard(&mut self, commit: Option<&str>) -> (r: Result<(), ImergeError>)
        ensures
            (final(self)@, res(r)) == old(self)@.reset_hard(commit.deep_view()),
            old(self)@.grows_to(final(self)@),
    {
        match commit {
            Some(c) => self.run_loud_checked(list3("reset", "--hard", c)),
            None => self.run_loud_checked(list2("reset", "--hard")),
        }
    }

    /// Lets the user amend the current commit.
    pub fn amend(&mut self) -> (r: Result<(), ImergeError>)
        ensures
            (final(self)@, res(r)) == old(self)@.amend(),
            old(self)@.grows_to(final(self)@),
    {
        self.run_loud_checked(list2("commit", "--amend"))
    }

    /// Gives up the merge in progress. That there is none is no error.
    pub fn abort_merge(&mut self) -> (r: Result<(), ImergeError>)
        ensures
            (final(self)@, res(r)) == old(self)@.abort_merge(),
            old(self)@.grows_to(final(self)@),
    {
        self.output(list2("reset", "--merge"))?;
        Ok(())
    }

    /// The branch that is checked out, if there is one.
    pub fn get_head_refname(&mut self, short: bool) -> (r: Result<Option<String>, ImergeError>)
        ensures
            (final(self)@, res(r)) == old(self)@.get_head_refname(short),
            old(self)@.grows_to(final(self)@),
    {
        let args = if short {
            list4("symbolic-ref", "--quiet", "--short", "HEAD")
        } else {
            list3("symbolic-ref", "--quiet", "HEAD")
        };
        match self.output(args) {
            Err(ImergeError::Suspended) => Err(ImergeError::Suspended),
            Err(_) => Ok(None),
            Ok(out) => if out.success {
                Ok(Some(trim(&out.stdout)))
            } else {
                Ok(None)
            },
        }
    }

    /// Checks `refname` out: a branch as such, anything else as a commit.
    pub fn checkout(&mut self, refname: &str, quiet: bool) -> (r: Result<(), ImergeError>)
        ensures
            (final(self)@, res(r)) == old(self)@.checkout(refname@, quiet),
            old(self)@.grows_to(final(self)@),
    {
        let target = match after_prefix(refname, BRANCH_PREFIX) {
            Some(short) => short,
            None => cat2(refname, "^0"),
        };
        let args = if quiet {
            list3("checkout", "--quiet", &target)
        } else {
            list2("checkout", &target)
        };
        self.run_loud_checked(args)
    }

    /// The parents of `commit`.
    pub fn get_commit_parents(&mut self, commit: &str) -> (r: Result<Vec<String>, ImergeError>)
        ensures
            (final(self)@, res(r)) == old(self)@.get_commit_parents(commit@),
            old(self)@.grows_to(final(self)@),
    {
        let out = self.run(
            list5("--no-pager", "log", "--no-walk", "--pretty=format:%P", commit),
        )?;
        Ok(words(&out))
    }

    /// Commits the opposite of `commit`. For a merge, its first parent is what is
    /// gone back to.
    pub fn revert(&mut self, commit: &str) -> (r: Result<(), ImergeError>)
        ensures
            (final(self)@, res(r)) == old(self)@.revert(commit@),
            old(self)@.grows_to(final(self)@),
    {
        let args = if self.get_commit_parents(commit)?.len() > 1 {
            list5("revert", "--no-edit", "-m", "1", commit)
        } else {
            list3("revert", "--no-edit", commit)
        };
        self.run_loud_checked(args)
    }

    /// Remembers what is checked out.
    pub fn temporary_head(&mut self, message: &str) -> (r: Result<TemporaryHead, ImergeError>)
        ensures
            (final(self)@, res(r)) == old(self)@.temporary_head(message@),
            old(self)@.grows_to(final(self)@),
    {
        let old_refname = self.get_head_refname(false)?;
        let old_sha1 = self.get_commit_sha1("HEAD")?;
        Ok(TemporaryHead { message: message.to_owned(), old_refname, old_sha1 })
    }

    /// Checks the branch `refname` out again.
    pub fn restore_head(&mut self, refname: &str, message: &str) -> (r: Result<(), ImergeError>)
        ensures
            (final(self)@, res(r)) == old(self)@.restore_head(refname@, message@),
            old(self)@.grows_to(final(self)@),
    {
        self.run(list5("symbolic-ref", "-m", message, "HEAD", refname))?;
        self.reset_hard(None)
    }
}

} // verus!
