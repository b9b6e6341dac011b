//! What the library asks of the world outside, and what it is told.
//!
//! The library starts no process and touches no file. An operation that needs
//! the `git` program is a function of the replies that it has been given so
//! far: it runs until it needs a reply that is not there, and then ends with
//! [`crate::error::ImergeError::Suspended`]. The caller carries out the last
//! request, adds the reply and runs the operation again from the start. It makes the
//! same requests again and goes on from there; the module [`crate::replay`] shows
//! that.
use vstd::prelude::*;

use crate::error::ErrorView;
use crate::state::{StateDict, StateDictView};
use crate::text::{without_line_feeds, words_of};

verus! {

/// Names and values of environment variables for one `git` command.
pub type CommitMetadata = Vec<(String, String)>;

/// Something that only the caller can do.
#[derive(Debug)]
pub enum Request {
    /// Run `git` with these arguments. `stdin` is written to it, `env` is added
    /// to its environment. A loud command shares the terminal with the user, and
    /// only its success is looked at.
    Git {
        args: Vec<String>,
        stdin: Option<String>,
        env: Option<CommitMetadata>,
        loud: bool,
    },
    /// Read the file `MERGE_HEAD` in this directory.
    ReadMergeHead { git_dir: String },
    /// Make an empty file that can serve as an attributes file; its path is the
    /// reply.
    EmptyAttributesFile,
    /// Write the state as JSON; the text is the reply.
    EncodeState(StateDict),
    /// Read the state from JSON.
    DecodeState(String),
    /// Write this file.
    WriteFile { path: String, contents: String },
}

/// The content of a [`Request`].
pub enum RequestView {
    Git {
        args: Seq<Seq<char>>,
        stdin: Option<Seq<char>>,
        env: Option<Seq<(Seq<char>, Seq<char>)>>,
        loud: bool,
    },
    ReadMergeHead { git_dir: Seq<char> },
    EmptyAttributesFile,
    EncodeState(StateDictView),
    DecodeState(Seq<char>),
    WriteFile { path: Seq<char>, contents: Seq<char> },
}

impl DeepView for Request {
    type V = RequestView;

    open spec fn deep_view(&self) -> RequestView {
        match self {
            Request::Git { args, stdin, env, loud } => RequestView::Git {
                args: args.deep_view(),
                stdin: stdin.deep_view(),
                env: env.deep_view(),
                loud: *loud,
            },
            Request::ReadMergeHead { git_dir } => RequestView::ReadMergeHead { git_dir: git_dir@ },
            Request::EmptyAttributesFile => RequestView::EmptyAttributesFile,
            Request::EncodeState(s) => RequestView::EncodeState(s.deep_view()),
            Request::DecodeState(t) => RequestView::DecodeState(t@),
            Request::WriteFile { path, contents } => RequestView::WriteFile {
                path: path@,
                contents: contents@,
            },
        }
    }
}

/// How a `git` command ended.
#[derive(Debug)]
pub struct Output {
    pub success: bool,
    pub stdout: String,
    pub stderr: String,
}

/// The content of an [`Output`].
pub struct OutputView {
    pub success: bool,
    pub stdout: Seq<char>,
    pub stderr: Seq<char>,
}

impl DeepView for Output {
    type V = OutputView;

    open spec fn deep_view(&self) -> OutputView {
        OutputView { success: self.success, stdout: self.stdout@, stderr: self.stderr@ }
    }
}

/// What came of a [`Request`].
#[derive(Debug)]
pub enum Reply {
    /// The command ran.
    Output(Output),
    /// The text that was asked for.
    Text(String),
    /// The state that was asked for.
    State(StateDict),
    /// The request could not be carried out.
    Refused(String),
    /// The command was started, but talking to it failed.
    Broken(String),
}

/// The content of a [`Reply`].
pub enum ReplyView {
    Output(OutputView),
    Text(Seq<char>),
    State(StateDictView),
    Refused(Seq<char>),
    Broken(Seq<char>),
}

impl DeepView for Reply {
    type V = ReplyView;

    open spec fn deep_view(&self) -> ReplyView {
        match self {
            Reply::Output(o) => ReplyView::Output(o.deep_view()),
            Reply::Text(t) => ReplyView::Text(t@),
            Reply::State(s) => ReplyView::State(s.deep_view()),
            Reply::Refused(t) => ReplyView::Refused(t@),
            Reply::Broken(t) => ReplyView::Broken(t@),
        }
    }
}

impl Reply {
    /// A copy of the reply.
    pub fn copy(&self) -> (r: Reply)
        ensures
            r.deep_view() == self.deep_view(),
    {
        match self {
            Reply::Output(o) => Reply::Output(
                Output { success: o.success, stdout: o.stdout.clone(), stderr: o.stderr.clone() },
            ),
            Reply::Text(t) => Reply::Text(t.clone()),
            Reply::State(s) => Reply::State(s.copy()),
            Reply::Refused(t) => Reply::Refused(t.clone()),
            Reply::Broken(t) => Reply::Broken(t.clone()),
        }
    }
}

/// Something that the user is told.
#[derive(Debug)]
pub enum Message {
    /// Text for standard output.
    Stdout(String),
    /// Text for standard error.
    Stderr(String),
}

/// The content of a [`Message`].
pub enum MessageView {
    Stdout(Seq<char>),
    Stderr(Seq<char>),
}

impl DeepView for Message {
    type V = MessageView;

    open spec fn deep_view(&self) -> MessageView {
        match self {
            Message::Stdout(t) => MessageView::Stdout(t@),
            Message::Stderr(t) => MessageView::Stderr(t@),
        }
    }
}

/// An operation's exchange with the world outside: the replies that it was given,
/// the requests that it has made and the messages it has left, in order. The
/// reply to a request stands at the same place as the request. `patch_ids` are
/// the patch ids that are known already.
#[verifier::ext_equal]
pub struct Talk {
    pub replies: Seq<ReplyView>,
    pub asked: Seq<RequestView>,
    pub told: Seq<MessageView>,
    pub patch_ids: Seq<(Seq<char>, Option<Seq<char>>)>,
}

/// The empty tree, which every git repository has. It stands in for the parent
/// of a root commit.
pub const EMPTY_TREE_SHA1: &'static str = "4b825dc642cb6eb9a060e54bf8d69288fbee4904";

/// The value that was entered last for `key`.
pub open spec fn latest<V>(entries: Seq<(Seq<char>, V)>, key: Seq<char>) -> Option<V>
    decreases entries.len(),
{
    if entries.len() == 0 {
        None
    } else if entries.last().0 == key {
        Some(entries.last().1)
    } else {
        latest(entries.drop_last(), key)
    }
}

/// What an exchange comes to: the exchange so far, and a value or an error.
pub type Told<T> = (Talk, Result<T, ErrorView>);

impl Talk {
    /// Whether the last request has no reply yet.
    pub open spec fn waiting(self) -> bool {
        self.asked.len() > self.replies.len()
    }

    /// How many replies have not been used yet.
    pub open spec fn remaining(self) -> nat {
        if self.asked.len() <= self.replies.len() {
            (self.replies.len() - self.asked.len()) as nat
        } else {
            0
        }
    }

    /// The exchange after one more request, and its reply if there is one. While
    /// a request waits for its reply no other is made.
    pub open spec fn ask(self, r: RequestView) -> Told<ReplyView> {
        if self.waiting() {
            (self, Err(ErrorView::Suspended))
        } else {
            let next = Talk { asked: self.asked.push(r), ..self };
            if next.waiting() {
                (next, Err(ErrorView::Suspended))
            } else {
                (next, Ok(self.replies[self.asked.len() as int]))
            }
        }
    }

    /// The exchange after some text on standard error.
    pub open spec fn tell(self, text: Seq<char>) -> Talk {
        Talk { told: self.told.push(MessageView::Stderr(text)), ..self }
    }

    /// The exchange after a line on standard error.
    pub open spec fn note(self, line: Seq<char>) -> Talk {
        self.tell(line + "\n"@)
    }

    /// The exchange after a line on standard output.
    pub open spec fn print(self, line: Seq<char>) -> Talk {
        self.write(line + "\n"@)
    }

    /// The exchange after some text on standard output.
    pub open spec fn write(self, text: Seq<char>) -> Talk {
        Talk { told: self.told.push(MessageView::Stdout(text)), ..self }
    }

    /// `later` continues this exchange: the replies are the same, nothing that was
    /// asked or told is taken back, and no patch id is forgotten.
    pub open spec fn grows_to(self, later: Talk) -> bool {
        &&& later.replies == self.replies
        &&& self.asked.len() <= later.asked.len()
        &&& self.told.len() <= later.told.len()
        &&& forall|i: int|
            0 <= i < self.asked.len() ==> #[trigger] later.asked[i] == self.asked[i]
        &&& forall|i: int| 0 <= i < self.told.len() ==> #[trigger] later.told[i] == self.told[i]
        &&& self.learns(later)
    }

    /// The patch ids that `later` knows are those that this exchange knows, and
    /// others that were asked for on the way.
    #[verifier::opaque]
    pub open spec fn learns(self, later: Talk) -> bool {
        forall|commit: Seq<char>| #[trigger] self.learns_id(later, commit)
    }

    /// A patch id that is known stays so, and one that is new in `later` was found
    /// there.
    pub open spec fn learns_id(self, later: Talk, commit: Seq<char>) -> bool {
        match latest(self.patch_ids, commit) {
            Some(id) => latest(later.patch_ids, commit) == Some(id),
            None => latest(later.patch_ids, commit) matches Some(id) ==> later.finds_id(commit, id),
        }
    }

    /// Some requests of this exchange found the patch id of `commit`.
    pub open spec fn finds_id(self, commit: Seq<char>, id: Option<Seq<char>>) -> bool {
        exists|k: int| #[trigger] self.finds_id_at(k, commit, id)
    }

    /// The requests from the one at `k` on found the patch id of `commit`. A commit
    /// with several parents has none. For any other it is the first word that
    /// `git patch-id --stable` prints for the difference to its parent, or to the
    /// empty tree if it has no parent; there is none if nothing is printed.
    pub open spec fn finds_id_at(self, k: int, commit: Seq<char>, id: Option<Seq<char>>) -> bool {
        let parents = words_of(without_line_feeds(self.printed(k)));
        let base = if parents.len() == 0 {
            EMPTY_TREE_SHA1@
        } else {
            parents[0]
        };
        let words = words_of(without_line_feeds(self.printed(k + 2)));
        &&& self.ran(
            k,
            seq!["--no-pager"@, "log"@, "--no-walk"@, "--pretty=format:%P"@, commit],
            None,
        )
        &&& if parents.len() > 1 {
            id is None
        } else {
            &&& self.ran(k + 1, seq!["diff"@, base, commit], None)
            &&& self.ran(k + 2, seq!["patch-id"@, "--stable"@], Some(self.printed(k + 1)))
            &&& id == if words.len() == 0 {
                None
            } else {
                Some(words[0])
            }
        }
    }

    /// The request at `k` was this `git` command, and it ended well.
    pub open spec fn ran(self, k: int, args: Seq<Seq<char>>, stdin: Option<Seq<char>>) -> bool {
        &&& 0 <= k < self.asked.len()
        &&& k < self.replies.len()
        &&& self.asked[k] == (RequestView::Git { args, stdin, env: None, loud: false })
        &&& self.replies[k] matches ReplyView::Output(o) && o.success
    }

    /// What the command at `k` printed.
    pub open spec fn printed(self, k: int) -> Seq<char> {
        self.replies[k]->Output_0.stdout
    }

    /// The exchange with one more reply at hand.
    pub open spec fn with_reply(self, more: ReplyView) -> Talk {
        Talk { replies: self.replies.push(more), ..self }
    }

    /// All that was asked and told so far was asked and told in `later`, too.
    pub open spec fn leads_to(self, later: Talk) -> bool {
        &&& self.asked.len() <= later.asked.len()
        &&& self.told.len() <= later.told.len()
        &&& forall|i: int|
            0 <= i < self.asked.len() ==> #[trigger] later.asked[i] == self.asked[i]
        &&& forall|i: int| 0 <= i < self.told.len() ==> #[trigger] later.told[i] == self.told[i]
    }
}

/// Continuing a continued exchange continues it.
pub broadcast proof fn lemma_grows(a: Talk, b: Talk, c: Talk)
    requires
        #[trigger] a.grows_to(b),
        #[trigger] b.grows_to(c),
    ensures
        a.grows_to(c),
{
    reveal(Talk::learns);
    assert forall|commit: Seq<char>| #[trigger] a.learns_id(c, commit) by {
        assert(a.learns_id(b, commit) && b.learns_id(c, commit));
        if let Some(id) = latest(b.patch_ids, commit) {
            if latest(a.patch_ids, commit) is None {
                let k = choose|k: int| #[trigger] b.finds_id_at(k, commit, id);
                assert(c.finds_id_at(k, commit, id));
            }
        }
    }
}

/// An exchange that asks for no patch id learns none.
pub broadcast proof fn lemma_learns_nothing(a: Talk, b: Talk)
    requires
        a.patch_ids == b.patch_ids,
    ensures
        #[trigger] a.learns(b),
{
    reveal(Talk::learns);
}

/// What was asked and told stays so while an exchange grows.
pub broadcast proof fn lemma_leads(a: Talk, b: Talk, c: Talk)
    requires
        #[trigger] a.leads_to(b),
        #[trigger] b.grows_to(c),
    ensures
        a.leads_to(c),
{
}

} // verus!
