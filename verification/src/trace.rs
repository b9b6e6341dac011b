//! What an exchange shows: which `git` commands ran, and what they printed.
//!
//! The laws about whole operations are stated in these words. A command stands here
//! as the user would type it.
use vstd::prelude::*;

use crate::talk::{ReplyView, RequestView, Talk};

verus! {

/// The request at `k` is this `git` command.
pub open spec fn asks(
    t: Talk,
    k: int,
    args: Seq<Seq<char>>,
    stdin: Option<Seq<char>>,
    env: Option<Seq<(Seq<char>, Seq<char>)>>,
    loud: bool,
) -> bool {
    0 <= k < t.asked.len() && t.asked[k] == (RequestView::Git { args, stdin, env, loud })
}

/// The command at `k` has ended, well or not.
pub open spec fn ended(t: Talk, k: int, success: bool) -> bool {
    0 <= k < t.replies.len() && (t.replies[k] matches ReplyView::Output(o) && o.success == success)
}

/// The request at `k` is this `git` command, which ended well.
pub open spec fn did(t: Talk, k: int, args: Seq<Seq<char>>) -> bool {
    asks(t, k, args, None, None, false) && ended(t, k, true)
}

/// The request at `k` is this `git` command, which did not end well.
pub open spec fn failed(t: Talk, k: int, args: Seq<Seq<char>>) -> bool {
    asks(t, k, args, None, None, false) && ended(t, k, false)
}

/// The request at `k` is this `git` command, run on the terminal, which ended well.
pub open spec fn did_loud(t: Talk, k: int, args: Seq<Seq<char>>) -> bool {
    asks(t, k, args, None, None, true) && ended(t, k, true)
}

/// What the command at `k` printed.
pub open spec fn said(t: Talk, k: int) -> Seq<char> {
    t.replies[k]->Output_0.stdout
}

/// The command looks at something, or checks out, merges or writes commits. It changes
/// neither a ref below `refs/imerge/` nor a setting.
pub open spec fn is_harmless(args: Seq<Seq<char>>) -> bool {
    &&& args.len() > 0
    &&& {
        ||| args[0] == "-c"@ || args[0] == "checkout"@ || args[0] == "reset"@
        ||| args[0] == "revert"@ || args[0] == "hash-object"@ || args[0] == "cat-file"@
        ||| args[0] == "rev-parse"@ || args[0] == "rev-list"@ || args[0] == "log"@
        ||| args[0] == "--no-pager"@ || args[0] == "diff"@ || args[0] == "diff-files"@
        ||| args[0] == "diff-index"@ || args[0] == "patch-id"@ || args[0] == "merge-base"@
        ||| args[0] == "for-each-ref"@ || args[0] == "check-ref-format"@
        ||| args[0] == "update-index"@
        ||| args[0] == "symbolic-ref"@ && args.len() > 1 && args[1] == "--quiet"@
    }
}

/// The request is harmless.
pub open spec fn is_work(r: RequestView) -> bool {
    match r {
        RequestView::Git { args, .. } => is_harmless(args),
        RequestView::EmptyAttributesFile => true,
        _ => false,
    }
}

/// From `g` to `t` every request is harmless.
#[verifier::opaque]
pub open spec fn works(g: Talk, t: Talk) -> bool {
    &&& g.asked.len() <= t.asked.len()
    &&& forall|k: int| 0 <= k < g.asked.len() ==> #[trigger] t.asked[k] == g.asked[k]
    &&& forall|k: int| g.asked.len() <= k < t.asked.len() ==> is_work(#[trigger] t.asked[k])
}

pub broadcast proof fn works_on(a: Talk, b: Talk, c: Talk)
    requires
        #[trigger] works(a, b),
        #[trigger] works(b, c),
    ensures
        works(a, c),
{
    reveal(works);
    assert forall|k: int| a.asked.len() <= k < c.asked.len() implies is_work(
        #[trigger] c.asked[k],
    ) by {
        if k < b.asked.len() {
            assert(c.asked[k] == b.asked[k]);
        }
    }
}

pub broadcast proof fn works_same(a: Talk, b: Talk)
    requires
        a.asked == b.asked,
    ensures
        #[trigger] works(a, b),
{
    reveal(works);
}

pub broadcast proof fn works_call(
    g: Talk,
    args: Seq<Seq<char>>,
    stdin: Option<Seq<char>>,
    env: Option<Seq<(Seq<char>, Seq<char>)>>,
    loud: bool,
)
    ensures
        is_harmless(args) ==> works(g, (#[trigger] g.call(args, stdin, env, loud)).0),
{
    reveal(works);
}

} // verus!
