//! What becomes of the commits after a commit that gets other parents.
use vstd::prelude::*;

use crate::cli::ReparentArgsView;
use crate::commands::{all_replaced, replaced};
use crate::history::history_of;
use crate::merging::current_commit;
use crate::outcome::{answer_at, commit_at};
use crate::outlining::{lemma_reparented, lemma_reparented_stays, reparented_at};
use crate::talk::{latest, lemma_grows, lemma_learns_nothing, MessageView, Talk};
use crate::text::{lines_of, without_line_feeds};
use crate::trace::{did, said};

verus! {

broadcast use lemma_grows, lemma_learns_nothing;

/// The new version of a commit, by the list of the new versions so far: the last one in
/// the list, or the commit itself if it has none.
pub open spec fn is_version(news: Seq<(Seq<char>, Seq<char>)>, commit: Seq<char>, new: Seq<char>) -> bool {
    ||| exists|i: int|
        {
            &&& 0 <= i < news.len()
            &&& #[trigger] news[i] == (commit, new)
            &&& forall|j: int| i < j < news.len() ==> (#[trigger] news[j]).0 != commit
        }
    ||| new == commit && forall|i: int| 0 <= i < news.len() ==> (#[trigger] news[i]).0 != commit
}

/// The parents of the new version are the new versions of the parents.
pub open spec fn are_versions(
    news: Seq<(Seq<char>, Seq<char>)>,
    parents: Seq<Seq<char>>,
    new_parents: Seq<Seq<char>>,
) -> bool {
    &&& parents.len() == new_parents.len()
    &&& forall|i: int|
        0 <= i < parents.len() ==> is_version(news, parents[i], #[trigger] new_parents[i])
}

proof fn lemma_version(news: Seq<(Seq<char>, Seq<char>)>, commit: Seq<char>)
    ensures
        is_version(news, commit, replaced(news, commit)),
        latest(news, commit) is Some ==> exists|i: int|
            0 <= i < news.len() && (#[trigger] news[i]).0 == commit,
    decreases news.len(),
{
    if news.len() > 0 {
        let front = news.drop_last();
        let last = news.last();
        assert(news[news.len() - 1] == last);
        lemma_version(front, commit);
        assert forall|i: int| 0 <= i < front.len() implies news[i] == #[trigger] front[i] by {}
        if last.0 == commit {
            assert(news[news.len() - 1] == (commit, last.1));
        } else {
            let new = replaced(front, commit);
            assert(replaced(news, commit) == new);
            if exists|i: int|
                {
                    &&& 0 <= i < front.len()
                    &&& #[trigger] front[i] == (commit, new)
                    &&& forall|j: int| i < j < front.len() ==> (#[trigger] front[j]).0 != commit
                } {
                let i = choose|i: int|
                    {
                        &&& 0 <= i < front.len()
                        &&& #[trigger] front[i] == (commit, new)
                        &&& forall|j: int| i < j < front.len() ==> (#[trigger] front[j]).0 != commit
                    };
                assert(news[i] == (commit, new));
                assert forall|j: int| i < j < news.len() implies (#[trigger] news[j]).0 != commit by {
                    if j < front.len() {
                        assert(front[j].0 != commit);
                    }
                }
            } else {
                assert forall|i: int| 0 <= i < news.len() implies (#[trigger] news[i]).0 != commit by {
                    if i < front.len() {
                        assert(front[i].0 != commit);
                    }
                }
            }
            if latest(news, commit) is Some {
                let i = choose|i: int| 0 <= i < front.len() && (#[trigger] front[i]).0 == commit;
                assert(news[i].0 == commit);
            }
        }
    }
}

/// The commit at place `i` of the list was written once more, with the new versions of
/// its parents.
pub open spec fn is_renewed(
    t: Talk,
    k: int,
    commits: Seq<(Seq<char>, Seq<Seq<char>>)>,
    news: Seq<(Seq<char>, Seq<char>)>,
    i: int,
) -> bool {
    &&& news[i + 1].0 == commits[i].0
    &&& exists|parents: Seq<Seq<char>>| #[trigger]
        are_versions(news.take(i + 1), commits[i].1, parents) && reparented_at(
            t,
            k + 2 * i,
            commits[i].0,
            parents,
            news[i + 1].1,
        )
}

proof fn lemma_renewed(
    g: Talk,
    start: int,
    commits: Seq<(Seq<char>, Seq<Seq<char>>)>,
    k: nat,
    news: Seq<(Seq<char>, Seq<char>)>,
)
    requires
        k <= commits.len(),
        news.len() == k + 1,
        g.asked.len() == start + 2 * k,
        0 <= start,
        forall|i: int| 0 <= i < k ==> #[trigger] is_renewed(g, start, commits, news, i),
    ensures
        g.reparent_all(commits, k, news) matches (t, Ok(all)) ==> {
            &&& g.grows_to(t)
            &&& all.len() == commits.len() + 1
            &&& all[0] == news[0]
            &&& forall|i: int|
                0 <= i < commits.len() ==> #[trigger] is_renewed(t, start, commits, all, i)
        },
    decreases commits.len() - k,
{
    if k < commits.len() {
        let (commit, parents) = commits[k as int];
        let new_parents = all_replaced(news, parents);
        lemma_reparented(g, commit, new_parents);
        let (h, r) = g.reparent(commit, new_parents, None);
        if let Ok(sha1) = r {
            let more = news.push((commit, sha1));
            assert(are_versions(news, parents, new_parents)) by {
                assert forall|i: int| 0 <= i < parents.len() implies is_version(
                    news,
                    parents[i],
                    #[trigger] new_parents[i],
                ) by {
                    lemma_version(news, parents[i]);
                }
            }
            assert forall|i: int| 0 <= i < k + 1 implies #[trigger] is_renewed(
                h,
                start,
                commits,
                more,
                i,
            ) by {
                if i < k {
                    assert(is_renewed(g, start, commits, news, i));
                    assert(more.take(i + 1) =~= news.take(i + 1));
                    assert(more[i + 1] == news[i + 1]);
                    let p = choose|p: Seq<Seq<char>>| #[trigger]
                        are_versions(news.take(i + 1), commits[i].1, p) && reparented_at(
                            g,
                            start + 2 * i,
                            commits[i].0,
                            p,
                            news[i + 1].1,
                        );
                    lemma_reparented_stays(g, h, start + 2 * i, commits[i].0, p, news[i + 1].1);
                    assert(are_versions(more.take(i + 1), commits[i].1, p));
                } else {
                    assert(more.take(i + 1) =~= news);
                    assert(are_versions(more.take(i + 1), commits[i].1, new_parents));
                }
            }
            lemma_renewed(h, start, commits, k + 1, more);
            if h.reparent_all(commits, k + 1, more).1 is Ok {
                assert(more[0] == news[0]);
            }
        }
    }
}

/// A commit gets other parents, and so does all that comes after it up to the current
/// commit: first the commit itself is written once more with the given parents; every
/// commit that `git` lists after it is written once more with the new versions of its
/// parents, in the order of the list. The new version of the current commit is printed.
pub proof fn law_reparenting_renews_what_follows(g: Talk, args: ReparentArgsView) -> (r: (
    Seq<Seq<char>>,
    Seq<(Seq<char>, Seq<char>)>,
))
    ensures
        g.cmd_reparent(args) matches (t, Ok(_)) ==> {
            let k = g.asked.len() as int;
            let n = args.parents.len() as int;
            let (parents, news) = r;
            let start = answer_at(t, k)->0;
            let head = answer_at(t, k + 1)->0;
            let commits = history_of(lines_of(without_line_feeds(said(t, k + n + 4))));
            &&& did(t, k, commit_at(args.commit))
            &&& did(t, k + 1, current_commit())
            &&& parents.len() == n
            &&& forall|i: int|
                0 <= i < n ==> #[trigger] is_named(t, k + 2 + i, args.parents[i], parents[i])
            &&& news.len() == commits.len() + 1
            &&& news[0].0 == start
            &&& reparented_at(t, k + n + 2, start, parents, news[0].1)
            &&& did(
                t,
                k + n + 4,
                seq![
                    "log"@,
                    "--format=%H %P"@,
                    "--ancestry-path"@,
                    "--topo-order"@,
                    "--reverse"@,
                    start + ".."@ + head,
                ],
            )
            &&& forall|i: int|
                0 <= i < commits.len() ==> #[trigger] is_renewed(t, k + n + 5, commits, news, i)
            &&& exists|new_head: Seq<char>|
                {
                    &&& #[trigger] is_version(news, head, new_head)
                    &&& t.told == g.told.push(MessageView::Stdout(new_head + "\n"@))
                }
        },
{
    reveal(Talk::cmd_reparent);
    reveal_strlit("HEAD");
    reveal_strlit("^{commit}");
    reveal_strlit("HEAD^{commit}");
    assert(crate::git::as_commit("HEAD"@) =~= "HEAD^{commit}"@);
    let k = g.asked.len() as int;
    let n = args.parents.len() as int;
    let (g1, r1) = g.get_commit_sha1(args.commit);
    let (g2, r2) = g1.get_commit_sha1("HEAD"@);
    let (g3, r3) = g2.commits_named(args.parents, 0, Seq::empty());
    if r1 is Ok && r2 is Ok && r3 is Ok {
        let start = r1->Ok_0;
        let head = r2->Ok_0;
        let parents = r3->Ok_0;
        assert(g.grows_to(g1) && g1.grows_to(g2));
        assert(g2.asked.len() == k + 2 && g2.told == g.told);
        lemma_named(g2, args.parents, 0, Seq::empty());
        lemma_reparented(g3, start, parents);
        let (g4, r4) = g3.reparent(start, parents, None);
        if let Ok(first) = r4 {
            let range = seq!["--ancestry-path"@, "--topo-order"@, "--reverse"@, start + ".."@ + head];
            assert(seq!["log"@, "--format=%H %P"@] + range =~= seq![
                "log"@,
                "--format=%H %P"@,
                "--ancestry-path"@,
                "--topo-order"@,
                "--reverse"@,
                start + ".."@ + head,
            ]);
            let (g5, r5) = g4.rev_list_with_parents(range);
            if let Ok(commits) = r5 {
                assert(g4.grows_to(g5));
                let news = seq![(start, first)];
                lemma_renewed(g5, k + n + 5, commits, 0, news);
                lemma_told_nothing(g5, commits, 0, news);
                let (g6, r6) = g5.reparent_all(commits, 0, news);
                if let Ok(all) = r6 {
                    if let (t, Ok(_)) = g.cmd_reparent(args) {
                        lemma_version(all, head);
                        let new_head = replaced(all, head);
                        assert(g6.grows_to(t));
                        assert(is_version(all, head, new_head));
                        lemma_reparented_stays(g4, t, k + n + 2, start, parents, first);
                        lemma_renewed_stays(g6, t, k + n + 5, commits, all);
                        assert forall|i: int| 0 <= i < n implies #[trigger] is_named(
                            t,
                            k + 2 + i,
                            args.parents[i],
                            parents[i],
                        ) by {
                            assert(is_named(g3, k + 2 + (i - 0), args.parents[i], parents[i]));
                        }
                    }
                    (parents, all)
                } else {
                    (parents, news)
                }
            } else {
                (parents, Seq::empty())
            }
        } else {
            (parents, Seq::empty())
        }
    } else {
        (Seq::empty(), Seq::empty())
    }
}

/// At `k` it was asked which commit `name` stands for.
pub open spec fn is_named(t: Talk, k: int, name: Seq<char>, commit: Seq<char>) -> bool {
    did(t, k, commit_at(name)) && answer_at(t, k) == Some(commit)
}

proof fn lemma_named(g: Talk, names: Seq<Seq<char>>, k: nat, found: Seq<Seq<char>>)
    requires
        k <= names.len(),
        found.len() == k,
    ensures
        g.commits_named(names, k, found) matches (t, Ok(all)) ==> {
            let from = g.asked.len() as int;
            &&& g.grows_to(t)
            &&& t.told == g.told
            &&& t.asked.len() == from + names.len() - k
            &&& all.len() == names.len()
            &&& forall|i: int| 0 <= i < k ==> all[i] == found[i]
            &&& forall|i: int|
                k <= i < names.len() ==> #[trigger] is_named(t, from + (i - k), names[i], all[i])
        },
    decreases names.len() - k,
{
    if k < names.len() {
        let from = g.asked.len() as int;
        let (h, r) = g.get_commit_sha1(names[k as int]);
        if let Ok(sha1) = r {
            assert(g.grows_to(h));
            assert(is_named(h, from, names[k as int], sha1));
            let more = found.push(sha1);
            lemma_named(h, names, k + 1, more);
            if let (t, Ok(all)) = h.commits_named(names, k + 1, more) {
                assert(all[k as int] == more[k as int]);
                assert forall|i: int| 0 <= i < k implies all[i] == found[i] by {
                    assert(all[i] == more[i]);
                }
                assert forall|i: int| k <= i < names.len() implies #[trigger] is_named(
                    t,
                    from + (i - k),
                    names[i],
                    all[i],
                ) by {
                    if i > k {
                        assert(is_named(t, from + 1 + (i - (k + 1)), names[i], all[i]));
                    }
                }
            }
        }
    }
}

proof fn lemma_told_nothing(
    g: Talk,
    commits: Seq<(Seq<char>, Seq<Seq<char>>)>,
    k: nat,
    news: Seq<(Seq<char>, Seq<char>)>,
)
    ensures
        g.reparent_all(commits, k, news).0.told == g.told,
    decreases commits.len() - k,
{
    if k < commits.len() {
        let (commit, parents) = commits[k as int];
        let (h, r) = g.reparent(commit, all_replaced(news, parents), None);
        if let Ok(sha1) = r {
            lemma_told_nothing(h, commits, k + 1, news.push((commit, sha1)));
        }
    }
}

proof fn lemma_renewed_stays(
    g: Talk,
    t: Talk,
    k: int,
    commits: Seq<(Seq<char>, Seq<Seq<char>>)>,
    news: Seq<(Seq<char>, Seq<char>)>,
)
    requires
        g.grows_to(t),
        forall|i: int| 0 <= i < commits.len() ==> #[trigger] is_renewed(g, k, commits, news, i),
    ensures
        forall|i: int| 0 <= i < commits.len() ==> #[trigger] is_renewed(t, k, commits, news, i),
{
    assert forall|i: int| 0 <= i < commits.len() implies #[trigger] is_renewed(
        t,
        k,
        commits,
        news,
        i,
    ) by {
        assert(is_renewed(g, k, commits, news, i));
        let p = choose|p: Seq<Seq<char>>| #[trigger]
            are_versions(news.take(i + 1), commits[i].1, p) && reparented_at(
                g,
                k + 2 * i,
                commits[i].0,
                p,
                news[i + 1].1,
            );
        lemma_reparented_stays(g, t, k + 2 * i, commits[i].0, p, news[i + 1].1);
    }
}

} // verus!
