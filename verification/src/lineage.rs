//! Which commits a branch brings.
//!
//! The laws here say what is made of the history that `git` prints: the commits from
//! the merge base to a tip, one after the other, oldest first.
use vstd::prelude::*;

use crate::git::count_in;
use crate::history::{chain, history_of, included, parents_in};
use crate::outcome::answer_at;
use crate::talk::{latest, lemma_grows, lemma_learns_nothing, Talk};
use crate::text::{lines_of, without_line_feeds, words_of};
use crate::trace::{did, said};

verus! {

broadcast use lemma_grows, lemma_learns_nothing;

/// One of the lines holds a commit and its parents.
pub open spec fn is_printed(
    lines: Seq<Seq<char>>,
    commit: Seq<char>,
    parents: Seq<Seq<char>>,
) -> bool {
    exists|i: int|
        0 <= i < lines.len() && words_of(#[trigger] lines[i]).len() > 0 && words_of(lines[i])[0]
            == commit && words_of(lines[i]).skip(1) == parents
}

/// The commit is where the history starts, or one of the lines holds it.
pub open spec fn is_listed(lines: Seq<Seq<char>>, start: Seq<char>, commit: Seq<char>) -> bool {
    commit == start || exists|parents: Seq<Seq<char>>| #[trigger]
        is_printed(lines, commit, parents)
}

/// `older` is the parent of `newer` that is listed: the first one, or the only one.
pub open spec fn is_child(
    lines: Seq<Seq<char>>,
    start: Seq<char>,
    older: Seq<char>,
    newer: Seq<char>,
    first_parent: bool,
) -> bool {
    exists|parents: Seq<Seq<char>>, p: int|
        {
            &&& #[trigger] is_printed(lines, newer, parents)
            &&& 0 <= p < parents.len()
            &&& #[trigger] parents[p] == older
            &&& is_listed(lines, start, older)
            &&& forall|q: int|
                0 <= q < parents.len() && q != p && (q < p || !first_parent) ==> !is_listed(
                    lines,
                    start,
                    #[trigger] parents[q],
                )
        }
}

/// The commits lead from `start` to `end`, oldest first: each is the child of the one
/// before it, and the first that of `start`.
pub open spec fn is_lineage(
    lines: Seq<Seq<char>>,
    start: Seq<char>,
    end: Seq<char>,
    first_parent: bool,
    commits: Seq<Seq<char>>,
) -> bool {
    &&& commits.len() == 0 <==> start == end
    &&& commits.len() > 0 ==> commits.last() == end
    &&& forall|i: int|
        0 <= i < commits.len() ==> is_child(
            lines,
            start,
            if i == 0 {
                start
            } else {
                commits[i - 1]
            },
            #[trigger] commits[i],
            first_parent,
        )
}

/// Only the lines make entries.
proof fn lemma_entries(lines: Seq<Seq<char>>, start: Seq<char>, commit: Seq<char>)
    ensures
        ({
            let entries = seq![(start, Seq::<Seq<char>>::empty())] + history_of(lines);
            &&& latest(entries, commit) is Some <==> is_listed(lines, start, commit)
            &&& commit != start ==> (latest(entries, commit) matches Some(parents) ==> is_printed(
                lines,
                commit,
                parents,
            ))
        }),
    decreases lines.len(),
{
    let list = history_of(lines);
    let entries = seq![(start, Seq::<Seq<char>>::empty())] + list;
    if lines.len() == 0 {
        assert(entries =~= seq![(start, Seq::<Seq<char>>::empty())]);
        assert(entries.last() == (start, Seq::<Seq<char>>::empty()));
        assert(entries.drop_last() =~= Seq::empty());
        assert(latest(entries.drop_last(), commit) is None);
        assert forall|parents: Seq<Seq<char>>| !#[trigger] is_printed(lines, commit, parents) by {}
    } else {
        let front = lines.drop_last();
        let w = words_of(lines.last());
        let before = seq![(start, Seq::<Seq<char>>::empty())] + history_of(front);
        lemma_entries(front, start, commit);
        assert forall|parents: Seq<Seq<char>>| is_printed(front, commit, parents) implies
            #[trigger] is_printed(lines, commit, parents) by {
            let i = choose|i: int|
                0 <= i < front.len() && words_of(#[trigger] front[i]).len() > 0 && words_of(
                    front[i],
                )[0] == commit && words_of(front[i]).skip(1) == parents;
            assert(lines[i] == front[i]);
        }
        if w.len() == 0 {
            assert(entries =~= before);
        } else {
            assert(entries =~= before.push((w[0], w.skip(1))));
            assert(entries.last() == (w[0], w.skip(1)));
            assert(entries.drop_last() =~= before);
            if w[0] == commit {
                assert(lines[lines.len() - 1] == lines.last());
                assert(is_printed(lines, commit, w.skip(1)));
            }
        }
        if commit != start && latest(entries, commit) is Some {
            let parents = latest(entries, commit)->0;
            assert(is_printed(front, commit, parents) ==> is_printed(lines, commit, parents));
            assert(is_printed(lines, commit, parents));
        }
        if is_listed(lines, start, commit) && commit != start {
            let parents = choose|parents: Seq<Seq<char>>| #[trigger]
                is_printed(lines, commit, parents);
            let i = choose|i: int|
                0 <= i < lines.len() && words_of(#[trigger] lines[i]).len() > 0 && words_of(
                    lines[i],
                )[0] == commit && words_of(lines[i]).skip(1) == parents;
            if i < front.len() {
                assert(front[i] == lines[i]);
                assert(is_printed(front, commit, parents));
            }
        }
    }
}

/// The first listed parent.
proof fn lemma_first_listed(
    lines: Seq<Seq<char>>,
    start: Seq<char>,
    parents: Seq<Seq<char>>,
) -> (p: int)
    ensures
        ({
            let entries = seq![(start, Seq::<Seq<char>>::empty())] + history_of(lines);
            let next = included(entries, parents);
            &&& next.len() == 0 ==> forall|q: int|
                0 <= q < parents.len() ==> !is_listed(lines, start, #[trigger] parents[q])
            &&& next.len() > 0 ==> {
                &&& 0 <= p < parents.len()
                &&& parents[p] == next[0]
                &&& is_listed(lines, start, next[0])
                &&& forall|q: int|
                    0 <= q < parents.len() && q != p && (q < p || next.len() == 1) ==> !is_listed(
                        lines,
                        start,
                        #[trigger] parents[q],
                    )
            }
        }),
    decreases parents.len(),
{
    let entries = seq![(start, Seq::<Seq<char>>::empty())] + history_of(lines);
    if parents.len() == 0 {
        0
    } else {
        let front = parents.drop_last();
        let before = included(entries, front);
        let next = included(entries, parents);
        let p = lemma_first_listed(lines, start, front);
        lemma_entries(lines, start, parents.last());
        assert forall|q: int| 0 <= q < front.len() implies parents[q] == #[trigger] front[q] by {}
        if before.len() == 0 {
            assert forall|q: int| 0 <= q < front.len() implies !is_listed(
                lines,
                start,
                #[trigger] parents[q],
            ) by {
                assert(!is_listed(lines, start, front[q]));
            }
            parents.len() - 1
        } else {
            assert(next[0] == before[0]);
            assert forall|q: int|
                0 <= q < parents.len() && q != p && (q < p || next.len() == 1) implies !is_listed(
                lines,
                start,
                #[trigger] parents[q],
            ) by {
                if q < front.len() {
                    assert(!is_listed(lines, start, front[q]));
                }
            }
            p
        }
    }
}

proof fn lemma_lineage(
    lines: Seq<Seq<char>>,
    start: Seq<char>,
    end: Seq<char>,
    first_parent: bool,
    steps: nat,
)
    ensures
        chain(
            seq![(start, Seq::<Seq<char>>::empty())] + history_of(lines),
            start,
            end,
            first_parent,
            steps,
        ) matches Ok(commits) ==> is_lineage(lines, start, end, first_parent, commits),
    decreases steps,
{
    let entries = seq![(start, Seq::<Seq<char>>::empty())] + history_of(lines);
    let next = parents_in(entries, end);
    if end != start && steps > 0 && next.len() > 0 && (next.len() == 1 || first_parent) {
        lemma_lineage(lines, start, next[0], first_parent, (steps - 1) as nat);
        lemma_entries(lines, start, end);
        let parents = latest(entries, end)->0;
        let p = lemma_first_listed(lines, start, parents);
        assert(is_printed(lines, end, parents) && parents[p] == next[0]);
        assert(is_child(lines, start, next[0], end, first_parent));
        if let Ok(older) = chain(entries, start, next[0], first_parent, (steps - 1) as nat) {
            let commits = older.push(end);
            assert forall|i: int| 0 <= i < commits.len() implies is_child(
                lines,
                start,
                if i == 0 {
                    start
                } else {
                    commits[i - 1]
                },
                #[trigger] commits[i],
                first_parent,
            ) by {
                if i < older.len() {
                    assert(older[i] == commits[i]);
                }
            }
        }
    }
}

/// The command that prints the commit that a name stands for.
pub open spec fn resolve(name: Seq<char>) -> Seq<Seq<char>> {
    seq!["rev-parse"@, "--verify"@, "--quiet"@, name]
}

/// The command that prints the commits on the ways from one commit to another, each
/// with its parents.
pub open spec fn history_between(older: Seq<char>, newer: Seq<char>) -> Seq<Seq<char>> {
    seq!["log"@, "--format=%H %P"@, "--ancestry-path"@, "--topo-order"@, older + ".."@ + newer]
}

/// From `k` on the commits from `start` to `end` were asked for, and `commits` are
/// those.
#[verifier::opaque]
pub open spec fn is_lineage_at(
    t: Talk,
    k: int,
    start: Seq<char>,
    end: Seq<char>,
    first_parent: bool,
    commits: Seq<Seq<char>>,
) -> bool {
    &&& did(t, k, resolve(start))
    &&& did(t, k + 1, resolve(end))
    &&& answer_at(t, k) matches Some(oid1) && answer_at(t, k + 1) matches Some(oid2) && {
        &&& did(t, k + 2, history_between(oid1, oid2))
        &&& is_lineage(
            lines_of(without_line_feeds(said(t, k + 2))),
            oid1,
            oid2,
            first_parent,
            commits,
        )
    }
}

/// The commits that lead from one commit to another are one line of descent in what
/// `git` prints between the two.
pub proof fn law_ancestry_is_a_line(
    g: Talk,
    start: Seq<char>,
    end: Seq<char>,
    first_parent: bool,
)
    ensures
        g.linear_ancestry(start, end, first_parent) matches (t, Ok(commits)) ==> {
            &&& is_lineage_at(t, g.asked.len() as int, start, end, first_parent, commits)
            &&& t.asked.len() == g.asked.len() + 3
            &&& g.grows_to(t)
        },
{
    reveal(is_lineage_at);
    let (t, r) = g.linear_ancestry(start, end, first_parent);
    let (g1, r1) = g.rev_parse_required(start);
    if let Ok(oid1) = r1 {
        let (g2, r2) = g1.rev_parse_required(end);
        if let Ok(oid2) = r2 {
            let range = seq!["--ancestry-path"@, "--topo-order"@, oid1 + ".."@ + oid2];
            assert(seq!["log"@, "--format=%H %P"@] + range =~= history_between(oid1, oid2));
            let (g3, r3) = g2.rev_list_with_parents(range);
            if let Ok(list) = r3 {
                let lines = lines_of(without_line_feeds(said(g3, g.asked.len() as int + 2)));
                let entries = seq![(oid1, Seq::<Seq<char>>::empty())] + list;
                lemma_lineage(lines, oid1, oid2, first_parent, entries.len());
            }
        }
    }
}

// ---------------------------------------------------------------------
// The merge base
// ---------------------------------------------------------------------

/// The command that counts the commits from a merge base to a tip.
pub open spec fn distance(base: Seq<char>, tip: Seq<char>) -> Seq<Seq<char>> {
    seq!["rev-list"@, "--no-merges"@, "--count"@, base + ".."@ + tip]
}

/// The distance that was printed at `k`.
pub open spec fn distance_at(t: Talk, k: int) -> u64 {
    count_in(without_line_feeds(said(t, k)))
}

/// From `k` on the merge bases were asked for, and `base` is the only one, or the
/// first of those that are nearest to `tip1`. The answer was found before `end`.
#[verifier::opaque]
pub open spec fn is_base_at(
    t: Talk,
    k: int,
    end: int,
    tip1: Seq<char>,
    tip2: Seq<char>,
    base: Seq<char>,
) -> bool {
    let bases = lines_of(said(t, k));
    &&& did(t, k, seq!["merge-base"@, "--all"@, tip1, tip2])
    &&& if bases.len() == 1 {
        base == bases[0] && end == k + 1
    } else {
        &&& end == k + 1 + bases.len()
        &&& forall|i: int|
            0 <= i < bases.len() ==> did(t, k + 1 + i, distance(#[trigger] bases[i], tip1))
        &&& exists|i: int|
            {
                &&& 0 <= i < bases.len()
                &&& #[trigger] bases[i] == base
                &&& forall|j: int|
                    0 <= j < bases.len() ==> distance_at(t, k + 1 + i) <= #[trigger] distance_at(
                        t,
                        k + 1 + j,
                    )
                &&& forall|j: int|
                    0 <= j < i ==> distance_at(t, k + 1 + i) < #[trigger] distance_at(
                        t,
                        k + 1 + j,
                    )
            }
    }
}

/// The best of the first `i` merge bases.
spec fn is_best(
    t: Talk,
    k: int,
    bases: Seq<Seq<char>>,
    i: int,
    best: Option<(Seq<char>, u64)>,
) -> bool {
    match best {
        None => i == 0,
        Some((base, n)) => exists|b: int|
            {
                &&& 0 <= b < i
                &&& #[trigger] bases[b] == base
                &&& n == distance_at(t, k + b)
                &&& forall|j: int| 0 <= j < i ==> n <= #[trigger] distance_at(t, k + j)
                &&& forall|j: int| 0 <= j < b ==> n < #[trigger] distance_at(t, k + j)
            },
    }
}

proof fn lemma_best(
    g: Talk,
    k: int,
    bases: Seq<Seq<char>>,
    i: nat,
    tip1: Seq<char>,
    best: Option<(Seq<char>, u64)>,
)
    requires
        i <= bases.len(),
        0 <= k,
        g.asked.len() == k + i,
        is_best(g, k, bases, i as int, best),
        forall|j: int| 0 <= j < i ==> did(g, k + j, distance(#[trigger] bases[j], tip1)),
    ensures
        g.best_base(bases, i, tip1, best) matches (t, Ok(found)) ==> {
            &&& g.grows_to(t)
            &&& t.asked.len() == k + bases.len()
            &&& is_best(t, k, bases, bases.len() as int, found)
            &&& forall|j: int|
                0 <= j < bases.len() ==> did(t, k + j, distance(#[trigger] bases[j], tip1))
        },
    decreases bases.len() - i,
{
    if i < bases.len() {
        let base = bases[i as int];
        let (h, r) = g.run(distance(base, tip1));
        if let Ok(out) = r {
            assert(g.grows_to(h));
            assert(did(h, k + i, distance(base, tip1)));
            let n = count_in(out);
            assert(n == distance_at(h, k + i));
            let next = if best is None || n < (best->0).1 {
                Some((base, n))
            } else {
                best
            };
            assert forall|j: int| 0 <= j < i implies #[trigger] distance_at(h, k + j)
                == distance_at(g, k + j) by {}
            assert(is_best(h, k, bases, i as int + 1, next)) by {
                if best is None || n < (best->0).1 {
                    assert(bases[i as int] == base);
                    assert forall|j: int| 0 <= j < i + 1 implies n <= #[trigger] distance_at(
                        h,
                        k + j,
                    ) by {
                        if j < i {
                            assert((best->0).1 <= distance_at(g, k + j));
                        }
                    }
                    assert forall|j: int| 0 <= j < i implies n < #[trigger] distance_at(h, k + j) by {
                        assert((best->0).1 <= distance_at(g, k + j));
                    }
                } else {
                    let (b0, n0) = best->0;
                    let b = choose|b: int|
                        {
                            &&& 0 <= b < i
                            &&& #[trigger] bases[b] == b0
                            &&& n0 == distance_at(g, k + b)
                            &&& forall|j: int| 0 <= j < i ==> n0 <= #[trigger] distance_at(g, k + j)
                            &&& forall|j: int| 0 <= j < b ==> n0 < #[trigger] distance_at(g, k + j)
                        };
                    assert(bases[b] == b0);
                    assert(n0 == distance_at(h, k + b));
                    assert forall|j: int| 0 <= j < i + 1 implies n0 <= #[trigger] distance_at(
                        h,
                        k + j,
                    ) by {
                        if j < i {
                            assert(n0 <= distance_at(g, k + j));
                        }
                    }
                    assert forall|j: int| 0 <= j < b implies n0 < #[trigger] distance_at(h, k + j) by {
                        assert(n0 < distance_at(g, k + j));
                    }
                }
            }
            assert forall|j: int| 0 <= j < i + 1 implies did(
                h,
                k + j,
                distance(#[trigger] bases[j], tip1),
            ) by {
                if j < i {
                    assert(did(g, k + j, distance(bases[j], tip1)));
                }
            }
            lemma_best(h, k, bases, i + 1, tip1, next);
        }
    }
}

/// The merge base is the only one that `git` finds, or the first of those from which
/// the fewest commits lead to the first tip.
pub proof fn law_merge_base_is_the_nearest(g: Talk, tip1: Seq<char>, tip2: Seq<char>)
    ensures
        g.compute_best_merge_base(tip1, tip2) matches (t, Ok(base)) ==> {
            &&& g.grows_to(t)
            &&& is_base_at(
                t,
                g.asked.len() as int,
                t.asked.len() as int,
                tip1,
                tip2,
                base,
            )
        },
{
    reveal(is_base_at);
    let k = g.asked.len() as int;
    let (h, r) = g.output(seq!["merge-base"@, "--all"@, tip1, tip2]);
    if let Ok(o) = r {
        let bases = lines_of(o.stdout);
        assert(g.grows_to(h));
        assert(said(h, k) == o.stdout);
        if o.success && bases.len() > 1 {
            lemma_best(h, k + 1, bases, 0, tip1, None);
            let (t, found) = h.best_base(bases, 0, tip1, None);
            if let Ok(best) = found {
                let (base, n) = best->0;
                let b = choose|b: int|
                    {
                        &&& 0 <= b < bases.len()
                        &&& #[trigger] bases[b] == base
                        &&& n == distance_at(t, k + 1 + b)
                        &&& forall|j: int|
                            0 <= j < bases.len() ==> n <= #[trigger] distance_at(t, k + 1 + j)
                        &&& forall|j: int| 0 <= j < b ==> n < #[trigger] distance_at(t, k + 1 + j)
                    };
                assert(bases[b] == base);
                assert(lines_of(said(t, k)) == bases);
                assert(did(t, k, seq!["merge-base"@, "--all"@, tip1, tip2]));
                assert(distance_at(t, k + 1 + b) == n);
                assert(is_base_at(t, k, t.asked.len() as int, tip1, tip2, base));
            }
        }
    }
}

/// The boundaries of an incremental merge: the merge base of the two tips, and the
/// commits that lead from there to each of them.
pub proof fn law_boundaries(g: Talk, tip1: Seq<char>, tip2: Seq<char>, first_parent: bool)
    ensures
        g.get_boundaries(tip1, tip2, first_parent) matches (t, Ok((base, commits1, commits2))) ==> {
            let end = t.asked.len() as int;
            &&& is_base_at(t, g.asked.len() as int, end - 6, tip1, tip2, base)
            &&& is_lineage_at(t, end - 6, base, tip1, first_parent, commits1)
            &&& is_lineage_at(t, end - 3, base, tip2, first_parent, commits2)
            &&& commits1.len() > 0
            &&& commits2.len() > 0
        },
{
    law_merge_base_is_the_nearest(g, tip1, tip2);
    let (g1, r1) = g.compute_best_merge_base(tip1, tip2);
    if let Ok(base) = r1 {
        law_ancestry_is_a_line(g1, base, tip1, first_parent);
        let (g2, r2) = g1.linear_ancestry(base, tip1, first_parent);
        if let Ok(commits1) = r2 {
            law_ancestry_is_a_line(g2, base, tip2, first_parent);
            let (t, r3) = g2.linear_ancestry(base, tip2, first_parent);
            if let Ok(commits2) = r3 {
                lemma_base_stays(
                    g1,
                    t,
                    g.asked.len() as int,
                    g1.asked.len() as int,
                    tip1,
                    tip2,
                    base,
                );
                lemma_lineage_stays(
                    g2,
                    t,
                    g1.asked.len() as int,
                    base,
                    tip1,
                    first_parent,
                    commits1,
                );
            }
        }
    }
}

pub(crate) proof fn lemma_lineage_stays(
    g: Talk,
    t: Talk,
    k: int,
    start: Seq<char>,
    end: Seq<char>,
    first_parent: bool,
    commits: Seq<Seq<char>>,
)
    requires
        g.grows_to(t),
        is_lineage_at(g, k, start, end, first_parent, commits),
    ensures
        is_lineage_at(t, k, start, end, first_parent, commits),
{
    reveal(is_lineage_at);
}

proof fn lemma_base_stays(
    g: Talk,
    t: Talk,
    k: int,
    end: int,
    tip1: Seq<char>,
    tip2: Seq<char>,
    base: Seq<char>,
)
    requires
        g.grows_to(t),
        is_base_at(g, k, end, tip1, tip2, base),
    ensures
        is_base_at(t, k, end, tip1, tip2, base),
{
    reveal(is_base_at);
    let bases = lines_of(said(t, k));
    if bases.len() != 1 {
        assert forall|i: int| 0 <= i < bases.len() implies did(
            t,
            k + 1 + i,
            distance(#[trigger] bases[i], tip1),
        ) by {
            assert(did(g, k + 1 + i, distance(bases[i], tip1)));
        }
        assert forall|i: int| #[trigger] distance_at(t, i) == distance_at(g, i) by {}
    }
}

} // verus!
