//! What is stored of an incremental merge can be read back.
//!
//! An incremental merge can be interrupted at any time and taken up again, even
//! in another clone, because everything about it is kept in refs. The laws here
//! say that nothing is lost on the way.
use vstd::prelude::*;

use crate::block::{GridView, MergeRecord, RecordView};
use crate::error::ErrorView;
use crate::git::quiet_request;
use crate::imerge::{
    edge_cell, edge_commits, edge_grid, edges_in, full_window, is_ready, lookup, on_edge, rebuilt,
    source_bit, strange_source, with_entries, with_entry, with_marks, MergeStateView,
};
use crate::pattern::{
    cell_in, cell_ref, coordinates_in, is_state_ref, name_in, state_refname, CellRefView,
};
use crate::state::{is_goal, STATE_VERSION, StateDictView};
use crate::store::{
    cell_refname, distinct, is_compatible, lemma_place, nothing_found, place_of, put, FoundView,
    MergesView, RefView,
};
use crate::talk::Talk;
use crate::text::{all_digits, begins, decimal, is_digit, law_decimal_reads_back, lemma_split};
use crate::work::{
    is_saved, lists_blockers, same_result, same_results, settled, stored_state, version_text,
};

verus! {

// ---------------------------------------------------------------------
// Names of refs
// ---------------------------------------------------------------------

proof fn lemma_digits_have_no(s: Seq<char>, c: char)
    requires
        all_digits(s),
        !is_digit(c),
    ensures
        !s.contains(c),
{
}

/// The ref under which a cell is saved names that cell: reading it gives the
/// source and the coordinates that it was made from, if the pattern can be compiled.
pub proof fn law_cell_ref_reads_back(name: Seq<char>, source: Seq<char>, i1: usize, i2: usize)
    requires
        source == "auto"@ || source == "manual"@,
    ensures
        cell_in(name, cell_refname(name, source, i1, i2)) == Some(
            (source, decimal(i1 as nat), decimal(i2 as nat)),
        ),
        cell_ref(name, cell_refname(name, source, i1, i2)) matches Ok(cell) ==> cell == Some(
            (CellRefView { source, at: Some((i1, i2)) }),
        ),
{
    let refname = cell_refname(name, source, i1, i2);
    let d1 = decimal(i1 as nat);
    let d2 = decimal(i2 as nat);
    law_decimal_reads_back(i1 as nat, usize::MAX as nat);
    law_decimal_reads_back(i2 as nat, usize::MAX as nat);
    reveal_strlit("auto");
    reveal_strlit("manual");
    reveal_strlit("auto/");
    reveal_strlit("manual/");
    reveal_strlit("/");
    reveal_strlit("-");
    let prefix = "refs/imerge/"@ + name + "/"@;
    let rest = refname.skip(prefix.len() as int);
    let tail = d1.push('-') + d2;
    assert(refname =~= prefix + source + "/"@ + tail);
    assert(refname.take(prefix.len() as int) =~= prefix);
    assert(rest =~= source + "/"@ + tail);
    lemma_digits_have_no(d1, '-');
    lemma_split(d1, '-', d2);
    assert(coordinates_in(tail) == Some((d1, d2)));
    if source == "auto"@ {
        assert(rest.take(5) =~= "auto/"@);
        assert(rest.skip(5) =~= tail);
    } else {
        assert(rest[0] == 'm');
        assert(rest.take(5)[0] == 'm');
        assert("auto/"@[0] == 'a');
        assert(rest.take(7) =~= "manual/"@);
        assert(rest.skip(7) =~= tail);
    }
    assert(cell_in(name, refname) == Some((source, d1, d2)));
}

/// The ref that holds the state is recognised as such, and is not taken for a
/// cell's, if the patterns can be compiled.
pub proof fn law_state_ref_reads_back(name: Seq<char>)
    ensures
        cell_in(name, state_refname(name)) is None,
        cell_ref(name, state_refname(name)) matches Ok(cell) ==> cell is None,
        is_state_ref(name, state_refname(name)) matches Ok(found) ==> found,
{
    let refname = state_refname(name);
    let prefix = "refs/imerge/"@ + name + "/"@;
    reveal_strlit("/state");
    reveal_strlit("/");
    reveal_strlit("auto/");
    reveal_strlit("manual/");
    let rest = refname.skip(prefix.len() as int);
    assert(rest[0] == 's') by {
        assert(rest[0] == refname[prefix.len() as int]);
    }
    if begins(rest, "auto/"@) {
        assert(rest.take(5)[0] == 's');
        assert("auto/"@[0] == 'a');
    }
    if begins(rest, "manual/"@) {
        assert(rest.take(7)[0] == 's');
        assert("manual/"@[0] == 'm');
    }
    assert(cell_in(name, refname) is None);
}

/// The ref that holds the state gives away the name of the incremental merge.
pub proof fn law_name_reads_back(name: Seq<char>)
    requires
        name.len() > 0,
        !name.contains('\n'),
    ensures
        name_in(state_refname(name)) == Some(name),
{
    let refname = state_refname(name);
    reveal_strlit("refs/imerge/");
    reveal_strlit("/state");
    assert(refname.take(12) =~= "refs/imerge/"@);
    assert(refname.skip(refname.len() - 6) =~= "/state"@);
    assert(refname.subrange(12, refname.len() - 6) =~= name);
}

/// Everything that is stored of an incremental merge lives below its name.
pub proof fn law_refs_live_below_the_name(
    name: Seq<char>,
    source: Seq<char>,
    i1: usize,
    i2: usize,
)
    ensures
        begins(state_refname(name), "refs/imerge/"@ + name + "/"@),
        begins(cell_refname(name, source, i1, i2), "refs/imerge/"@ + name + "/"@),
{
    let prefix = "refs/imerge/"@ + name + "/"@;
    reveal_strlit("/state");
    reveal_strlit("/");
    assert(state_refname(name).take(prefix.len() as int) =~= prefix);
    assert(cell_refname(name, source, i1, i2).take(prefix.len() as int) =~= prefix);
}

/// The version that is stored is one that can be read.
pub proof fn law_version_is_compatible()
    ensures
        is_compatible(version_text()),
{
    let a = decimal(STATE_VERSION.0 as nat);
    let b = decimal(STATE_VERSION.1 as nat);
    let c = decimal(STATE_VERSION.2 as nat);
    law_decimal_reads_back(STATE_VERSION.0 as nat, u32::MAX as nat);
    law_decimal_reads_back(STATE_VERSION.1 as nat, u32::MAX as nat);
    reveal_strlit(".");
    lemma_digits_have_no(a, '.');
    lemma_digits_have_no(b, '.');
    let rest = b.push('.') + c;
    assert(version_text() =~= a.push('.') + rest);
    lemma_split(a, '.', rest);
    lemma_split(b, '.', c);
}

// ---------------------------------------------------------------------
// Refs
// ---------------------------------------------------------------------

/// The source under which a cell is saved.
pub open spec fn source_of(r: RecordView) -> Seq<char> {
    if r.manual() {
        "manual"@
    } else {
        "auto"@
    }
}

/// The entry is for a cell of the grid, with its commit and its source.
pub open spec fn is_entry(
    grid: GridView,
    entry: ((usize, usize), (Seq<char>, Seq<char>)),
) -> bool {
    let (i1, i2) = entry.0;
    let cell = grid.cell(i1 as int, i2 as int);
    &&& grid.has(i1 as int, i2 as int)
    &&& cell.sha1 == Some(entry.1.0)
    &&& entry.1.1 == source_of(cell)
}

/// Whether the list has an entry for these coordinates.
pub open spec fn is_in(merges: MergesView, at: (usize, usize)) -> bool {
    exists|k: int| 0 <= k < merges.len() && (#[trigger] merges[k]).0 == at
}

/// The list has one entry for each merge result of the grid, and no other.
pub open spec fn is_listing(grid: GridView, merges: MergesView) -> bool {
    &&& distinct(merges)
    &&& forall|k: int| 0 <= k < merges.len() ==> is_entry(grid, #[trigger] merges[k])
    &&& forall|i1: usize, i2: usize|
        grid.has(i1 as int, i2 as int) && grid.known(i1 as int, i2 as int) ==> #[trigger] is_in(
            merges,
            (i1, i2),
        )
}

/// The ref is what saving leaves behind: for the cell `at`, or for the state.
pub open spec fn is_ref_for(grid: GridView, r: RefView, at: Option<(usize, usize)>) -> bool {
    match at {
        None => r.1 == "blob"@ && r.2 == state_refname(grid.name),
        Some((i1, i2)) => {
            let cell = grid.cell(i1 as int, i2 as int);
            &&& grid.has(i1 as int, i2 as int)
            &&& cell.sha1 == Some(r.0)
            &&& r.1 == "commit"@
            &&& r.2 == cell_refname(grid.name, source_of(cell), i1, i2)
        },
    }
}

/// The refs are all that saving leaves behind: one for the state, and one for each
/// cell with a merge result. `ats` says which ref is for what.
pub open spec fn are_refs_of(
    grid: GridView,
    refs: Seq<RefView>,
    ats: Seq<Option<(usize, usize)>>,
) -> bool {
    &&& refs.len() == ats.len()
    &&& ats.no_duplicates()
    &&& ats.contains(None)
    &&& forall|k: int| 0 <= k < refs.len() ==> is_ref_for(grid, #[trigger] refs[k], ats[k])
    &&& forall|i1: usize, i2: usize|
        grid.has(i1 as int, i2 as int) && grid.known(i1 as int, i2 as int)
            ==> #[trigger] ats.contains(Some((i1, i2)))
}

/// The error says that a pattern for the name cannot be compiled, which one of the
/// refs was to be held against.
pub open spec fn is_pattern_error(name: Seq<char>, refs: Seq<RefView>, e: ErrorView) -> bool {
    exists|k: int|
        0 <= k < refs.len() && (cell_ref(name, (#[trigger] refs[k]).2) == Err::<
            Option<CellRefView>,
            ErrorView,
        >(e) || is_state_ref(name, refs[k].2) == Err::<bool, ErrorView>(e))
}

/// What has been found after the first `k` refs.
spec fn found_so_far(
    grid: GridView,
    ats: Seq<Option<(usize, usize)>>,
    k: int,
    found: FoundView,
    state: StateDictView,
) -> bool {
    &&& found.unexpected == Seq::<Seq<char>>::empty()
    &&& found.state == if ats.take(k).contains(None) {
        Some(state)
    } else {
        None
    }
    &&& distinct(found.merges)
    &&& forall|m: int|
        0 <= m < found.merges.len() ==> is_entry(grid, #[trigger] found.merges[m])
    &&& forall|i1: usize, i2: usize|
        #[trigger] is_in(found.merges, (i1, i2)) <==> ats.take(k).contains(Some((i1, i2)))
}

proof fn lemma_taken(ats: Seq<Option<(usize, usize)>>, k: int, x: Option<(usize, usize)>)
    requires
        0 <= k < ats.len(),
    ensures
        ats.take(k + 1).contains(x) <==> ats.take(k).contains(x) || ats[k] == x,
{
    let a = ats.take(k);
    let b = ats.take(k + 1);
    if a.contains(x) {
        let m = choose|m: int| 0 <= m < a.len() && a[m] == x;
        assert(b[m] == x);
    }
    assert(b[k] == ats[k]);
    if b.contains(x) && ats[k] != x {
        let m = choose|m: int| 0 <= m < b.len() && b[m] == x;
        assert(a[m] == x);
    }
}

proof fn lemma_put_new(
    merges: MergesView,
    at: (usize, usize),
    value: (Seq<char>, Seq<char>),
)
    requires
        !is_in(merges, at),
    ensures
        put(merges, at, value) == merges.push((at, value)),
        forall|other: (usize, usize)|
            #[trigger] is_in(merges.push((at, value)), other) <==> is_in(merges, other) || other
                == at,
{
    lemma_place(merges, at, 0);
    if place_of(merges, at, 0) < merges.len() {
        assert(merges[place_of(merges, at, 0) as int].0 == at);
        assert(is_in(merges, at));
    }
    let more = merges.push((at, value));
    assert forall|other: (usize, usize)| #[trigger] is_in(more, other) <==> is_in(merges, other)
        || other == at by {
        if is_in(merges, other) {
            let m = choose|m: int| 0 <= m < merges.len() && (#[trigger] merges[m]).0 == other;
            assert(more[m].0 == other);
        }
        if other == at {
            assert(more[merges.len() as int].0 == at);
        }
        if is_in(more, other) && other != at {
            let m = choose|m: int| 0 <= m < more.len() && (#[trigger] more[m]).0 == other;
            assert(merges[m].0 == other);
        }
    }
}

proof fn lemma_find_all(
    start: Talk,
    g: Talk,
    grid: GridView,
    refs: Seq<RefView>,
    ats: Seq<Option<(usize, usize)>>,
    k: nat,
    found: FoundView,
    end: Talk,
    state: StateDictView,
)
    requires
        are_refs_of(grid, refs, ats),
        start.read_imerge_state_dict(grid.name) == (end, Ok::<StateDictView, ErrorView>(state)),
        k <= refs.len(),
        g == if ats.take(k as int).contains(None) {
            end
        } else {
            start
        },
        found_so_far(grid, ats, k as int, found, state),
    ensures
        match g.find_all(grid.name, refs, k, found) {
            (last, Ok(all)) => last == end && found_so_far(
                grid,
                ats,
                ats.len() as int,
                all,
                state,
            ),
            (_, Err(e)) => is_pattern_error(grid.name, refs, e),
        },
    decreases refs.len() - k,
{
    if k >= refs.len() {
        assert(ats.take(ats.len() as int) =~= ats);
    } else {
        let r = refs[k as int];
        let at = ats[k as int];
        assert(is_ref_for(grid, refs[k as int], ats[k as int]));
        assert forall|x: Option<(usize, usize)>| #[trigger]
            ats.take(k as int + 1).contains(x) <==> ats.take(k as int).contains(x) || at == x by {
            lemma_taken(ats, k as int, x);
        }
        assert(!ats.take(k as int).contains(at)) by {
            if ats.take(k as int).contains(at) {
                let m = choose|m: int|
                    0 <= m < ats.take(k as int).len() && ats.take(k as int)[m] == at;
                assert(ats[m] == ats[k as int]);
            }
        }
        reveal_strlit("blob");
        reveal_strlit("commit");
        match at {
            None => {
                law_state_ref_reads_back(grid.name);
                let next = FoundView { state: Some(state), ..found };
                match g.find(grid.name, r, found).1 {
                    Err(e) => {
                        assert(is_pattern_error(grid.name, refs, e));
                    },
                    Ok(_) => {
                        assert(g.find(grid.name, r, found) == (
                            end,
                            Ok::<FoundView, ErrorView>(next),
                        ));
                        lemma_find_all(start, end, grid, refs, ats, k + 1, next, end, state);
                    },
                }
            },
            Some((i1, i2)) => {
                let cell = grid.cell(i1 as int, i2 as int);
                let source = source_of(cell);
                law_cell_ref_reads_back(grid.name, source, i1, i2);
                assert(!is_in(found.merges, (i1, i2)));
                lemma_put_new(found.merges, (i1, i2), (r.0, source));
                let next = FoundView {
                    merges: put(found.merges, (i1, i2), (r.0, source)),
                    ..found
                };
                match g.find(grid.name, r, found).1 {
                    Err(e) => {
                        assert(is_pattern_error(grid.name, refs, e));
                    },
                    Ok(_) => {
                        assert(g.find(grid.name, r, found) == (
                            g,
                            Ok::<FoundView, ErrorView>(next),
                        ));
                    },
                }
                assert(found_so_far(grid, ats, k as int + 1, next, state)) by {
                    let m = next.merges;
                    assert forall|a: int, b: int| 0 <= a < b < m.len() implies (#[trigger] m[a]).0
                        != (#[trigger] m[b]).0 by {
                        if b < found.merges.len() {
                            assert(found.merges[a].0 != found.merges[b].0);
                        } else {
                            if m[a].0 == (i1, i2) {
                                assert(found.merges[a].0 == (i1, i2));
                                assert(is_in(found.merges, (i1, i2)));
                            }
                        }
                    }
                    assert forall|a: int| 0 <= a < m.len() implies is_entry(
                        grid,
                        #[trigger] m[a],
                    ) by {
                        if a < found.merges.len() {
                            assert(is_entry(grid, found.merges[a]));
                        }
                    }
                    assert(ats.take(k as int + 1).contains(None) == ats.take(k as int).contains(None));
                    assert forall|j1: usize, j2: usize| #[trigger]
                        is_in(m, (j1, j2)) <==> ats.take(k as int + 1).contains(Some((j1, j2))) by {
                        assert(is_in(found.merges, (j1, j2)) <==> ats.take(k as int).contains(
                            Some((j1, j2)),
                        ));
                        assert(ats.take(k as int + 1).contains(Some((j1, j2))) <==> ats.take(
                            k as int,
                        ).contains(Some((j1, j2))) || at == Some((j1, j2)));
                    }
                }
                lemma_find_all(start, g, grid, refs, ats, k + 1, next, end, state);
            },
        }
    }
}

/// Reading the refs that saving left behind, in whatever order they come, finds
/// the state and one entry for each merge result, and nothing unexpected. The only
/// error is that a pattern for the name cannot be compiled.
pub proof fn law_refs_read_back(
    g: Talk,
    grid: GridView,
    refs: Seq<RefView>,
    ats: Seq<Option<(usize, usize)>>,
)
    requires
        are_refs_of(grid, refs, ats),
    ensures
        g.read_imerge_state_dict(grid.name) matches (end, Ok(state)) ==> match g.find_all(
            grid.name,
            refs,
            0,
            nothing_found(),
        ) {
            (last, Ok(found)) => {
                &&& last == end
                &&& found.state == Some(state)
                &&& found.unexpected.len() == 0
                &&& is_listing(grid, found.merges)
            },
            (_, Err(e)) => is_pattern_error(grid.name, refs, e),
        },
{
    if let (end, Ok(state)) = g.read_imerge_state_dict(grid.name) {
        let none = ats.take(0);
        assert(none =~= Seq::empty());
        assert(found_so_far(grid, ats, 0, nothing_found(), state)) by {
            assert forall|i1: usize, i2: usize| #[trigger]
                is_in(nothing_found().merges, (i1, i2)) <==> none.contains(Some((i1, i2))) by {}
        }
        lemma_find_all(g, g, grid, refs, ats, 0, nothing_found(), end, state);
        assert(ats.take(ats.len() as int) =~= ats);
        if let Ok(found) = g.find_all(grid.name, refs, 0, nothing_found()).1 {
            assert forall|i1: usize, i2: usize|
                grid.has(i1 as int, i2 as int) && grid.known(
                    i1 as int,
                    i2 as int,
                ) implies #[trigger] is_in(found.merges, (i1, i2)) by {
                assert(ats.contains(Some((i1, i2))));
            }
        }
    }
}

// ---------------------------------------------------------------------
// The whole incremental merge
// ---------------------------------------------------------------------

proof fn lemma_lookup(grid: GridView, merges: MergesView, i1: usize, i2: usize)
    requires
        is_listing(grid, merges),
    ensures
        lookup(merges, (i1, i2)) == if grid.has(i1 as int, i2 as int) && grid.known(
            i1 as int,
            i2 as int,
        ) {
            Some(
                (
                    grid.commit(i1 as int, i2 as int),
                    source_of(grid.cell(i1 as int, i2 as int)),
                ),
            )
        } else {
            None
        },
{
    let at = (i1, i2);
    let k = place_of(merges, at, 0);
    lemma_place(merges, at, 0);
    if k < merges.len() {
        assert(is_entry(grid, merges[k as int]));
    } else if grid.has(i1 as int, i2 as int) && grid.known(i1 as int, i2 as int) {
        assert(is_in(merges, at));
        let m = choose|m: int| 0 <= m < merges.len() && (#[trigger] merges[m]).0 == at;
        assert(merges[m].0 != at);
    }
}

/// The commits along one edge of the grid, from place `i` on.
spec fn branch_from(grid: GridView, along1: bool, i: int) -> Seq<Seq<char>> {
    if along1 {
        Seq::new((grid.len1 - i) as nat, |k: int| grid.commit(i + k, 0))
    } else {
        Seq::new((grid.len2 - i) as nat, |k: int| grid.commit(0, i + k))
    }
}

proof fn lemma_edge_commits(
    grid: GridView,
    merges: MergesView,
    along1: bool,
    i: usize,
    commits: Seq<Seq<char>>,
)
    requires
        is_ready(grid),
        is_listing(grid, merges),
        1 <= i,
        along1 ==> i <= grid.len1,
        !along1 ==> i <= grid.len2,
    ensures
        edge_commits(merges, along1, i, commits) == Ok::<Seq<Seq<char>>, ErrorView>(
            commits + branch_from(grid, along1, i as int),
        ),
    decreases usize::MAX - i,
{
    let len = if along1 {
        grid.len1
    } else {
        grid.len2
    };
    let at = on_edge(along1, i);
    let full = full_window(grid);
    lemma_lookup(grid, merges, at.0, at.1);
    if i < len {
        if along1 {
            assert(grid.known(full.origin1 + i, full.origin2 as int));
            assert(grid.cell(i as int, 0).manual());
        } else {
            assert(grid.known(full.origin1 as int, full.origin2 + i));
            assert(grid.cell(0, i as int).manual());
        }
        lemma_sources();
        let sha1 = grid.commit(at.0 as int, at.1 as int);
        lemma_edge_commits(grid, merges, along1, (i + 1) as usize, commits.push(sha1));
        assert(commits.push(sha1) + branch_from(grid, along1, i + 1) =~= commits + branch_from(
            grid,
            along1,
            i as int,
        ));
    } else {
        assert(commits + branch_from(grid, along1, i as int) =~= commits);
    }
}

/// The two sources are told apart.
proof fn lemma_sources()
    ensures
        source_bit("manual"@) == Some(MergeRecord::SAVED_MANUAL),
        source_bit("auto"@) == Some(MergeRecord::SAVED_AUTO),
        "manual"@ != "auto"@,
{
    reveal_strlit("manual");
    reveal_strlit("auto");
    assert("manual"@[0] == 'm' && "auto"@[0] == 'a');
}

proof fn lemma_no_strange_source(grid: GridView, merges: MergesView, k: nat)
    requires
        is_listing(grid, merges),
        k <= merges.len(),
    ensures
        strange_source(merges, k) is None,
    decreases merges.len() - k,
{
    if k < merges.len() {
        assert(is_entry(grid, merges[k as int]));
        lemma_sources();
        lemma_no_strange_source(grid, merges, k + 1);
    }
}

/// A cell as it comes back: the same merge result, saved.
spec fn saved_cell(r: RecordView) -> RecordView {
    RecordView::unknown().merged(
        r.sha1->0,
        if r.manual() {
            MergeRecord::SAVED_MANUAL
        } else {
            MergeRecord::SAVED_AUTO
        },
    )
}

/// The grid after some of the entries were recorded on `edge`.
spec fn entries_recorded(
    grid: GridView,
    edge: GridView,
    orig: GridView,
    merges: MergesView,
    k: int,
) -> bool {
    &&& grid.wf()
    &&& grid.name == edge.name
    &&& grid.len1 == edge.len1
    &&& grid.len2 == edge.len2
    &&& grid.dedupe_patches == edge.dedupe_patches
    &&& forall|i1: usize, i2: usize|
        grid.has(i1 as int, i2 as int) ==> #[trigger] grid.cell(i1 as int, i2 as int) == if i1
            != 0 && i2 != 0 && is_in(merges.take(k), (i1, i2)) {
            saved_cell(orig.cell(i1 as int, i2 as int))
        } else {
            edge.cell(i1 as int, i2 as int)
        }
}

proof fn lemma_entries(
    grid: GridView,
    edge: GridView,
    orig: GridView,
    merges: MergesView,
    k: nat,
)
    requires
        is_listing(orig, merges),
        k <= merges.len(),
        edge.wf(),
        edge.len1 == orig.len1,
        edge.len2 == orig.len2,
        orig.len1 >= 1,
        orig.len2 >= 1,
        forall|i1: int, i2: int|
            edge.has(i1, i2) && i1 != 0 && i2 != 0 ==> #[trigger] edge.cell(i1, i2)
                == RecordView::unknown(),
        entries_recorded(grid, edge, orig, merges, k as int),
    ensures
        with_entries(grid, merges, k) matches Ok(filled) && entries_recorded(
            filled,
            edge,
            orig,
            merges,
            merges.len() as int,
        ),
    decreases merges.len() - k,
{
    if k < merges.len() {
        let (at, (sha1, source)) = merges[k as int];
        let (a1, a2) = at;
        assert(is_entry(orig, merges[k as int]));
        lemma_sources();
        let next = with_entry(grid, at, sha1, source)->Ok_0;
        let before = merges.take(k as int);
        let after = merges.take(k as int + 1);
        assert forall|x: (usize, usize)| #[trigger] is_in(after, x) <==> is_in(before, x) || x
            == at by {
            assert(after[k as int].0 == at);
            if is_in(before, x) {
                let m = choose|m: int| 0 <= m < before.len() && (#[trigger] before[m]).0 == x;
                assert(after[m].0 == x);
            }
            if is_in(after, x) && x != at {
                let m = choose|m: int| 0 <= m < after.len() && (#[trigger] after[m]).0 == x;
                assert(before[m].0 == x);
            }
        }
        assert(!is_in(before, at)) by {
            if is_in(before, at) {
                let m = choose|m: int| 0 <= m < before.len() && (#[trigger] before[m]).0 == at;
                assert(merges[m].0 != merges[k as int].0);
            }
        }
        assert(grid.cells[a1 as int].len() == grid.len2);
        if a1 != 0 && a2 != 0 {
            assert(grid.cell(a1 as int, a2 as int) == edge.cell(a1 as int, a2 as int));
            assert(edge.cell(a1 as int, a2 as int) == RecordView::unknown());
        }
        assert(entries_recorded(next, edge, orig, merges, k as int + 1)) by {
            assert forall|i1: usize, i2: usize|
                next.has(i1 as int, i2 as int) implies #[trigger] next.cell(i1 as int, i2 as int)
                == if i1 != 0 && i2 != 0 && is_in(merges.take(k as int + 1), (i1, i2)) {
                saved_cell(orig.cell(i1 as int, i2 as int))
            } else {
                edge.cell(i1 as int, i2 as int)
            } by {
                assert(grid.cells[i1 as int].len() == grid.len2);
                assert(is_in(after, (i1, i2)) <==> is_in(before, (i1, i2)) || (i1, i2) == at);
                let c = grid.cell(i1 as int, i2 as int);
            }
        }
        lemma_entries(next, edge, orig, merges, k + 1);
    }
}

/// The grid after some of the marks were made on `filled`.
spec fn marks_made(grid: GridView, filled: GridView, marks: Seq<(usize, usize)>, k: int) -> bool {
    &&& grid.wf()
    &&& grid.name == filled.name
    &&& grid.len1 == filled.len1
    &&& grid.len2 == filled.len2
    &&& grid.dedupe_patches == filled.dedupe_patches
    &&& forall|i1: usize, i2: usize|
        grid.has(i1 as int, i2 as int) ==> #[trigger] grid.cell(i1 as int, i2 as int)
            == if marks.take(k).contains((i1, i2)) {
            filled.cell(i1 as int, i2 as int).marked(true)
        } else {
            filled.cell(i1 as int, i2 as int)
        }
}

proof fn lemma_marks(grid: GridView, filled: GridView, marks: Seq<(usize, usize)>, k: nat)
    requires
        k <= marks.len(),
        forall|m: int|
            0 <= m < marks.len() ==> filled.has(
                (#[trigger] marks[m]).0 as int,
                marks[m].1 as int,
            ),
        marks_made(grid, filled, marks, k as int),
    ensures
        with_marks(grid, marks, k) matches Ok(marked) && marks_made(
            marked,
            filled,
            marks,
            marks.len() as int,
        ),
    decreases marks.len() - k,
{
    if k < marks.len() {
        let (a1, a2) = marks[k as int];
        let before = marks.take(k as int);
        let after = marks.take(k as int + 1);
        assert(filled.has(marks[k as int].0 as int, marks[k as int].1 as int));
        let next = grid.with(
            a1 as int,
            a2 as int,
            grid.cell(a1 as int, a2 as int).marked(true),
        );
        assert(grid.cells[a1 as int].len() == grid.len2);
        assert forall|x: (usize, usize)| #[trigger] after.contains(x) <==> before.contains(x) || x
            == (a1, a2) by {
            assert(after[k as int] == (a1, a2));
            if before.contains(x) {
                let m = choose|m: int| 0 <= m < before.len() && before[m] == x;
                assert(after[m] == x);
            }
            if after.contains(x) && x != (a1, a2) {
                let m = choose|m: int| 0 <= m < after.len() && after[m] == x;
                assert(before[m] == x);
            }
        }
        assert(marks_made(next, filled, marks, k as int + 1)) by {
            assert forall|i1: usize, i2: usize|
                next.has(i1 as int, i2 as int) implies #[trigger] next.cell(i1 as int, i2 as int)
                == if marks.take(k as int + 1).contains((i1, i2)) {
                filled.cell(i1 as int, i2 as int).marked(true)
            } else {
                filled.cell(i1 as int, i2 as int)
            } by {
                assert(grid.cells[i1 as int].len() == grid.len2);
                let f = filled.cell(i1 as int, i2 as int).flags;
                assert((f | 0x10) | 0x10 == f | 0x10) by (bit_vector);
                assert(after.contains((i1, i2)) <==> before.contains((i1, i2)) || (i1, i2) == (
                    a1,
                    a2,
                ));
                let c = grid.cell(i1 as int, i2 as int);
            }
        }
        lemma_marks(next, filled, marks, k + 1);
    }
}

/// A cell comes back with the same merge result.
proof fn lemma_cell_comes_back(r: RecordView, blocked: bool)
    requires
        r.consistent(),
        blocked == r.blocked(),
    ensures
        ({
            let cell = if r.known() {
                saved_cell(r)
            } else {
                RecordView::unknown()
            };
            let back = if blocked {
                cell.marked(true)
            } else {
                cell
            };
            &&& same_result(r, back)
            &&& settled(back)
            &&& back.consistent()
        }),
{
    let f = r.flags;
    assert(0u8 & 0x0e == 0 && 0u8 & 0x08 == 0 && (0u8 | 1) & 0x0c == 0 && (0u8 | 4) & 0x0c != 0 && (
    0u8 | 1) & 0x10 == 0 && (0u8 | 4) & 0x10 == 0 && ((0u8 | 1) | 0x10) & 0x0c == 0 && ((0u8 | 4)
        | 0x10) & 0x0c != 0 && ((0u8 | 1) | 0x10) & 0x10 != 0 && ((0u8 | 4) | 0x10) & 0x10 != 0 && (
    0u8 | 0x10) & 0x10 != 0 && (0u8 | 0x10) & 0x0c == 0 && 0u8 & 0x10 == 0 && 0u8 & 0x0c == 0 && (f
        & 0x0f == 0 ==> f & 0x0c == 0)) by (bit_vector);
    assert((0u8 | 4) & 0x03 == 0 && ((0u8 | 4) | 0x10) & 0x03 == 0 && 0u8 & 0x0f == 0 && (0u8 | 0x10)
        & 0x0f == 0 && (0u8 | 1) & 0x0f != 0 && ((0u8 | 1) | 0x10) & 0x0f != 0 && (0u8 | 4) & 0x0f
        != 0 && ((0u8 | 4) | 0x10) & 0x0f != 0) by (bit_vector);
    assert(0u8 & 0x0a == 0 && (0u8 | 1) & 0x0a == 0 && (0u8 | 4) & 0x0a == 0 && ((0u8 | 1) | 0x10)
        & 0x0a == 0 && ((0u8 | 4) | 0x10) & 0x0a == 0 && (0u8 | 0x10) & 0x0a == 0) by (bit_vector);
}

/// An incremental merge comes back from what is stored of it. Where the entries
/// are those of its merge results, and the stored state is its own, reading gives
/// the same incremental merge: every merge result with its source, every mark, and
/// everything else. All of it counts as saved.
pub proof fn law_resume(s: MergeStateView, blockers: Seq<(usize, usize)>, merges: MergesView)
    requires
        s.wf(),
        is_goal(s.goal),
        lists_blockers(s.grid, blockers),
        is_listing(s.grid, merges),
    ensures
        rebuilt(s.grid.name, stored_state(s, blockers), merges) matches Ok(t) && t == s.with_grid(
            t.grid,
        ) && same_results(s.grid, t.grid) && is_saved(t.grid) && t.grid.sound(),
{
    let grid = s.grid;
    let full = full_window(grid);
    let state = stored_state(s, blockers);
    lemma_no_strange_source(grid, merges, 0);
    lemma_lookup(grid, merges, 0, 0);
    lemma_sources();
    assert(grid.known(full.origin1 + 0, full.origin2 as int));
    assert(grid.cell(0, 0).manual());
    let commits1 = branch_from(grid, true, 1);
    let commits2 = branch_from(grid, false, 1);
    lemma_edge_commits(grid, merges, true, 1, Seq::empty());
    lemma_edge_commits(grid, merges, false, 1, Seq::empty());
    assert(Seq::<Seq<char>>::empty() + commits1 =~= commits1);
    assert(Seq::<Seq<char>>::empty() + commits2 =~= commits2);
    let base = grid.commit(0, 0);
    assert(edges_in(merges) == Ok::<(Seq<char>, Seq<Seq<char>>, Seq<Seq<char>>), ErrorView>(
        (base, commits1, commits2),
    ));
    let edge = edge_grid(
        grid.name,
        base,
        commits1,
        commits2,
        MergeRecord::SAVED_MANUAL,
        grid.dedupe_patches,
    );
    assert(edge.len1 == grid.len1 && edge.len2 == grid.len2);
    assert forall|i1: int, i2: int| edge.has(i1, i2) implies #[trigger] edge.cell(i1, i2)
        == edge_cell(base, commits1, commits2, MergeRecord::SAVED_MANUAL, i1, i2) by {}
    assert(entries_recorded(edge, edge, grid, merges, 0)) by {
        assert forall|i1: usize, i2: usize|
            edge.has(i1 as int, i2 as int) implies #[trigger] edge.cell(i1 as int, i2 as int)
            == if i1 != 0 && i2 != 0 && is_in(merges.take(0), (i1, i2)) {
            saved_cell(grid.cell(i1 as int, i2 as int))
        } else {
            edge.cell(i1 as int, i2 as int)
        } by {}
    }
    lemma_entries(edge, edge, grid, merges, 0);
    let filled = with_entries(edge, merges, 0)->Ok_0;
    assert(merges.take(merges.len() as int) =~= merges);
    assert(marks_made(filled, filled, blockers, 0));
    lemma_marks(filled, filled, blockers, 0);
    let marked = with_marks(filled, blockers, 0)->Ok_0;
    assert(blockers.take(blockers.len() as int) =~= blockers);
    assert forall|i1: int, i2: int| grid.has(i1, i2) implies same_result(
        grid.cell(i1, i2),
        #[trigger] marked.cell(i1, i2),
    ) && settled(marked.cell(i1, i2)) && marked.cell(i1, i2).consistent() by {
        let u1 = i1 as usize;
        let u2 = i2 as usize;
        let r = grid.cell(i1, i2);
        assert(r.consistent());
        assert(blockers.contains((u1, u2)) <==> grid.blocked(u1 as int, u2 as int));
        assert(marked.cell(u1 as int, u2 as int) == if blockers.contains((u1, u2)) {
            filled.cell(u1 as int, u2 as int).marked(true)
        } else {
            filled.cell(u1 as int, u2 as int)
        });
        lemma_cell_comes_back(r, r.blocked());
        if i1 == 0 || i2 == 0 {
            if i2 == 0 {
                assert(grid.known(full.origin1 + i1, full.origin2 as int));
                assert(grid.cell(i1, 0).manual());
            } else {
                assert(grid.known(full.origin1 as int, full.origin2 + i2));
                assert(grid.cell(0, i2).manual());
            }
            assert(edge.cell(i1, i2) == saved_cell(r)) by {
                assert(edge.cell(i1, i2) == edge_cell(
                    base,
                    commits1,
                    commits2,
                    MergeRecord::SAVED_MANUAL,
                    i1,
                    i2,
                ));
            }
            assert(filled.cell(u1 as int, u2 as int) == edge.cell(u1 as int, u2 as int));
        } else {
            assert(edge.cell(i1, i2) == RecordView::unknown()) by {
                assert(edge.cell(i1, i2) == edge_cell(
                    base,
                    commits1,
                    commits2,
                    MergeRecord::SAVED_MANUAL,
                    i1,
                    i2,
                ));
            }
            if is_in(merges, (u1, u2)) {
                let m = choose|m: int|
                    0 <= m < merges.len() && (#[trigger] merges[m]).0 == (u1, u2);
                assert(is_entry(grid, merges[m]));
                assert(r.known());
            } else {
                assert(!r.known()) by {
                    if grid.known(u1 as int, u2 as int) {
                        assert(is_in(merges, (u1, u2)));
                    }
                }
            }
            assert(filled.cell(u1 as int, u2 as int) == if is_in(merges, (u1, u2)) {
                saved_cell(grid.cell(u1 as int, u2 as int))
            } else {
                edge.cell(u1 as int, u2 as int)
            });
        }
    }
    let t = rebuilt(s.grid.name, state, merges)->Ok_0;
    assert(t.grid == marked);
    assert(t == s.with_grid(t.grid));
}

/// Reading an incremental merge gives back what was saved: where the listed refs
/// are those that saving left behind, and the state that is found is the one that
/// was stored, the same incremental merge is read. The only error is that a pattern
/// for the name cannot be compiled.
pub proof fn law_read_gives_back(
    g: Talk,
    s: MergeStateView,
    blockers: Seq<(usize, usize)>,
    refs: Seq<RefView>,
    ats: Seq<Option<(usize, usize)>>,
)
    requires
        s.wf(),
        is_goal(s.goal),
        lists_blockers(s.grid, blockers),
        are_refs_of(s.grid, refs, ats),
        g.for_each_ref("refs/imerge/"@ + s.grid.name).1 == Ok::<Seq<RefView>, ErrorView>(refs),
        g.for_each_ref("refs/imerge/"@ + s.grid.name).0.read_imerge_state_dict(s.grid.name).1
            == Ok::<StateDictView, ErrorView>(stored_state(s, blockers)),
    ensures
        match g.read_imerge(s.grid.name).1 {
            Ok(t) => {
                &&& t == s.with_grid(t.grid)
                &&& same_results(s.grid, t.grid)
                &&& is_saved(t.grid)
                &&& t.grid.sound()
            },
            Err(e) => is_pattern_error(s.grid.name, refs, e),
        },
{
    let listed = g.for_each_ref("refs/imerge/"@ + s.grid.name).0;
    law_refs_read_back(listed, s.grid, refs, ats);
    if let Ok(found) = listed.find_all(s.grid.name, refs, 0, nothing_found()).1 {
        law_resume(s, blockers, found.merges);
    }
}

/// A command that is given the name of an incremental merge reads back what was
/// saved. `chosen` is the exchange after the name was chosen, which succeeds if the
/// name is listed and, where there are several, the default can be set.
pub proof fn law_read_merge_state_gives_back(
    g: Talk,
    s: MergeStateView,
    blockers: Seq<(usize, usize)>,
    refs: Seq<RefView>,
    ats: Seq<Option<(usize, usize)>>,
)
    requires
        s.wf(),
        is_goal(s.goal),
        lists_blockers(s.grid, blockers),
        are_refs_of(s.grid, refs, ats),
        ({
            let (chosen, name) = g.choose_merge_name(Some(s.grid.name));
            let (listed, found) = chosen.for_each_ref("refs/imerge/"@ + s.grid.name);
            &&& name is Ok
            &&& found == Ok::<Seq<RefView>, ErrorView>(refs)
            &&& listed.read_imerge_state_dict(s.grid.name).1 == Ok::<StateDictView, ErrorView>(
                stored_state(s, blockers),
            )
        }),
    ensures
        match g.read_merge_state(Some(s.grid.name)).1 {
            Ok(t) => {
                &&& t == s.with_grid(t.grid)
                &&& same_results(s.grid, t.grid)
                &&& is_saved(t.grid)
                &&& t.grid.sound()
            },
            Err(e) => is_pattern_error(s.grid.name, refs, e),
        },
{
    reveal(Talk::read_merge_state);
    let chosen = g.choose_merge_name(Some(s.grid.name)).0;
    law_read_gives_back(chosen, s, blockers, refs, ats);
}

/// A name that is listed is chosen, if it is the only one or the default can be set.
pub proof fn law_listed_name_is_chosen(g: Talk, name: Seq<char>)
    ensures
        g.iter_existing_imerge_names() matches (h, Ok(names)) ==> names.contains(name) ==> (
        names.len() == 1 || h.set_default_imerge_name(Some(name)).1 is Ok) ==>
            g.choose_merge_name(Some(name)).1 == Ok::<Seq<char>, ErrorView>(name),
{
}

/// Saving a cell that has a new merge result points the ref that is read back to
/// that result, as its last step.
pub proof fn law_save_writes_the_ref(
    g: Talk,
    r: RecordView,
    name: Seq<char>,
    i1: usize,
    i2: usize,
)
    requires
        r.known(),
        r.flags & MergeRecord::NEW != 0,
        r.manual() ==> r.flags & MergeRecord::NEW_MANUAL != 0,
    ensures
        g.save_cell(r, name, i1, i2).2 is Ok ==> ({
            let asked = g.save_cell(r, name, i1, i2).0.asked;
            &&& asked.len() > g.asked.len()
            &&& asked.last() == quiet_request(
                seq![
                    "update-ref"@,
                    "-m"@,
                    "imerge '"@ + name + "': Record "@ + source_of(r) + " merge"@,
                    cell_refname(name, source_of(r), i1, i2),
                    r.sha1->0,
                ],
            )
        }),
{
    let f = r.flags;
    assert(f & 0x0a != 0 && f & 0x0c == 0 ==> f & 0x02 != 0) by (bit_vector);
    assert((f & 0xfc) & 0x08 == f & 0x08) by (bit_vector);
}

} // verus!
