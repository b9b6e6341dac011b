//! The refs that an incremental merge keeps.
//!
//! Here the refs of the repository are followed through the requests that saving
//! makes. What saving leaves behind is what reading needs.
use vstd::prelude::*;

use crate::block::{GridView, MergeRecord, RecordView};
use crate::error::ErrorView;
use crate::git::quiet_request;
use crate::imerge::{edge_cell, edge_grid, is_ready, MergeStateView};
use crate::pattern::state_refname;
use crate::resume::{
    are_refs_of, is_pattern_error, is_ref_for, law_cell_ref_reads_back, law_read_gives_back,
    law_refs_live_below_the_name, law_state_ref_reads_back, source_of,
};
use crate::state::{is_goal, StateDictView};
use crate::store::{cell_refname, RefView};
use crate::talk::{RequestView, Talk};
use crate::text::{begins, law_decimal_reads_back};
use crate::work::{
    is_saved, law_save_is_complete, lemma_save_at, same_results, settled, stored_state,
};

verus! {

/// The refs of a repository: what each one points to.
pub type Refs = Map<Seq<char>, Seq<char>>;

/// The refs after a request was carried out that sets or deletes one of them.
pub open spec fn ref_changed(refs: Refs, r: RequestView) -> Refs {
    match r {
        RequestView::Git { args, .. } => if args.len() == 5 && args[0] == "update-ref"@ && args[1]
            == "-m"@ {
            if args[3] == "-d"@ {
                refs.remove(args[4])
            } else {
                refs.insert(args[3], args[4])
            }
        } else {
            refs
        },
        _ => refs,
    }
}

/// The refs after all the requests from the one at `from` on were carried out.
pub open spec fn refs_after(refs: Refs, asked: Seq<RequestView>, from: nat) -> Refs
    decreases asked.len(),
{
    if asked.len() <= from {
        refs
    } else {
        ref_changed(refs_after(refs, asked.drop_last(), from), asked.last())
    }
}

/// What stands below the name of an incremental merge.
pub open spec fn is_below(name: Seq<char>, refname: Seq<char>) -> bool {
    begins(refname, "refs/imerge/"@ + name + "/"@)
}

/// The ref is one that some cell of the grid may have.
pub open spec fn is_cell_ref(grid: GridView, refname: Seq<char>) -> bool {
    exists|source: Seq<char>, i1: usize, i2: usize|
        (source == "auto"@ || source == "manual"@) && grid.has(i1 as int, i2 as int) && refname
            == #[trigger] cell_refname(grid.name, source, i1, i2)
}

/// What the cell counts as saved is in the refs, and nothing else is there for it.
pub open spec fn cell_agrees(
    r: RecordView,
    name: Seq<char>,
    i1: usize,
    i2: usize,
    refs: Refs,
) -> bool {
    let auto = cell_refname(name, "auto"@, i1, i2);
    let manual = cell_refname(name, "manual"@, i1, i2);
    &&& refs.contains_key(auto) <==> r.flags & 0x01 != 0
    &&& refs.contains_key(manual) <==> r.flags & 0x04 != 0
    &&& r.flags & 0x04 != 0 && r.flags & 0x08 == 0 ==> r.sha1 == Some(refs[manual])
    &&& r.flags & 0x01 != 0 && r.flags & 0x0e == 0 ==> r.sha1 == Some(refs[auto])
}

/// What the grid counts as saved is what the refs hold of it.
pub open spec fn agrees(grid: GridView, refs: Refs) -> bool {
    &&& forall|i1: usize, i2: usize|
        grid.has(i1 as int, i2 as int) ==> cell_agrees(
            #[trigger] grid.cell(i1 as int, i2 as int),
            grid.name,
            i1,
            i2,
            refs,
        )
    &&& forall|refname: Seq<char>| #[trigger]
        refs.contains_key(refname) && is_below(grid.name, refname) ==> refname == state_refname(
            grid.name,
        ) || is_cell_ref(grid, refname)
}

/// The refs below the name are those of the grid's merge results, each from its
/// source, and that of the state.
pub open spec fn are_kept(grid: GridView, refs: Refs) -> bool {
    &&& refs.contains_key(state_refname(grid.name))
    &&& forall|i1: usize, i2: usize|
        grid.has(i1 as int, i2 as int) && (#[trigger] grid.cell(i1 as int, i2 as int)).known() ==> {
            let refname = cell_refname(grid.name, source_of(grid.cell(i1 as int, i2 as int)), i1, i2);
            refs.contains_key(refname) && refs[refname] == grid.commit(i1 as int, i2 as int)
        }
    &&& forall|refname: Seq<char>| #[trigger]
        refs.contains_key(refname) && is_below(grid.name, refname) && refname != state_refname(
            grid.name,
        ) ==> exists|i1: usize, i2: usize|
            {
                &&& grid.has(i1 as int, i2 as int)
                &&& (#[trigger] grid.cell(i1 as int, i2 as int)).known()
                &&& refname == cell_refname(
                    grid.name,
                    source_of(grid.cell(i1 as int, i2 as int)),
                    i1,
                    i2,
                )
            }
}

/// The two maps have the same refs but for those below the name.
pub open spec fn same_outside(a: Refs, b: Refs, name: Seq<char>) -> bool {
    forall|refname: Seq<char>|
        !is_below(name, refname) ==> (#[trigger] b.contains_key(refname) <==> a.contains_key(
            refname,
        )) && b[refname] == a[refname]
}

/// `listed` are the refs below the name. The state is a blob, all else are commits.
pub open spec fn lists(refs: Refs, name: Seq<char>, listed: Seq<RefView>) -> bool {
    &&& forall|k: int, l: int|
        0 <= k < l < listed.len() ==> (#[trigger] listed[k]).2 != (#[trigger] listed[l]).2
    &&& forall|k: int|
        0 <= k < listed.len() ==> {
            &&& is_below(name, (#[trigger] listed[k]).2)
            &&& refs.contains_key(listed[k].2)
            &&& refs[listed[k].2] == listed[k].0
            &&& listed[k].1 == if listed[k].2 == state_refname(name) {
                "blob"@
            } else {
                "commit"@
            }
        }
    &&& forall|refname: Seq<char>| #[trigger]
        refs.contains_key(refname) && is_below(name, refname) ==> exists|k: int|
            0 <= k < listed.len() && (#[trigger] listed[k]).2 == refname
}

// ---------------------------------------------------------------------
// Names of refs
// ---------------------------------------------------------------------

/// Different cells and sources have different refs, and none is that of the state.
proof fn lemma_refnames(
    name: Seq<char>,
    s: Seq<char>,
    i1: usize,
    i2: usize,
    t: Seq<char>,
    j1: usize,
    j2: usize,
)
    requires
        s == "auto"@ || s == "manual"@,
        t == "auto"@ || t == "manual"@,
    ensures
        cell_refname(name, s, i1, i2) == cell_refname(name, t, j1, j2) ==> s == t && i1 == j1 && i2
            == j2,
        cell_refname(name, s, i1, i2) != state_refname(name),
        "auto"@ != "manual"@,
{
    law_cell_ref_reads_back(name, s, i1, i2);
    law_cell_ref_reads_back(name, t, j1, j2);
    law_state_ref_reads_back(name);
    law_decimal_reads_back(i1 as nat, usize::MAX as nat);
    law_decimal_reads_back(i2 as nat, usize::MAX as nat);
    law_decimal_reads_back(j1 as nat, usize::MAX as nat);
    law_decimal_reads_back(j2 as nat, usize::MAX as nat);
    reveal_strlit("auto");
    reveal_strlit("manual");
}

proof fn lemma_no_option(refname: Seq<char>, name: Seq<char>)
    requires
        is_below(name, refname),
    ensures
        refname != "-d"@,
{
    reveal_strlit("-d");
    reveal_strlit("refs/imerge/");
}

// ---------------------------------------------------------------------
// Saving one cell
// ---------------------------------------------------------------------

proof fn lemma_asked(refs: Refs, asked: Seq<RequestView>, r: RequestView, from: nat)
    requires
        from <= asked.len(),
    ensures
        refs_after(refs, asked.push(r), from) == ref_changed(refs_after(refs, asked, from), r),
{
    assert(asked.push(r).drop_last() =~= asked);
}

proof fn lemma_set(
    g: Talk,
    name: Seq<char>,
    source: Seq<char>,
    i1: usize,
    i2: usize,
    sha1: Seq<char>,
    refs: Refs,
    from: nat,
)
    requires
        from <= g.asked.len(),
        g.set_cell_ref(name, source, i1, i2, sha1).1 is Ok,
    ensures
        ({
            let later = g.set_cell_ref(name, source, i1, i2, sha1).0;
            &&& from <= later.asked.len()
            &&& refs_after(refs, later.asked, from) == refs_after(refs, g.asked, from).insert(
                cell_refname(name, source, i1, i2),
                sha1,
            )
        }),
{
    let refname = cell_refname(name, source, i1, i2);
    let args = seq![
        "update-ref"@,
        "-m"@,
        "imerge '"@ + name + "': Record "@ + source + " merge"@,
        refname,
        sha1,
    ];
    law_refs_live_below_the_name(name, source, i1, i2);
    lemma_no_option(refname, name);
    lemma_asked(refs, g.asked, quiet_request(args), from);
}

proof fn lemma_clear(
    g: Talk,
    name: Seq<char>,
    source: Seq<char>,
    i1: usize,
    i2: usize,
    refs: Refs,
    from: nat,
)
    requires
        from <= g.asked.len(),
        g.clear_cell_ref(name, source, i1, i2).1 is Ok,
    ensures
        ({
            let later = g.clear_cell_ref(name, source, i1, i2).0;
            &&& from <= later.asked.len()
            &&& refs_after(refs, later.asked, from) == refs_after(refs, g.asked, from).remove(
                cell_refname(name, source, i1, i2),
            )
        }),
{
    let args = seq![
        "update-ref"@,
        "-m"@,
        "imerge '"@ + name + "': Remove obsolete "@ + source + " merge"@,
        "-d"@,
        cell_refname(name, source, i1, i2),
    ];
    lemma_asked(refs, g.asked, quiet_request(args), from);
}

/// The two maps have the same refs but for the two of a cell.
spec fn same_elsewhere(a: Refs, b: Refs, name: Seq<char>, i1: usize, i2: usize) -> bool {
    forall|refname: Seq<char>|
        refname != cell_refname(name, "auto"@, i1, i2) && refname != cell_refname(
            name,
            "manual"@,
            i1,
            i2,
        ) ==> (#[trigger] b.contains_key(refname) <==> a.contains_key(refname)) && b[refname]
            == a[refname]
}

proof fn lemma_save_bits(x: u8)
    ensures
        x & 0x03 == 0 ==> x & 0x01 == 0,
        x & 0x0c != 0 && x & 0x08 == 0 ==> x & 0x04 != 0,
        (x & 0xfc) & 0x01 == 0,
        (x & 0xfc) & 0x08 == x & 0x08,
        (x & 0xfc) & 0x04 == x & 0x04,
        (x & 0xfc) & 0x0c == x & 0x0c,
        ((x | 4) & !8u8) & 0x04 != 0,
        ((x | 4) & !8u8) & 0x08 == 0,
        ((x | 4) & !8u8) & 0x0e != 0,
        ((x | 4) & !8u8) & 0x01 == x & 0x01,
        ((x | 1) & !2u8) & 0x01 != 0,
        ((x | 1) & !2u8) & 0x04 == x & 0x04,
        x & 0x0c == 0 ==> x & 0x04 == 0 && x & 0x08 == 0,
        x & 0x0c == 0 && x & 0x02 == 0 ==> x & 0x0e == 0,
        x & 0x0f == 0 ==> x & 0x01 == 0 && x & 0x04 == 0,
        x & 0x0f != 0 && x & 0x0c == 0 && x & 0x02 == 0 ==> x & 0x01 != 0,
        x & 0x04 != 0 ==> x & 0x0e != 0,
{
    assert((x & 0x03 == 0 ==> x & 0x01 == 0) && (x & 0x0c != 0 && x & 0x08 == 0 ==> x & 0x04 != 0)
        && (x & 0xfc) & 0x01 == 0 && (x & 0xfc) & 0x08 == x & 0x08 && (x & 0xfc) & 0x04 == x & 0x04
        && (x & 0xfc) & 0x0c == x & 0x0c && ((x | 4) & !8u8) & 0x04 != 0 && ((x | 4) & !8u8) & 0x08
        == 0 && ((x | 4) & !8u8) & 0x0e != 0 && ((x | 4) & !8u8) & 0x01 == x & 0x01) by (bit_vector);
    assert(((x | 1) & !2u8) & 0x01 != 0 && ((x | 1) & !2u8) & 0x04 == x & 0x04 && (x & 0x0c == 0
        ==> x & 0x04 == 0 && x & 0x08 == 0) && (x & 0x0c == 0 && x & 0x02 == 0 ==> x & 0x0e == 0)
        && (x & 0x0f == 0 ==> x & 0x01 == 0 && x & 0x04 == 0) && (x & 0x0f != 0 && x & 0x0c == 0
        && x & 0x02 == 0 ==> x & 0x01 != 0) && (x & 0x04 != 0 ==> x & 0x0e != 0)) by (bit_vector);
}

/// After a cell was saved its refs agree with it again, and no other ref has changed.
proof fn lemma_save_cell(
    g: Talk,
    r: RecordView,
    name: Seq<char>,
    i1: usize,
    i2: usize,
    refs: Refs,
    from: nat,
)
    requires
        r.known(),
        from <= g.asked.len(),
        cell_agrees(r, name, i1, i2, refs_after(refs, g.asked, from)),
        g.save_cell(r, name, i1, i2).2 is Ok,
    ensures
        ({
            let (later, saved, _) = g.save_cell(r, name, i1, i2);
            let before = refs_after(refs, g.asked, from);
            let after = refs_after(refs, later.asked, from);
            &&& from <= later.asked.len()
            &&& cell_agrees(saved, name, i1, i2, after)
            &&& same_elsewhere(before, after, name, i1, i2)
        }),
{
    let sha1 = r.sha1->0;
    lemma_refnames(name, "auto"@, i1, i2, "manual"@, i1, i2);
    lemma_save_bits(r.flags);
    lemma_save_bits(r.flags & 0xfc);
    if r.manual() {
        let (g1, r1, _) = g.drop_auto(r, name, i1, i2);
        if r.flags & 0x03 != 0 && r.flags & 0x01 != 0 {
            lemma_clear(g, name, "auto"@, i1, i2, refs, from);
        }
        if r1.flags & 0x08 != 0 {
            lemma_set(g1, name, "manual"@, i1, i2, sha1, refs, from);
        }
    } else if r.flags & 0x02 != 0 {
        lemma_set(g, name, "auto"@, i1, i2, sha1, refs, from);
    }
}

// ---------------------------------------------------------------------
// Saving all of it
// ---------------------------------------------------------------------

/// A change to the two refs of one cell leaves the others as they agree.
proof fn lemma_cell_replaced(
    grid: GridView,
    before: Refs,
    after: Refs,
    i1: usize,
    i2: usize,
    r: RecordView,
)
    requires
        grid.wf(),
        grid.has(i1 as int, i2 as int),
        agrees(grid, before),
        same_elsewhere(before, after, grid.name, i1, i2),
        cell_agrees(r, grid.name, i1, i2, after),
    ensures
        agrees(grid.with(i1 as int, i2 as int, r), after),
{
    let later = grid.with(i1 as int, i2 as int, r);
    let name = grid.name;
    assert(grid.cells[i1 as int].len() == grid.len2);
    assert forall|j1: usize, j2: usize| later.has(j1 as int, j2 as int) implies cell_agrees(
        #[trigger] later.cell(j1 as int, j2 as int),
        name,
        j1,
        j2,
        after,
    ) by {
        assert(grid.cells[j1 as int].len() == grid.len2);
        if j1 != i1 || j2 != i2 {
            assert(later.cell(j1 as int, j2 as int) == grid.cell(j1 as int, j2 as int));
            lemma_refnames(name, "auto"@, j1, j2, "auto"@, i1, i2);
            lemma_refnames(name, "auto"@, j1, j2, "manual"@, i1, i2);
            lemma_refnames(name, "manual"@, j1, j2, "auto"@, i1, i2);
            lemma_refnames(name, "manual"@, j1, j2, "manual"@, i1, i2);
            let auto = cell_refname(name, "auto"@, j1, j2);
            let manual = cell_refname(name, "manual"@, j1, j2);
            assert(after.contains_key(auto) <==> before.contains_key(auto));
            assert(after.contains_key(manual) <==> before.contains_key(manual));
        }
    }
    assert forall|refname: Seq<char>| #[trigger]
        after.contains_key(refname) && is_below(name, refname) implies refname == state_refname(
        name,
    ) || is_cell_ref(later, refname) by {
        if refname != cell_refname(name, "auto"@, i1, i2) && refname != cell_refname(
            name,
            "manual"@,
            i1,
            i2,
        ) {
            assert(before.contains_key(refname));
            if refname != state_refname(name) {
                assert(is_cell_ref(grid, refname));
                let (source, j1, j2) = choose|source: Seq<char>, j1: usize, j2: usize|
                    (source == "auto"@ || source == "manual"@) && grid.has(j1 as int, j2 as int)
                        && refname == #[trigger] cell_refname(grid.name, source, j1, j2);
                assert(later.has(j1 as int, j2 as int));
                assert(refname == cell_refname(later.name, source, j1, j2));
            }
        } else {
            assert(later.has(i1 as int, i2 as int));
            assert(cell_refname(later.name, "auto"@, i1, i2) == cell_refname(name, "auto"@, i1, i2));
            assert(cell_refname(later.name, "manual"@, i1, i2) == cell_refname(
                name,
                "manual"@,
                i1,
                i2,
            ));
        }
    }
}

proof fn lemma_save_cells(
    g: Talk,
    grid: GridView,
    i1: usize,
    i2: usize,
    blockers: Seq<(usize, usize)>,
    refs: Refs,
    from: nat,
)
    requires
        is_ready(grid),
        from <= g.asked.len(),
        agrees(grid, refs_after(refs, g.asked, from)),
        g.save_cells(grid, i1, i2, blockers).2 is Ok,
    ensures
        from <= g.save_cells(grid, i1, i2, blockers).0.asked.len(),
        agrees(
            g.save_cells(grid, i1, i2, blockers).1,
            refs_after(refs, g.save_cells(grid, i1, i2, blockers).0.asked, from),
        ),
        same_outside(
            refs_after(refs, g.asked, from),
            refs_after(refs, g.save_cells(grid, i1, i2, blockers).0.asked, from),
            grid.name,
        ),
    decreases grid.len2 - i2, grid.len1 - i1,
{
    if i2 < grid.len2 {
        if i1 >= grid.len1 {
            lemma_save_cells(g, grid, 0, (i2 + 1) as usize, blockers, refs, from);
        } else {
            let (g2, grid2, _) = g.save_at(grid, i1, i2);
            let cell = grid.cell(i1 as int, i2 as int);
            lemma_save_at(g, grid, i1, i2);
            if cell.known() {
                lemma_save_cell(g, cell, grid.name, i1, i2, refs, from);
                law_refs_live_below_the_name(grid.name, "auto"@, i1, i2);
                law_refs_live_below_the_name(grid.name, "manual"@, i1, i2);
                lemma_cell_replaced(
                    grid,
                    refs_after(refs, g.asked, from),
                    refs_after(refs, g2.asked, from),
                    i1,
                    i2,
                    g.save_cell(cell, grid.name, i1, i2).1,
                );
            }
            let more = if grid2.blocked(i1 as int, i2 as int) {
                blockers.push((i1, i2))
            } else {
                blockers
            };
            lemma_save_cells(g2, grid2, (i1 + 1) as usize, i2, more, refs, from);
        }
    }
}

/// Writing the state changes the ref of the state and no other.
proof fn lemma_write_state(g: Talk, name: Seq<char>, state: StateDictView, refs: Refs, from: nat)
    requires
        from <= g.asked.len(),
        g.write_imerge_state_dict(name, state).1 is Ok,
    ensures
        exists|sha1: Seq<char>|
            refs_after(refs, g.write_imerge_state_dict(name, state).0.asked, from)
                == #[trigger] refs_after(refs, g.asked, from).insert(state_refname(name), sha1),
{
    let (g1, encoded) = g.encode_state(state);
    lemma_asked(refs, g.asked, RequestView::EncodeState(state), from);
    let json = encoded->Ok_0;
    let hash = seq!["hash-object"@, "-t"@, "blob"@, "-w"@, "--stdin"@];
    let (g2, hashed) = g1.run_stdin(hash, json + "\n"@);
    let r = RequestView::Git { args: hash, stdin: Some(json + "\n"@), env: None, loud: false };
    lemma_asked(refs, g1.asked, r, from);
    reveal_strlit("hash-object");
    reveal_strlit("update-ref");
    assert(hash[0] != "update-ref"@);
    let sha1 = hashed->Ok_0;
    let args = seq![
        "update-ref"@,
        "-m"@,
        "imerge '"@ + name + "': Record state"@,
        state_refname(name),
        sha1,
    ];
    law_refs_live_below_the_name(name, "auto"@, 0, 0);
    lemma_no_option(state_refname(name), name);
    lemma_asked(refs, g2.asked, quiet_request(args), from);
    assert(refs_after(refs, g.write_imerge_state_dict(name, state).0.asked, from) == refs_after(
        refs,
        g.asked,
        from,
    ).insert(state_refname(name), sha1));
}

/// Once everything is saved, what agrees with the grid is what is kept of it.
proof fn lemma_kept(grid: GridView, later: GridView, refs: Refs)
    requires
        is_ready(grid),
        is_ready(later),
        same_results(grid, later),
        agrees(later, refs),
        is_saved(later),
        refs.contains_key(state_refname(grid.name)),
    ensures
        are_kept(grid, refs),
{
    assert forall|i1: usize, i2: usize|
        grid.has(i1 as int, i2 as int) && (#[trigger] grid.cell(
            i1 as int,
            i2 as int,
        )).known() implies {
        let refname = cell_refname(grid.name, source_of(grid.cell(i1 as int, i2 as int)), i1, i2);
        refs.contains_key(refname) && refs[refname] == grid.commit(i1 as int, i2 as int)
    } by {
        let r = later.cell(i1 as int, i2 as int);
        assert(r.consistent() && settled(r));
        lemma_save_bits(r.flags);
        lemma_settled_bits(r.flags);
        assert(cell_agrees(r, grid.name, i1, i2, refs));
    }
    assert forall|refname: Seq<char>| #[trigger]
        refs.contains_key(refname) && is_below(grid.name, refname) && refname != state_refname(
            grid.name,
        ) implies exists|i1: usize, i2: usize|
        {
            &&& grid.has(i1 as int, i2 as int)
            &&& (#[trigger] grid.cell(i1 as int, i2 as int)).known()
            &&& refname == cell_refname(
                grid.name,
                source_of(grid.cell(i1 as int, i2 as int)),
                i1,
                i2,
            )
        } by {
        assert(is_cell_ref(later, refname));
        let (source, i1, i2) = choose|source: Seq<char>, i1: usize, i2: usize|
            (source == "auto"@ || source == "manual"@) && later.has(i1 as int, i2 as int) && refname
                == #[trigger] cell_refname(later.name, source, i1, i2);
        let r = later.cell(i1 as int, i2 as int);
        assert(r.consistent());
        assert(cell_agrees(r, grid.name, i1, i2, refs));
        lemma_save_bits(r.flags);
        lemma_settled_bits(r.flags);
        assert(r.known());
        assert(settled(r));
        lemma_refnames(grid.name, "auto"@, i1, i2, "manual"@, i1, i2);
        assert(source == source_of(r));
        assert(grid.cell(i1 as int, i2 as int).known());
    }
}

proof fn lemma_settled_bits(x: u8)
    ensures
        x & 0x0a == 0 ==> x & 0x08 == 0 && x & 0x02 == 0,
        x & 0x04 != 0 ==> x & 0x0c != 0 && x & 0x0f != 0,
        x & 0x01 != 0 ==> x & 0x0f != 0 && x & 0x03 != 0,
{
    assert((x & 0x0a == 0 ==> x & 0x08 == 0 && x & 0x02 == 0) && (x & 0x04 != 0 ==> x & 0x0c != 0
        && x & 0x0f != 0) && (x & 0x01 != 0 ==> x & 0x0f != 0 && x & 0x03 != 0)) by (bit_vector);
}

/// Once saving has succeeded the refs below the name are exactly those of the merge
/// results, each from its source, and that of the state. They agree with the grid
/// as it is left, and no ref elsewhere has changed.
pub proof fn law_save_leaves_what_is_kept(g: Talk, s: MergeStateView, refs: Refs)
    requires
        s.wf(),
        agrees(s.grid, refs),
        g.save_imerge(s).2 is Ok,
    ensures
        ({
            let (later, t, _) = g.save_imerge(s);
            let left = refs_after(refs, later.asked, g.asked.len());
            &&& are_kept(s.grid, left)
            &&& agrees(t.grid, left)
            &&& same_outside(refs, left, s.grid.name)
        }),
{
    reveal(Talk::save_imerge);
    let from = g.asked.len();
    let none = Seq::<(usize, usize)>::empty();
    let (g1, grid, r) = g.save_cells(s.grid, 0, 0, none);
    law_save_is_complete(g, s);
    lemma_save_cells(g, s.grid, 0, 0, none, refs, from);
    let state = stored_state(s, r->Ok_0);
    let name = s.grid.name;
    lemma_write_state(g1, name, state, refs, from);
    let (g2, _) = g1.write_imerge_state_dict(name, state);
    let before = refs_after(refs, g1.asked, from);
    let left = refs_after(refs, g2.asked, from);
    let sha1 = choose|sha1: Seq<char>|
        left == #[trigger] before.insert(state_refname(name), sha1);
    assert(agrees(grid, left)) by {
        assert forall|i1: usize, i2: usize| grid.has(i1 as int, i2 as int) implies cell_agrees(
            #[trigger] grid.cell(i1 as int, i2 as int),
            name,
            i1,
            i2,
            left,
        ) by {
            lemma_refnames(name, "auto"@, i1, i2, "auto"@, i1, i2);
            lemma_refnames(name, "manual"@, i1, i2, "auto"@, i1, i2);
            assert(cell_agrees(grid.cell(i1 as int, i2 as int), name, i1, i2, before));
        }
        assert forall|refname: Seq<char>| #[trigger]
            left.contains_key(refname) && is_below(name, refname) implies refname == state_refname(
            name,
        ) || is_cell_ref(grid, refname) by {
            if refname != state_refname(name) {
                assert(before.contains_key(refname));
            }
        }
    }
    law_refs_live_below_the_name(name, "auto"@, 0, 0);
    lemma_kept(s.grid, grid, left);
}

// ---------------------------------------------------------------------
// Reading it back
// ---------------------------------------------------------------------

/// What a listed ref is for.
spec fn place_in(grid: GridView, refname: Seq<char>) -> Option<(usize, usize)> {
    if refname == state_refname(grid.name) {
        None
    } else {
        Some(
            choose|at: (usize, usize)|
                {
                    &&& grid.has(at.0 as int, at.1 as int)
                    &&& grid.known(at.0 as int, at.1 as int)
                    &&& refname == #[trigger] cell_refname(
                        grid.name,
                        source_of(grid.cell(at.0 as int, at.1 as int)),
                        at.0,
                        at.1,
                    )
                },
        )
    }
}

/// A list of what is kept is what reading asks for.
pub proof fn law_kept_refs_can_be_read(
    grid: GridView,
    refs: Refs,
    listed: Seq<RefView>,
) -> (ats: Seq<Option<(usize, usize)>>)
    requires
        are_kept(grid, refs),
        lists(refs, grid.name, listed),
    ensures
        are_refs_of(grid, listed, ats),
{
    let name = grid.name;
    let ats = Seq::new(listed.len(), |k: int| place_in(grid, listed[k].2));
    law_refs_live_below_the_name(name, "auto"@, 0, 0);
    assert forall|k: int| 0 <= k < listed.len() implies is_ref_for(
        grid,
        #[trigger] listed[k],
        ats[k],
    ) by {
        let refname = listed[k].2;
        assert(refs.contains_key(refname) && is_below(name, refname));
        if refname != state_refname(name) {
            let (i1, i2) = choose|i1: usize, i2: usize|
                {
                    &&& grid.has(i1 as int, i2 as int)
                    &&& (#[trigger] grid.cell(i1 as int, i2 as int)).known()
                    &&& refname == cell_refname(
                        name,
                        source_of(grid.cell(i1 as int, i2 as int)),
                        i1,
                        i2,
                    )
                };
            let at = (i1, i2);
            assert(grid.known(at.0 as int, at.1 as int) && refname == cell_refname(
                name,
                source_of(grid.cell(at.0 as int, at.1 as int)),
                at.0,
                at.1,
            ));
            let (j1, j2) = place_in(grid, refname)->0;
            assert(grid.cell(j1 as int, j2 as int).known());
        }
    }
    assert forall|i1: usize, i2: usize|
        grid.has(i1 as int, i2 as int) && grid.known(
            i1 as int,
            i2 as int,
        ) implies #[trigger] ats.contains(Some((i1, i2))) by {
        let source = source_of(grid.cell(i1 as int, i2 as int));
        let refname = cell_refname(name, source, i1, i2);
        assert(grid.cell(i1 as int, i2 as int).known());
        law_refs_live_below_the_name(name, source, i1, i2);
        assert(refs.contains_key(refname) && is_below(name, refname));
        let k = choose|k: int| 0 <= k < listed.len() && (#[trigger] listed[k]).2 == refname;
        lemma_refnames(name, source, i1, i2, source, i1, i2);
        assert(is_ref_for(grid, listed[k], ats[k]));
        let (j1, j2) = ats[k]->0;
        lemma_refnames(
            name,
            source,
            i1,
            i2,
            source_of(grid.cell(j1 as int, j2 as int)),
            j1,
            j2,
        );
        assert(ats[k] == Some((i1, i2)));
    }
    assert(ats.contains(None)) by {
        let refname = state_refname(name);
        assert(refs.contains_key(refname) && is_below(name, refname));
        let k = choose|k: int| 0 <= k < listed.len() && (#[trigger] listed[k]).2 == refname;
        assert(ats[k] is None);
    }
    assert(ats.no_duplicates()) by {
        assert forall|k: int, l: int|
            0 <= k < ats.len() && 0 <= l < ats.len() && k != l implies ats[k] != ats[l] by {
            assert(is_ref_for(grid, listed[k], ats[k]));
            assert(is_ref_for(grid, listed[l], ats[l]));
            if k < l {
                assert(listed[k].2 != listed[l].2);
            } else {
                assert(listed[l].2 != listed[k].2);
            }
        }
    }
    ats
}

/// What was saved is read back. Where saving has succeeded, nothing else has changed
/// the refs below the name, and the state that is found is the one that was written,
/// reading gives the same incremental merge: tips, goal, options and branch, every
/// merge result with its source, and every mark. What is read agrees with the refs
/// again. The only error is that a pattern for the name cannot be compiled.
pub proof fn law_what_was_saved_is_read_back(
    g: Talk,
    s: MergeStateView,
    refs: Refs,
    later: Talk,
    listed: Seq<RefView>,
)
    requires
        s.wf(),
        is_goal(s.goal),
        agrees(s.grid, refs),
        g.save_imerge(s).2 is Ok,
        lists(refs_after(refs, g.save_imerge(s).0.asked, g.asked.len()), s.grid.name, listed),
        ({
            let (h, found) = later.for_each_ref("refs/imerge/"@ + s.grid.name);
            &&& found == Ok::<Seq<RefView>, ErrorView>(listed)
            &&& h.read_imerge_state_dict(s.grid.name).1 == Ok::<StateDictView, ErrorView>(
                written_state(g, s),
            )
        }),
    ensures
        match later.read_imerge(s.grid.name).1 {
            Ok(t) => {
                &&& t == s.with_grid(t.grid)
                &&& same_results(s.grid, t.grid)
                &&& is_saved(t.grid)
                &&& agrees(
                    t.grid,
                    refs_after(refs, g.save_imerge(s).0.asked, g.asked.len()),
                )
            },
            Err(e) => is_pattern_error(s.grid.name, listed, e),
        },
{
    let left = refs_after(refs, g.save_imerge(s).0.asked, g.asked.len());
    law_save_leaves_what_is_kept(g, s, refs);
    law_save_is_complete(g, s);
    reveal(Talk::save_imerge);
    let blockers = g.save_cells(s.grid, 0, 0, Seq::empty()).2->Ok_0;
    let ats = law_kept_refs_can_be_read(s.grid, left, listed);
    law_read_gives_back(later, s, blockers, listed, ats);
    if let Ok(t) = later.read_imerge(s.grid.name).1 {
        lemma_read_agrees(s.grid, t.grid, left);
    }
}

/// A command that is given the name reads back what was saved, under the same
/// conditions, once it has chosen that name.
pub proof fn law_what_was_saved_is_read_by_a_command(
    g: Talk,
    s: MergeStateView,
    refs: Refs,
    later: Talk,
    listed: Seq<RefView>,
)
    requires
        s.wf(),
        is_goal(s.goal),
        agrees(s.grid, refs),
        g.save_imerge(s).2 is Ok,
        lists(refs_after(refs, g.save_imerge(s).0.asked, g.asked.len()), s.grid.name, listed),
        ({
            let (chosen, name) = later.choose_merge_name(Some(s.grid.name));
            let (h, found) = chosen.for_each_ref("refs/imerge/"@ + s.grid.name);
            &&& name is Ok
            &&& found == Ok::<Seq<RefView>, ErrorView>(listed)
            &&& h.read_imerge_state_dict(s.grid.name).1 == Ok::<StateDictView, ErrorView>(
                written_state(g, s),
            )
        }),
    ensures
        match later.read_merge_state(Some(s.grid.name)).1 {
            Ok(t) => {
                &&& t == s.with_grid(t.grid)
                &&& same_results(s.grid, t.grid)
                &&& is_saved(t.grid)
                &&& agrees(
                    t.grid,
                    refs_after(refs, g.save_imerge(s).0.asked, g.asked.len()),
                )
            },
            Err(e) => is_pattern_error(s.grid.name, listed, e),
        },
{
    reveal(Talk::read_merge_state);
    let chosen = later.choose_merge_name(Some(s.grid.name)).0;
    law_what_was_saved_is_read_back(g, s, refs, chosen, listed);
}

/// The state that saving writes.
pub open spec fn written_state(g: Talk, s: MergeStateView) -> StateDictView {
    stored_state(s, g.save_cells(s.grid, 0, 0, Seq::empty()).2->Ok_0)
}

proof fn lemma_read_agrees(grid: GridView, later: GridView, refs: Refs)
    requires
        grid.sound(),
        later.sound(),
        same_results(grid, later),
        is_saved(later),
        are_kept(grid, refs),
    ensures
        agrees(later, refs),
{
    let name = grid.name;
    assert forall|i1: usize, i2: usize| later.has(i1 as int, i2 as int) implies cell_agrees(
        #[trigger] later.cell(i1 as int, i2 as int),
        name,
        i1,
        i2,
        refs,
    ) by {
        let r = later.cell(i1 as int, i2 as int);
        let before = grid.cell(i1 as int, i2 as int);
        assert(r.consistent());
        lemma_save_bits(r.flags);
        lemma_settled_bits(r.flags);
        if r.known() {
            assert(settled(r));
            assert(before.known());
        }
        lemma_kept_only(grid, refs, "auto"@, i1, i2);
        lemma_kept_only(grid, refs, "manual"@, i1, i2);
        lemma_refnames(name, "auto"@, i1, i2, "manual"@, i1, i2);
    }
    assert forall|refname: Seq<char>| #[trigger]
        refs.contains_key(refname) && is_below(name, refname) implies refname == state_refname(name)
        || is_cell_ref(later, refname) by {
        if refname != state_refname(name) {
            let (i1, i2) = choose|i1: usize, i2: usize|
                {
                    &&& grid.has(i1 as int, i2 as int)
                    &&& (#[trigger] grid.cell(i1 as int, i2 as int)).known()
                    &&& refname == cell_refname(
                        name,
                        source_of(grid.cell(i1 as int, i2 as int)),
                        i1,
                        i2,
                    )
                };
            let source = source_of(grid.cell(i1 as int, i2 as int));
            assert(later.has(i1 as int, i2 as int));
            assert(refname == cell_refname(later.name, source, i1, i2));
        }
    }
}

/// A ref of a cell is kept exactly for a merge result from that source.
proof fn lemma_kept_only(grid: GridView, refs: Refs, source: Seq<char>, i1: usize, i2: usize)
    requires
        are_kept(grid, refs),
        source == "auto"@ || source == "manual"@,
        grid.has(i1 as int, i2 as int),
    ensures
        refs.contains_key(cell_refname(grid.name, source, i1, i2)) <==> grid.known(
            i1 as int,
            i2 as int,
        ) && source == source_of(grid.cell(i1 as int, i2 as int)),
{
    let name = grid.name;
    let refname = cell_refname(name, source, i1, i2);
    law_refs_live_below_the_name(name, source, i1, i2);
    lemma_refnames(name, source, i1, i2, source, i1, i2);
    if refs.contains_key(refname) {
        let (j1, j2) = choose|j1: usize, j2: usize|
            {
                &&& grid.has(j1 as int, j2 as int)
                &&& (#[trigger] grid.cell(j1 as int, j2 as int)).known()
                &&& refname == cell_refname(
                    name,
                    source_of(grid.cell(j1 as int, j2 as int)),
                    j1,
                    j2,
                )
            };
        let other = source_of(grid.cell(j1 as int, j2 as int));
        lemma_refnames(name, source, i1, i2, other, j1, j2);
    }
    if grid.known(i1 as int, i2 as int) {
        assert(grid.cell(i1 as int, i2 as int).known());
    }
}

// ---------------------------------------------------------------------
// In between
// ---------------------------------------------------------------------

/// An incremental merge that is just set up agrees with a repository that has
/// nothing below its name.
pub proof fn law_a_new_grid_agrees(
    name: Seq<char>,
    base: Seq<char>,
    commits1: Seq<Seq<char>>,
    commits2: Seq<Seq<char>>,
    dedupe_patches: bool,
    refs: Refs,
)
    requires
        forall|refname: Seq<char>| #[trigger]
            refs.contains_key(refname) ==> !is_below(name, refname),
    ensures
        agrees(
            edge_grid(name, base, commits1, commits2, MergeRecord::NEW_MANUAL, dedupe_patches),
            refs,
        ),
{
    let source = MergeRecord::NEW_MANUAL;
    let grid = edge_grid(name, base, commits1, commits2, source, dedupe_patches);
    assert forall|i1: usize, i2: usize| grid.has(i1 as int, i2 as int) implies cell_agrees(
        #[trigger] grid.cell(i1 as int, i2 as int),
        name,
        i1,
        i2,
        refs,
    ) by {
        law_refs_live_below_the_name(name, "auto"@, i1, i2);
        law_refs_live_below_the_name(name, "manual"@, i1, i2);
        assert(i1 < commits1.len() + 1 && i2 < commits2.len() + 1);
        assert(grid.cell(i1 as int, i2 as int) == edge_cell(
            base,
            commits1,
            commits2,
            source,
            i1 as int,
            i2 as int,
        ));
        assert(((0u8 | 8) & 0xfd) & 0x01 == 0 && ((0u8 | 8) & 0xfd) & 0x04 == 0 && 0u8 & 0x01 == 0
            && 0u8 & 0x04 == 0) by (bit_vector);
    }
}

proof fn lemma_recorded(
    r: RecordView,
    name: Seq<char>,
    i1: usize,
    i2: usize,
    refs: Refs,
    sha1: Seq<char>,
    source: u8,
    blocked: bool,
)
    requires
        cell_agrees(r, name, i1, i2, refs),
        source == MergeRecord::NEW_AUTO || source == MergeRecord::NEW_MANUAL,
    ensures
        cell_agrees(r.merged(sha1, source), name, i1, i2, refs),
        cell_agrees(r.marked(blocked), name, i1, i2, refs),
{
    let x = r.flags;
    assert((x | 2) & 0x01 == x & 0x01 && (x | 2) & 0x04 == x & 0x04 && (x | 2) & 0x0e != 0 && (x & 0x0c
        == 0 ==> x & 0x04 == 0) && ((x | 8) & 0xfd) & 0x01 == x & 0x01 && ((x | 8) & 0xfd) & 0x04
        == x & 0x04 && ((x | 8) & 0xfd) & 0x08 != 0 && ((x | 8) & 0xfd) & 0x0e != 0)
        by (bit_vector);
    assert((x | 0x10) & 0x01 == x & 0x01 && (x | 0x10) & 0x04 == x & 0x04 && (x | 0x10) & 0x08 == x
        & 0x08 && (x | 0x10) & 0x0e == x & 0x0e && (x & 0xef) & 0x01 == x & 0x01 && (x & 0xef)
        & 0x04 == x & 0x04 && (x & 0xef) & 0x08 == x & 0x08 && (x & 0xef) & 0x0e == x & 0x0e)
        by (bit_vector);
}

/// Recording a new merge result or a mark changes nothing that is saved, so the grid
/// still agrees with the refs.
pub proof fn law_recording_keeps_agreement(
    grid: GridView,
    i1: usize,
    i2: usize,
    refs: Refs,
    sha1: Seq<char>,
    source: u8,
    blocked: bool,
)
    requires
        grid.wf(),
        grid.has(i1 as int, i2 as int),
        agrees(grid, refs),
        source == MergeRecord::NEW_AUTO || source == MergeRecord::NEW_MANUAL,
    ensures
        ({
            let cell = grid.cell(i1 as int, i2 as int);
            &&& agrees(grid.with(i1 as int, i2 as int, cell.merged(sha1, source)), refs)
            &&& agrees(grid.with(i1 as int, i2 as int, cell.marked(blocked)), refs)
        }),
{
    let cell = grid.cell(i1 as int, i2 as int);
    lemma_recorded(cell, grid.name, i1, i2, refs, sha1, source, blocked);
    lemma_cell_replaced(grid, refs, refs, i1, i2, cell.merged(sha1, source));
    lemma_cell_replaced(grid, refs, refs, i1, i2, cell.marked(blocked));
}

} // verus!
