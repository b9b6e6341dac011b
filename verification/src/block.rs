//! The grid of commits and rectangular windows into it.
//!
//! Cell `(i1, i2)` of a [`Grid`] stands for the merge of the first `i1` commits
//! of one branch with the first `i2` commits of the other. Row 0 and column 0
//! are the commits of the branches themselves, with the merge base at `(0, 0)`.
//! A [`Rect`] is a window into the grid with its own origin; it is plain data,
//! and the grid is passed beside it.
use vstd::prelude::*;

use crate::error::{res, ErrorView, ImergeError};
use crate::text::{cat4, copied_option, decimal, number, signed_decimal, signed_number};

verus! {

// ---------------------------------------------------------------------
// MergeRecord
// ---------------------------------------------------------------------

/// One cell of the grid: at most one merge result, and bits that say where it
/// came from and whether it is saved to a ref.
#[derive(Clone, Debug)]
pub struct MergeRecord {
    pub sha1: Option<String>,
    pub flags: u8,
}

/// The content of a [`MergeRecord`].
pub struct RecordView {
    pub sha1: Option<Seq<char>>,
    pub flags: u8,
}

impl DeepView for MergeRecord {
    type V = RecordView;

    open spec fn deep_view(&self) -> RecordView {
        RecordView { sha1: self.sha1.deep_view(), flags: self.flags }
    }
}

impl RecordView {
    /// A cell of which nothing is known.
    pub open spec fn unknown() -> RecordView {
        RecordView { sha1: None, flags: 0 }
    }

    /// Whether the cell has a merge result.
    pub open spec fn known(self) -> bool {
        self.sha1 is Some
    }

    /// Whether the cell is marked as blocking progress.
    pub open spec fn blocked(self) -> bool {
        self.flags & 0x10 != 0
    }

    /// Whether the merge result was made by the user.
    pub open spec fn manual(self) -> bool {
        self.flags & 0x0c != 0
    }

    /// A cell has a merge result exactly where some source of one is recorded.
    pub open spec fn consistent(self) -> bool {
        self.known() <==> self.flags & 0x0f != 0
    }

    /// The cell after `sha1` was recorded from `source`. A saved automatic
    /// result counts only where nothing else is known, a new automatic one only
    /// where no manual one is recorded, a saved manual one unless a new manual
    /// one is recorded, and a new manual one always.
    pub open spec fn merged(self, sha1: Seq<char>, source: u8) -> RecordView {
        if source == MergeRecord::SAVED_AUTO {
            RecordView {
                sha1: if self.flags & 0x0e == 0 {
                    Some(sha1)
                } else {
                    self.sha1
                },
                flags: self.flags | source,
            }
        } else if source == MergeRecord::NEW_AUTO {
            if self.flags & 0x0c == 0 {
                RecordView { sha1: Some(sha1), flags: self.flags | source }
            } else {
                self
            }
        } else if source == MergeRecord::SAVED_MANUAL {
            RecordView {
                sha1: if self.flags & 0x08 == 0 {
                    Some(sha1)
                } else {
                    self.sha1
                },
                flags: self.flags | source,
            }
        } else {
            RecordView { sha1: Some(sha1), flags: (self.flags | source) & 0xfd }
        }
    }

    /// The cell after it was marked as blocked or not blocked.
    pub open spec fn marked(self, blocked: bool) -> RecordView {
        RecordView {
            flags: if blocked {
                self.flags | 0x10
            } else {
                self.flags & 0xef
            },
            ..self
        }
    }
}

/// Whether `source` is one of the four sources of a merge result.
pub open spec fn is_source(source: u8) -> bool {
    source == 1 || source == 2 || source == 4 || source == 8
}

impl MergeRecord {
    /// An automatic merge that is saved to a ref.
    pub const SAVED_AUTO: u8 = 0x01;

    /// An automatic merge that is not saved yet.
    pub const NEW_AUTO: u8 = 0x02;

    /// A manual merge that is saved to a ref.
    pub const SAVED_MANUAL: u8 = 0x04;

    /// A manual merge that is not saved yet.
    pub const NEW_MANUAL: u8 = 0x08;

    /// The cell is marked as blocking progress.
    pub const BLOCKED: u8 = 0x10;

    /// Either saved source.
    pub const SAVED: u8 = 0x05;

    /// Either new source.
    pub const NEW: u8 = 0x0a;

    /// Either automatic source.
    pub const AUTO: u8 = 0x03;

    /// Either manual source.
    pub const MANUAL: u8 = 0x0c;

    /// A cell of which nothing is known.
    pub fn new() -> (r: Self)
        ensures
            r.deep_view() == RecordView::unknown(),
    {
        MergeRecord { sha1: None, flags: 0 }
    }

    /// Records a merge result. `source` is one of the four `*_AUTO` and
    /// `*_MANUAL` constants.
    pub fn record_merge(&mut self, sha1: &str, source: u8)
        requires
            is_source(source),
        ensures
            final(self).deep_view() == old(self).deep_view().merged(sha1@, source),
    {
        if source == Self::SAVED_AUTO {
            if self.flags & 0x0e == 0 {
                self.sha1 = Some(sha1.to_owned());
            }
            self.flags = self.flags | source;
        } else if source == Self::NEW_AUTO {
            if self.flags & Self::MANUAL == 0 {
                self.sha1 = Some(sha1.to_owned());
                self.flags = self.flags | source;
            }
        } else if source == Self::SAVED_MANUAL {
            if self.flags & Self::NEW_MANUAL == 0 {
                self.sha1 = Some(sha1.to_owned());
            }
            self.flags = self.flags | source;
        } else {
            self.sha1 = Some(sha1.to_owned());
            self.flags = (self.flags | source) & 0xfd;
        }
    }

    /// Marks the cell as blocked or not blocked.
    pub fn record_blocked(&mut self, blocked: bool)
        ensures
            final(self).deep_view() == old(self).deep_view().marked(blocked),
    {
        if blocked {
            self.flags = self.flags | Self::BLOCKED;
        } else {
            self.flags = self.flags & 0xef;
        }
    }

    /// Whether the cell has a merge result.
    pub fn is_known(&self) -> (r: bool)
        ensures
            r == self.deep_view().known(),
    {
        self.sha1.is_some()
    }

    /// Whether the cell is marked as blocking progress.
    pub fn is_blocked(&self) -> (r: bool)
        ensures
            r == self.deep_view().blocked(),
    {
        self.flags & Self::BLOCKED != 0
    }

    /// Whether the merge result was made by the user.
    pub fn is_manual(&self) -> (r: bool)
        ensures
            r == self.deep_view().manual(),
    {
        self.flags & Self::MANUAL != 0
    }
}

impl Default for MergeRecord {
    fn default() -> (r: Self)
        ensures
            r.deep_view() == RecordView::unknown(),
    {
        MergeRecord::new()
    }
}

/// A recorded manual result is never replaced by an automatic one, whether new
/// or saved.
pub proof fn law_manual_beats_auto(r: RecordView, sha1: Seq<char>, source: u8)
    requires
        r.manual(),
        source == MergeRecord::SAVED_AUTO || source == MergeRecord::NEW_AUTO,
    ensures
        r.merged(sha1, source).sha1 == r.sha1,
        r.merged(sha1, source).manual(),
{
    let f = r.flags;
    assert(f & 0x0c != 0 ==> f & 0x0e != 0 && (f | 1) & 0x0c != 0) by (bit_vector);
}

/// A manual result replaces any automatic one.
pub proof fn law_manual_replaces_auto(r: RecordView, sha1: Seq<char>, source: u8)
    requires
        !r.manual(),
        source == MergeRecord::SAVED_MANUAL || source == MergeRecord::NEW_MANUAL,
    ensures
        r.merged(sha1, source).sha1 == Some(sha1),
        r.merged(sha1, source).manual(),
{
    let f = r.flags;
    assert(f & 0x0c == 0 ==> f & 0x08 == 0) by (bit_vector);
    assert((f | 4) & 0x0c != 0 && ((f | 8) & 0xfd) & 0x0c != 0) by (bit_vector);
}

/// A saved result is only a fallback: it changes nothing where a new result of
/// its own kind, or a manual one for an automatic one, is recorded.
pub proof fn law_saved_is_fallback(r: RecordView, sha1: Seq<char>)
    ensures
        r.flags & MergeRecord::NEW != 0 ==> r.merged(sha1, MergeRecord::SAVED_AUTO).sha1 == r.sha1,
        r.flags & MergeRecord::NEW_MANUAL != 0 ==> r.merged(sha1, MergeRecord::SAVED_MANUAL).sha1
            == r.sha1,
{
    let f = r.flags;
    assert(f & 0x0a != 0 ==> f & 0x0e != 0) by (bit_vector);
}

/// A cell has a merge result exactly where a source of one is recorded. New
/// cells are so, and recording a merge or a mark keeps it.
pub proof fn law_records_stay_consistent(r: RecordView, sha1: Seq<char>, source: u8, blocked: bool)
    requires
        r.consistent(),
        is_source(source),
    ensures
        RecordView::unknown().consistent(),
        r.merged(sha1, source).consistent(),
        r.merged(sha1, source).known(),
        r.marked(blocked).consistent(),
{
    let f = r.flags;
    assert(0u8 & 0x0f == 0) by (bit_vector);
    assert(f & 0x0e != 0 ==> f & 0x0f != 0) by (bit_vector);
    assert(f & 0x0c != 0 ==> f & 0x0f != 0) by (bit_vector);
    assert(f & 0x08 != 0 ==> f & 0x0f != 0) by (bit_vector);
    assert((f | 1) & 0x0f != 0 && (f | 2) & 0x0f != 0 && (f | 4) & 0x0f != 0) by (bit_vector);
    assert(((f | 8) & 0xfd) & 0x0f != 0) by (bit_vector);
    assert((f | 0x10) & 0x0f == f & 0x0f && (f & 0xef) & 0x0f == f & 0x0f) by (bit_vector);
}

/// Marking a cell as blocked and then as not blocked gives back a cell that was
/// not blocked, and a mark can be read again.
pub proof fn law_marks(r: RecordView, blocked: bool)
    ensures
        r.marked(blocked).blocked() == blocked,
        r.marked(blocked).sha1 == r.sha1,
        !r.blocked() ==> r.marked(true).marked(false) == r,
{
    let f = r.flags;
    assert((f | 0x10) & 0x10 != 0 && (f & 0xef) & 0x10 == 0) by (bit_vector);
    assert(f & 0x10 == 0 ==> (f | 0x10) & 0xef == f) by (bit_vector);
}

// ---------------------------------------------------------------------
// Diagram codes
// ---------------------------------------------------------------------

/// Nothing is known of the cell.
pub const MERGE_UNKNOWN: u8 = 0;

/// The cell was merged by the user.
pub const MERGE_MANUAL: u8 = 1;

/// The cell was merged automatically.
pub const MERGE_AUTOMATIC: u8 = 2;

/// The cell blocks progress.
pub const MERGE_BLOCKED: u8 = 3;

/// The cell was blocked and has been resolved.
pub const MERGE_UNBLOCKED: u8 = 4;

/// The bits of a diagram code that hold one of the codes above.
pub const MERGE_MASK: u8 = 7;

/// The diagram code of a cell.
pub open spec fn state_code(known: bool, manual: bool, blocked: bool) -> u8 {
    if blocked {
        if known {
            MERGE_UNBLOCKED
        } else {
            MERGE_BLOCKED
        }
    } else if !known {
        MERGE_UNKNOWN
    } else if manual {
        MERGE_MANUAL
    } else {
        MERGE_AUTOMATIC
    }
}

/// The diagram code of a cell with these properties.
pub fn merge_state_code(is_known: bool, is_manual: bool, is_blocked: bool) -> (r: u8)
    ensures
        r == state_code(is_known, is_manual, is_blocked),
{
    match (is_known, is_manual, is_blocked) {
        (false, _, false) => MERGE_UNKNOWN,
        (false, _, true) => MERGE_BLOCKED,
        (true, _, true) => MERGE_UNBLOCKED,
        (true, false, false) => MERGE_AUTOMATIC,
        (true, true, false) => MERGE_MANUAL,
    }
}

// ---------------------------------------------------------------------
// Grid
// ---------------------------------------------------------------------

/// The two-dimensional array of merge records, addressed by absolute
/// coordinates.
pub struct Grid {
    pub name: String,
    pub len1: usize,
    pub len2: usize,
    /// Whether a conflict that comes from the same patch on both branches is
    /// resolved automatically.
    pub dedupe_patches: bool,
    pub data: Vec<Vec<MergeRecord>>,
}

/// The content of a [`Grid`].
#[verifier::ext_equal]
pub struct GridView {
    pub name: Seq<char>,
    pub len1: usize,
    pub len2: usize,
    pub dedupe_patches: bool,
    pub cells: Seq<Seq<RecordView>>,
}

impl View for Grid {
    type V = GridView;

    open spec fn view(&self) -> GridView {
        GridView {
            name: self.name@,
            len1: self.len1,
            len2: self.len2,
            dedupe_patches: self.dedupe_patches,
            cells: self.data.deep_view(),
        }
    }
}

impl GridView {
    /// Every row is there and has its full length.
    pub open spec fn wf(self) -> bool {
        &&& self.cells.len() == self.len1
        &&& forall|i: int| 0 <= i < self.len1 ==> (#[trigger] self.cells[i]).len() == self.len2
    }

    /// Whether `(i1, i2)` is a cell of the grid.
    pub open spec fn has(self, i1: int, i2: int) -> bool {
        0 <= i1 < self.len1 && 0 <= i2 < self.len2
    }

    /// Whether `(i1, i2)` is a cell off the grid's first row and column.
    pub open spec fn has_inside(self, i1: int, i2: int) -> bool {
        1 <= i1 < self.len1 && 1 <= i2 < self.len2
    }

    /// The cell `(i1, i2)`.
    pub open spec fn cell(self, i1: int, i2: int) -> RecordView {
        self.cells[i1][i2]
    }

    /// Whether `(i1, i2)` has a merge result.
    pub open spec fn known(self, i1: int, i2: int) -> bool {
        self.cell(i1, i2).known()
    }

    /// Whether `(i1, i2)` is marked as blocking progress.
    pub open spec fn blocked(self, i1: int, i2: int) -> bool {
        self.cell(i1, i2).blocked()
    }

    /// The grid with the cell `(i1, i2)` replaced.
    pub open spec fn with(self, i1: int, i2: int, r: RecordView) -> GridView {
        GridView { cells: self.cells.update(i1, self.cells[i1].update(i2, r)), ..self }
    }

    /// The merge result of the cell `(i1, i2)`, which has one.
    pub open spec fn commit(self, i1: int, i2: int) -> Seq<char> {
        self.cell(i1, i2).sha1->0
    }

    /// Every cell has a merge result exactly where a source of one is recorded.
    pub open spec fn sound(self) -> bool {
        forall|i1: int, i2: int|
            self.has(i1, i2) ==> (#[trigger] self.cell(i1, i2)).consistent()
    }

    /// `later` is this grid with more automatic merges or marks: what was known
    /// stays known, what was blocked stays blocked, manual results stay as they
    /// are, and the shape is the same.
    pub open spec fn grows_to(self, later: GridView) -> bool {
        &&& later.name == self.name
        &&& later.len1 == self.len1
        &&& later.len2 == self.len2
        &&& later.dedupe_patches == self.dedupe_patches
        &&& self.wf() ==> later.wf()
        &&& self.sound() ==> later.sound()
        &&& forall|i1: int, i2: int|
            self.has(i1, i2) && self.known(i1, i2) ==> (#[trigger] later.cell(i1, i2)).known()
        &&& forall|i1: int, i2: int|
            self.has(i1, i2) && self.blocked(i1, i2) ==> (#[trigger] later.cell(i1, i2)).blocked()
        &&& forall|i1: int, i2: int|
            self.has(i1, i2) && self.cell(i1, i2).manual() ==> (#[trigger] later.cell(
                i1,
                i2,
            )).manual() && later.cell(i1, i2).sha1 == self.cell(i1, i2).sha1
    }

    /// The diagram code of the cell `(i1, i2)`.
    pub open spec fn code(self, i1: int, i2: int) -> u8 {
        let r = self.cell(i1, i2);
        state_code(r.known(), r.manual(), r.blocked())
    }
}

/// A grid that grows and grows again has grown.
pub broadcast proof fn lemma_grid_grows(a: GridView, b: GridView, c: GridView)
    requires
        #[trigger] a.grows_to(b),
        #[trigger] b.grows_to(c),
    ensures
        a.grows_to(c),
{
    assert forall|i1: int, i2: int| a.has(i1, i2) && a.known(i1, i2) implies (#[trigger] c.cell(
        i1,
        i2,
    )).known() by {
        assert(b.cell(i1, i2).known());
    }
    assert forall|i1: int, i2: int| a.has(i1, i2) && a.blocked(i1, i2) implies (#[trigger] c.cell(
        i1,
        i2,
    )).blocked() by {
        assert(b.cell(i1, i2).blocked());
    }
    assert forall|i1: int, i2: int| a.has(i1, i2) && a.cell(i1, i2).manual() implies (
    #[trigger] c.cell(i1, i2)).manual() && c.cell(i1, i2).sha1 == a.cell(i1, i2).sha1 by {
        assert(b.cell(i1, i2).manual());
    }
}

/// Recording an automatic merge or a mark lets a grid grow.
pub proof fn lemma_with_grows(grid: GridView, i1: int, i2: int, sha1: Seq<char>)
    requires
        grid.wf(),
        grid.has(i1, i2),
    ensures
        ({
            let merged = grid.cell(i1, i2).merged(sha1, MergeRecord::NEW_AUTO);
            &&& grid.grows_to(grid.with(i1, i2, merged))
            &&& grid.sound() ==> grid.with(i1, i2, merged).known(i1, i2)
        }),
        grid.grows_to(grid.with(i1, i2, grid.cell(i1, i2).marked(true))),
        grid.with(i1, i2, grid.cell(i1, i2).marked(true)).blocked(i1, i2),
{
    let r = grid.cell(i1, i2);
    let merged = r.merged(sha1, MergeRecord::NEW_AUTO);
    let marked = r.marked(true);
    let f = r.flags;
    assert(grid.cells[i1].len() == grid.len2);
    assert((f | 0x10) & 0x0f == f & 0x0f && (f | 0x10) & 0x0c == f & 0x0c && (f | 0x10) & 0x10 != 0
        && (f | 2) & 0x0c == f & 0x0c && (f | 2) & 0x0f != 0 && (f | 2) & 0x10 == f & 0x10 && (f
        & 0x0c != 0 ==> f & 0x0f != 0)) by (bit_vector);
    lemma_with(grid, i1, i2, merged);
    lemma_with(grid, i1, i2, marked);
}

/// A cell can be replaced where what is known or blocked stays so, what is manual
/// stays, and what is consistent stays so.
proof fn lemma_with(grid: GridView, i1: int, i2: int, r: RecordView)
    requires
        grid.wf(),
        grid.has(i1, i2),
        grid.cell(i1, i2).known() ==> r.known(),
        grid.cell(i1, i2).blocked() ==> r.blocked(),
        grid.cell(i1, i2).manual() ==> r.manual() && r.sha1 == grid.cell(i1, i2).sha1,
        grid.cell(i1, i2).consistent() ==> r.consistent(),
    ensures
        grid.grows_to(grid.with(i1, i2, r)),
        grid.with(i1, i2, r).cell(i1, i2) == r,
        forall|j1: int, j2: int|
            grid.has(j1, j2) && (j1 != i1 || j2 != i2) ==> #[trigger] grid.with(i1, i2, r).cell(
                j1,
                j2,
            ) == grid.cell(j1, j2),
{
    let later = grid.with(i1, i2, r);
    assert(grid.cells[i1].len() == grid.len2);
    assert(later.cell(i1, i2) == r);
    assert forall|j1: int, j2: int|
        grid.has(j1, j2) && (j1 != i1 || j2 != i2) implies #[trigger] later.cell(j1, j2)
        == grid.cell(j1, j2) by {
        assert(grid.cells[j1].len() == grid.len2);
    }
    if grid.sound() {
        assert forall|j1: int, j2: int| later.has(j1, j2) implies (#[trigger] later.cell(
            j1,
            j2,
        )).consistent() by {
            assert(grid.cell(j1, j2).consistent());
        }
    }
    assert forall|j1: int, j2: int| grid.has(j1, j2) && grid.known(j1, j2) implies (
    #[trigger] later.cell(j1, j2)).known() by {
        if j1 != i1 || j2 != i2 {
            assert(later.cell(j1, j2) == grid.cell(j1, j2));
        }
    }
    assert forall|j1: int, j2: int| grid.has(j1, j2) && grid.blocked(j1, j2) implies (
    #[trigger] later.cell(j1, j2)).blocked() by {
        if j1 != i1 || j2 != i2 {
            assert(later.cell(j1, j2) == grid.cell(j1, j2));
        }
    }
    assert forall|j1: int, j2: int| grid.has(j1, j2) && grid.cell(j1, j2).manual() implies (
    #[trigger] later.cell(j1, j2)).manual() && later.cell(j1, j2).sha1 == grid.cell(
        j1,
        j2,
    ).sha1 by {
        if j1 != i1 || j2 != i2 {
            assert(later.cell(j1, j2) == grid.cell(j1, j2));
        }
    }
}

impl Grid {
    /// A grid of which nothing is known.
    pub fn new(name: &str, len1: usize, len2: usize) -> (r: Self)
        ensures
            r@ == (GridView {
                name: name@,
                len1,
                len2,
                dedupe_patches: true,
                cells: Seq::new(
                    len1 as nat,
                    |i: int| Seq::new(len2 as nat, |j: int| RecordView::unknown()),
                ),
            }),
            r@.wf(),
    {
        let mut data: Vec<Vec<MergeRecord>> = Vec::new();
        let mut i: usize = 0;
        while i < len1
            invariant
                i <= len1,
                data.len() == i,
                forall|k: int| 0 <= k < i ==> (#[trigger] data[k]).deep_view() == Seq::new(
                    len2 as nat,
                    |j: int| RecordView::unknown(),
                ),
            decreases len1 - i,
        {
            let mut row: Vec<MergeRecord> = Vec::new();
            let mut j: usize = 0;
            while j < len2
                invariant
                    j <= len2,
                    row.len() == j,
                    forall|k: int| 0 <= k < j ==> (#[trigger] row[k]).deep_view()
                        == RecordView::unknown(),
                decreases len2 - j,
            {
                row.push(MergeRecord::new());
                j += 1;
            }
            assert(row.deep_view() =~= Seq::new(len2 as nat, |j: int| RecordView::unknown()));
            data.push(row);
            i += 1;
        }
        let r = Grid { name: name.to_owned(), len1, len2, dedupe_patches: true, data };
        assert(r@.cells =~= Seq::new(
            len1 as nat,
            |i: int| Seq::new(len2 as nat, |j: int| RecordView::unknown()),
        ));
        r
    }

    /// The cell `(i1, i2)`.
    pub fn get(&self, i1: usize, i2: usize) -> (r: &MergeRecord)
        requires
            self@.wf(),
            self@.has(i1 as int, i2 as int),
        ensures
            r.deep_view() == self@.cell(i1 as int, i2 as int),
    {
        assert(self@.cells[i1 as int].len() == self.len2);
        &self.data[i1][i2]
    }

    /// The cell `(i1, i2)`, to be changed.
    pub fn get_mut(&mut self, i1: usize, i2: usize) -> (r: &mut MergeRecord)
        requires
            old(self)@.wf(),
            old(self)@.has(i1 as int, i2 as int),
        ensures
            r.deep_view() == old(self)@.cell(i1 as int, i2 as int),
            final(self)@ == old(self)@.with(i1 as int, i2 as int, final(r).deep_view()),
            final(self)@.wf(),
    {
        assert(self@.cells[i1 as int].len() == self.len2);
        let ghost start = self@;
        let ghost end = *final(self);
        let r = &mut self.data[i1][i2];
        assert(end@ =~= start.with(i1 as int, i2 as int, final(r).deep_view())) by {
            let a = end@.cells;
            let b = start.with(i1 as int, i2 as int, final(r).deep_view()).cells;
            assert(a[i1 as int] =~= b[i1 as int]);
            assert(a =~= b);
        }
        r
    }

    /// Whether `(i1, i2)` has a merge result.
    pub fn is_known(&self, i1: usize, i2: usize) -> (r: bool)
        requires
            self@.wf(),
            self@.has(i1 as int, i2 as int),
        ensures
            r == self@.known(i1 as int, i2 as int),
    {
        self.get(i1, i2).is_known()
    }

    /// Whether `(i1, i2)` is marked as blocking progress.
    pub fn is_blocked(&self, i1: usize, i2: usize) -> (r: bool)
        requires
            self@.wf(),
            self@.has(i1 as int, i2 as int),
        ensures
            r == self@.blocked(i1 as int, i2 as int),
    {
        self.get(i1, i2).is_blocked()
    }

    /// The number of cells outside row 0 and column 0.
    pub fn area(&self) -> (r: usize)
        requires
            self.len1 >= 1,
            self.len2 >= 1,
            (self.len1 - 1) * (self.len2 - 1) <= usize::MAX,
        ensures
            r == (self.len1 - 1) * (self.len2 - 1),
    {
        (self.len1 - 1) * (self.len2 - 1)
    }

    /// The diagram codes of all cells.
    pub fn create_diagram(&self) -> (r: Vec<Vec<u8>>)
        requires
            self@.wf(),
        ensures
            r.deep_view() == diagram_of(self@, Rect {
                origin1: 0,
                origin2: 0,
                len1: self@.len1,
                len2: self@.len2,
            }),
    {
        Rect::full(self.len1, self.len2).create_diagram(self)
    }
}

// ---------------------------------------------------------------------
// Rect
// ---------------------------------------------------------------------

/// A rectangular window into a grid. Its cell `(0, 0)` is the cell
/// `(origin1, origin2)` of the grid.
#[derive(Clone, Copy, Debug, PartialEq, Eq, Structural)]
pub struct Rect {
    pub origin1: usize,
    pub origin2: usize,
    pub len1: usize,
    pub len2: usize,
}

impl DeepView for Rect {
    type V = Rect;

    open spec fn deep_view(&self) -> Rect {
        *self
    }
}

/// The place in a list of `len` items that `i` stands for: counted from the
/// start, or from the end where `i` is negative.
pub open spec fn place(i: int, len: int) -> Option<int> {
    if 0 <= i < len {
        Some(i)
    } else if i < 0 && 0 <= i + len {
        Some(i + len)
    } else {
        None
    }
}

/// The error for an index that is out of range.
pub open spec fn out_of_range(which: Seq<char>, i: int, len: usize) -> ErrorView {
    ErrorView::Failure(
        which + signed_decimal(i) + ") is out of range 0:"@ + decimal(len as nat),
    )
}

/// The diagram codes of the cells of `rect`.
pub open spec fn diagram_of(grid: GridView, rect: Rect) -> Seq<Seq<u8>> {
    Seq::new(
        rect.len1 as nat,
        |i1: int|
            Seq::new(
                rect.len2 as nat,
                |i2: int| grid.code(rect.origin1 + i1, rect.origin2 + i2),
            ),
    )
}

impl Rect {
    /// Whether all of the window lies inside the grid.
    pub open spec fn within(self, grid: GridView) -> bool {
        &&& self.origin1 + self.len1 <= grid.len1
        &&& self.origin2 + self.len2 <= grid.len2
    }

    /// Whether the coordinates of the window's end can be written down.
    pub open spec fn fits(self) -> bool {
        &&& self.origin1 + self.len1 <= usize::MAX
        &&& self.origin2 + self.len2 <= usize::MAX
    }

    /// The local coordinates that the indexes stand for, or which of them is out
    /// of range.
    pub open spec fn local(self, i1: int, i2: int) -> Result<(usize, usize), ErrorView> {
        match place(i1, self.len1 as int) {
            None => Err(out_of_range("first index ("@, i1, self.len1)),
            Some(n1) => match place(i2, self.len2 as int) {
                None => Err(out_of_range("second index ("@, i2, self.len2)),
                Some(n2) => Ok((n1 as usize, n2 as usize)),
            },
        }
    }

    /// The grid coordinates that the indexes stand for.
    pub open spec fn absolute(self, i1: int, i2: int) -> Result<(usize, usize), ErrorView> {
        match self.local(i1, i2) {
            Err(e) => Err(e),
            Ok((n1, n2)) => Ok(((self.origin1 + n1) as usize, (self.origin2 + n2) as usize)),
        }
    }

    /// The window at `(start1, start2)` of this one.
    pub open spec fn part(self, start1: int, len1: int, start2: int, len2: int) -> Rect {
        Rect {
            origin1: (self.origin1 + start1) as usize,
            origin2: (self.origin2 + start2) as usize,
            len1: len1 as usize,
            len2: len2 as usize,
        }
    }

    /// The window at the grid's origin.
    pub fn full(len1: usize, len2: usize) -> (r: Rect)
        ensures
            r == (Rect { origin1: 0, origin2: 0, len1, len2 }),
    {
        Rect { origin1: 0, origin2: 0, len1, len2 }
    }

    /// The number of cells outside the window's first row and column.
    pub fn area(&self) -> (r: usize)
        requires
            self.len1 >= 1,
            self.len2 >= 1,
            (self.len1 - 1) * (self.len2 - 1) <= usize::MAX,
        ensures
            r == (self.len1 - 1) * (self.len2 - 1),
    {
        (self.len1 - 1) * (self.len2 - 1)
    }

    /// Turns indexes, of which a negative one counts from the end, into local
    /// coordinates.
    pub(crate) fn normalize(&self, i1: isize, i2: isize) -> (r: Result<(usize, usize), ImergeError>)
        ensures
            res(r) == self.local(i1 as int, i2 as int),
    {
        let n1 = match normal_index(i1, self.len1) {
            Some(n) => n,
            None => {
                return Err(
                    ImergeError::Failure(
                        cat4(
                            "first index (",
                            &signed_number(i1),
                            ") is out of range 0:",
                            &number(self.len1),
                        ),
                    ),
                );
            },
        };
        let n2 = match normal_index(i2, self.len2) {
            Some(n) => n,
            None => {
                return Err(
                    ImergeError::Failure(
                        cat4(
                            "second index (",
                            &signed_number(i2),
                            ") is out of range 0:",
                            &number(self.len2),
                        ),
                    ),
                );
            },
        };
        Ok((n1, n2))
    }

    /// Turns local indexes into grid coordinates.
    pub fn abs(&self, i1: isize, i2: isize) -> (r: Result<(usize, usize), ImergeError>)
        requires
            self.fits(),
        ensures
            res(r) == self.absolute(i1 as int, i2 as int),
    {
        let (n1, n2) = self.normalize(i1, i2)?;
        Ok((self.origin1 + n1, self.origin2 + n2))
    }

    /// Turns grid coordinates into local ones, if they lie inside the window.
    pub fn to_local(&self, i1: usize, i2: usize) -> (r: Option<(usize, usize)>)
        requires
            self.fits(),
        ensures
            r == self.located(i1 as int, i2 as int),
    {
        if i1 >= self.origin1 && i1 < self.origin1 + self.len1 && i2 >= self.origin2 && i2
            < self.origin2 + self.len2 {
            Some((i1 - self.origin1, i2 - self.origin2))
        } else {
            None
        }
    }

    /// The local coordinates of the cell `(i1, i2)` of the grid, if it lies
    /// inside the window.
    pub open spec fn located(self, i1: int, i2: int) -> Option<(usize, usize)> {
        if self.origin1 <= i1 < self.origin1 + self.len1 && self.origin2 <= i2 < self.origin2
            + self.len2 {
            Some(((i1 - self.origin1) as usize, (i2 - self.origin2) as usize))
        } else {
            None
        }
    }

    /// The window at `(start1, start2)` of this one, with the given lengths.
    pub fn sub(&self, start1: usize, len1: usize, start2: usize, len2: usize) -> (r: Rect)
        requires
            self.origin1 + start1 <= usize::MAX,
            self.origin2 + start2 <= usize::MAX,
        ensures
            r == self.part(start1 as int, len1 as int, start2 as int, len2 as int),
    {
        Rect { origin1: self.origin1 + start1, origin2: self.origin2 + start2, len1, len2 }
    }

    /// Whether the cell at these local indexes has a merge result.
    pub fn known(&self, grid: &Grid, i1: isize, i2: isize) -> (r: Result<bool, ImergeError>)
        requires
            grid@.wf(),
            self.within(grid@),
        ensures
            res(r) == (match self.absolute(i1 as int, i2 as int) {
                Err(e) => Err(e),
                Ok((a1, a2)) => Ok(grid@.known(a1 as int, a2 as int)),
            }),
    {
        let (a1, a2) = self.abs(i1, i2)?;
        Ok(grid.is_known(a1, a2))
    }

    /// Whether the cell at these local indexes is marked as blocking progress.
    pub fn blocked(&self, grid: &Grid, i1: isize, i2: isize) -> (r: Result<bool, ImergeError>)
        requires
            grid@.wf(),
            self.within(grid@),
        ensures
            res(r) == (match self.absolute(i1 as int, i2 as int) {
                Err(e) => Err(e),
                Ok((a1, a2)) => Ok(grid@.blocked(a1 as int, a2 as int)),
            }),
    {
        let (a1, a2) = self.abs(i1, i2)?;
        Ok(grid.is_blocked(a1, a2))
    }

    /// The merge result of the cell at these local indexes.
    pub fn sha1(&self, grid: &Grid, i1: isize, i2: isize) -> (r: Result<
        Option<String>,
        ImergeError,
    >)
        requires
            grid@.wf(),
            self.within(grid@),
        ensures
            res(r) == (match self.absolute(i1 as int, i2 as int) {
                Err(e) => Err(e),
                Ok((a1, a2)) => Ok(grid@.cell(a1 as int, a2 as int).sha1),
            }),
    {
        let (a1, a2) = self.abs(i1, i2)?;
        Ok(copied_option(&grid.get(a1, a2).sha1))
    }

    /// Records a merge result for the cell at these local indexes.
    pub fn record_merge(
        &self,
        grid: &mut Grid,
        i1: isize,
        i2: isize,
        sha1: &str,
        source: u8,
    ) -> (r: Result<(), ImergeError>)
        requires
            old(grid)@.wf(),
            self.within(old(grid)@),
            is_source(source),
        ensures
            final(grid)@.wf(),
            match self.absolute(i1 as int, i2 as int) {
                Err(e) => res(r) == Err::<(), ErrorView>(e) && final(grid)@ == old(grid)@,
                Ok((a1, a2)) => r is Ok && final(grid)@ == old(grid)@.with(
                    a1 as int,
                    a2 as int,
                    old(grid)@.cell(a1 as int, a2 as int).merged(sha1@, source),
                ),
            },
    {
        let (a1, a2) = self.abs(i1, i2)?;
        grid.get_mut(a1, a2).record_merge(sha1, source);
        Ok(())
    }

    /// Marks the cell at these local indexes as blocked or not blocked.
    pub fn record_blocked(&self, grid: &mut Grid, i1: isize, i2: isize, blocked: bool) -> (r: Result<
        (),
        ImergeError,
    >)
        requires
            old(grid)@.wf(),
            self.within(old(grid)@),
        ensures
            final(grid)@.wf(),
            match self.absolute(i1 as int, i2 as int) {
                Err(e) => res(r) == Err::<(), ErrorView>(e) && final(grid)@ == old(grid)@,
                Ok((a1, a2)) => r is Ok && final(grid)@ == old(grid)@.with(
                    a1 as int,
                    a2 as int,
                    old(grid)@.cell(a1 as int, a2 as int).marked(blocked),
                ),
            },
    {
        let (a1, a2) = self.abs(i1, i2)?;
        grid.get_mut(a1, a2).record_blocked(blocked);
        Ok(())
    }

    /// The diagram codes of the window's cells.
    pub fn create_diagram(&self, grid: &Grid) -> (r: Vec<Vec<u8>>)
        requires
            grid@.wf(),
            self.within(grid@),
        ensures
            r.deep_view() == diagram_of(grid@, *self),
    {
        let mut r: Vec<Vec<u8>> = Vec::new();
        let mut i1: usize = 0;
        let ghost want = diagram_of(grid@, *self);
        while i1 < self.len1
            invariant
                grid@.wf(),
                self.within(grid@),
                want == diagram_of(grid@, *self),
                i1 <= self.len1,
                r.len() == i1,
                forall|k: int| 0 <= k < i1 ==> (#[trigger] r[k]).deep_view() == want[k],
            decreases self.len1 - i1,
        {
            let mut row: Vec<u8> = Vec::new();
            let mut i2: usize = 0;
            while i2 < self.len2
                invariant
                    grid@.wf(),
                    self.within(grid@),
                    want == diagram_of(grid@, *self),
                    i1 < self.len1,
                    i2 <= self.len2,
                    row.len() == i2,
                    forall|k: int| 0 <= k < i2 ==> #[trigger] row[k] == want[i1 as int][k],
                decreases self.len2 - i2,
            {
                let rec = grid.get(self.origin1 + i1, self.origin2 + i2);
                row.push(merge_state_code(rec.is_known(), rec.is_manual(), rec.is_blocked()));
                i2 += 1;
            }
            assert(row.deep_view() =~= want[i1 as int]);
            r.push(row);
            i1 += 1;
        }
        assert(r.deep_view() =~= want);
        r
    }
}

/// The place in a list of `len` items that `i` stands for.
fn normal_index(i: isize, len: usize) -> (r: Option<usize>)
    ensures
        r is Some <==> place(i as int, len as int) is Some,
        r matches Some(n) ==> n == place(i as int, len as int)->0,
{
    if i < 0 {
        let back: usize = (-(i + 1)) as usize;
        if back < len {
            Some(len - 1 - back)
        } else {
            None
        }
    } else {
        let n: usize = i as usize;
        if n < len {
            Some(n)
        } else {
            None
        }
    }
}

/// Grid coordinates and local coordinates are two names for one cell: going
/// from either to the other and back changes nothing.
pub proof fn law_local_and_absolute(rect: Rect, i1: int, i2: int)
    requires
        rect.fits(),
    ensures
        rect.located(i1, i2) matches Some((n1, n2)) ==> rect.absolute(n1 as int, n2 as int) == Ok::<
            (usize, usize),
            ErrorView,
        >((i1 as usize, i2 as usize)),
        0 <= i1 < rect.len1 && 0 <= i2 < rect.len2 ==> (rect.absolute(i1, i2) matches Ok((a1, a2))
            && rect.located(a1 as int, a2 as int) == Some((i1 as usize, i2 as usize))),
{
}

} // verus!
