//! Drawing an incremental merge: as text with axes, and as an HTML table.
use vstd::prelude::*;

use crate::block::{
    diagram_of, Grid, GridView, MERGE_AUTOMATIC, MERGE_BLOCKED, MERGE_MANUAL, MERGE_MASK,
    MERGE_UNBLOCKED, MERGE_UNKNOWN, Rect,
};
use crate::strategy::{
    FRONTIER_BOTTOM_EDGE, FRONTIER_RIGHT_EDGE, FRONTIER_WITHIN, Frontier, FrontierView,
};
use crate::text::{
    align_right, cat2, cat3, cat4, cat5, decimal, join, joined, number, repeat, repeated,
    right_aligned, shorten, shortened,
};

verus! {

/// What the characters of a diagram stand for.
pub const LEGEND: &'static str =
    "  * = merge done manually\n  . = merge done automatically\n  # = conflict that is currently blocking progress\n  @ = merge was blocked but has been resolved\n  ? = no merge recorded\n";

/// What the lines of a frontier diagram stand for.
pub const FRONTIER_LEGEND_LINE: &'static str =
    "  |,-,+ = rectangles forming current merge frontier\n";

// ---------------------------------------------------------------------
// Cells
// ---------------------------------------------------------------------

/// Whether and how text is coloured.
pub struct AnsiColor {
    pub enabled: bool,
}

/// `s` in the colour `code`, if colours are wanted.
pub open spec fn coloured(enabled: bool, code: Seq<char>, s: Seq<char>) -> Seq<char> {
    if enabled {
        code + s + AnsiColor::END@
    } else {
        s
    }
}

impl AnsiColor {
    pub const D_GRAY: &'static str = "\x1b[1;30m";

    pub const B_RED: &'static str = "\x1b[1;31m";

    pub const B_GREEN: &'static str = "\x1b[1;32m";

    pub const B_YELLOW: &'static str = "\x1b[1;33m";

    pub const END: &'static str = "\x1b[0m";

    fn color(&self, code: &str, s: &str) -> (r: String)
        ensures
            r@ == coloured(self.enabled, code@, s@),
    {
        if self.enabled {
            cat3(code, s, Self::END)
        } else {
            s.to_owned()
        }
    }
}

/// The character for a code of a frontier diagram. The frontier hides cells that
/// are unknown or merged automatically.
pub open spec fn frontier_char(node: u8) -> Seq<char> {
    let merge = node & MERGE_MASK;
    let right = node & FRONTIER_RIGHT_EDGE != 0;
    let bottom = node & FRONTIER_BOTTOM_EDGE != 0;
    if merge == MERGE_MANUAL {
        "*"@
    } else if merge == MERGE_BLOCKED {
        "#"@
    } else if merge == MERGE_UNBLOCKED {
        "@"@
    } else if right && bottom {
        "+"@
    } else if right {
        "|"@
    } else if bottom {
        "-"@
    } else if merge == MERGE_UNKNOWN {
        "?"@
    } else if merge == MERGE_AUTOMATIC {
        "."@
    } else if merge == 5 {
        "-"@
    } else if merge == 6 {
        "|"@
    } else {
        "+"@
    }
}

/// One cell of a frontier diagram: green where it is done, red elsewhere.
pub open spec fn frontier_cell(enabled: bool, node: u8) -> Seq<char> {
    let done = node & MERGE_MASK == MERGE_MANUAL || node & FRONTIER_WITHIN != 0;
    coloured(
        enabled,
        if done {
            AnsiColor::B_GREEN@
        } else {
            AnsiColor::B_RED@
        },
        frontier_char(node),
    )
}

/// One cell of a diagram of the merges.
pub open spec fn plain_cell(enabled: bool, node: u8) -> Seq<char> {
    if node == MERGE_UNKNOWN {
        coloured(enabled, AnsiColor::D_GRAY@, "?"@)
    } else if node == MERGE_MANUAL {
        coloured(enabled, AnsiColor::B_GREEN@, "*"@)
    } else if node == MERGE_AUTOMATIC {
        coloured(enabled, AnsiColor::B_GREEN@, "."@)
    } else if node == MERGE_BLOCKED {
        coloured(enabled, AnsiColor::B_RED@, "#"@)
    } else if node == MERGE_UNBLOCKED {
        coloured(enabled, AnsiColor::B_YELLOW@, "@"@)
    } else {
        "?"@
    }
}

fn default_formatter(color: &AnsiColor, node: u8) -> (r: String)
    ensures
        r@ == frontier_cell(color.enabled, node),
{
    let merge: u8 = node & MERGE_MASK;
    let right = node & FRONTIER_RIGHT_EDGE != 0;
    let bottom = node & FRONTIER_BOTTOM_EDGE != 0;
    let s = if merge == MERGE_MANUAL {
        "*"
    } else if merge == MERGE_BLOCKED {
        "#"
    } else if merge == MERGE_UNBLOCKED {
        "@"
    } else if right && bottom {
        "+"
    } else if right {
        "|"
    } else if bottom {
        "-"
    } else if merge == MERGE_UNKNOWN {
        "?"
    } else if merge == MERGE_AUTOMATIC {
        "."
    } else if merge == 5 {
        "-"
    } else if merge == 6 {
        "|"
    } else {
        "+"
    };
    if merge == MERGE_MANUAL || node & FRONTIER_WITHIN != 0 {
        color.color(AnsiColor::B_GREEN, s)
    } else {
        color.color(AnsiColor::B_RED, s)
    }
}

fn plain_formatter(color: &AnsiColor, node: u8) -> (r: String)
    ensures
        r@ == plain_cell(color.enabled, node),
{
    if node == MERGE_UNKNOWN {
        color.color(AnsiColor::D_GRAY, "?")
    } else if node == MERGE_MANUAL {
        color.color(AnsiColor::B_GREEN, "*")
    } else if node == MERGE_AUTOMATIC {
        color.color(AnsiColor::B_GREEN, ".")
    } else if node == MERGE_BLOCKED {
        color.color(AnsiColor::B_RED, "#")
    } else if node == MERGE_UNBLOCKED {
        color.color(AnsiColor::B_YELLOW, "@")
    } else {
        "?".to_owned()
    }
}

/// One cell of either kind of diagram.
pub open spec fn cell_text(enabled: bool, frontier_style: bool, node: u8) -> Seq<char> {
    if frontier_style {
        frontier_cell(enabled, node)
    } else {
        plain_cell(enabled, node)
    }
}

/// The cells of a diagram.
pub open spec fn formatted(codes: Seq<Seq<u8>>, enabled: bool, frontier_style: bool) -> Seq<
    Seq<Seq<char>>,
> {
    Seq::new(
        codes.len(),
        |i: int|
            Seq::new(codes[i].len(), |j: int| cell_text(enabled, frontier_style, codes[i][j])),
    )
}

fn format_diagram(diagram: &Vec<Vec<u8>>, color: &AnsiColor, frontier_style: bool) -> (r: Vec<
    Vec<String>,
>)
    ensures
        r.deep_view() == formatted(diagram.deep_view(), color.enabled, frontier_style),
{
    let ghost codes = diagram.deep_view();
    let ghost want = formatted(codes, color.enabled, frontier_style);
    let mut r: Vec<Vec<String>> = Vec::new();
    let mut i: usize = 0;
    while i < diagram.len()
        invariant
            i <= diagram.len(),
            codes == diagram.deep_view(),
            want == formatted(codes, color.enabled, frontier_style),
            r.len() == i,
            forall|k: int| 0 <= k < i ==> (#[trigger] r[k]).deep_view() == want[k],
        decreases diagram.len() - i,
    {
        let mut row: Vec<String> = Vec::new();
        let mut j: usize = 0;
        assert(codes[i as int] == diagram[i as int].deep_view());
        while j < diagram[i].len()
            invariant
                i < diagram.len(),
                j <= diagram[i as int].len(),
                codes == diagram.deep_view(),
                codes[i as int] == diagram[i as int].deep_view(),
                want == formatted(codes, color.enabled, frontier_style),
                row.len() == j,
                forall|k: int| 0 <= k < j ==> (#[trigger] row[k])@ == want[i as int][k],
            decreases diagram[i as int].len() - j,
        {
            let node: u8 = diagram[i][j];
            assert(codes[i as int][j as int] == node);
            let cell = if frontier_style {
                default_formatter(color, node)
            } else {
                plain_formatter(color, node)
            };
            row.push(cell);
            j += 1;
        }
        assert(row.deep_view() =~= want[i as int]);
        r.push(row);
        i += 1;
    }
    assert(r.deep_view() =~= want);
    r
}

// ---------------------------------------------------------------------
// Diagrams with axes
// ---------------------------------------------------------------------

/// Every fifth number from `i` up to `len`, each five characters wide.
pub open spec fn axis_numbers(i: int, len: int) -> Seq<char>
    decreases (if i < len {
        len - i
    } else {
        0
    }),
{
    if i >= len {
        ""@
    } else {
        right_aligned(decimal(i as nat), 5) + axis_numbers(i + 5, len)
    }
}

/// A tick below every fifth number.
pub open spec fn axis_ticks(i: int, len: int) -> Seq<char>
    decreases (if i < len {
        len - i
    } else {
        0
    }),
{
    if i >= len {
        ""@
    } else {
        right_aligned("|"@, 5) + axis_ticks(i + 5, len)
    }
}

/// The last place along an axis.
pub open spec fn last_place(len: int) -> int {
    if len > 0 {
        len - 1
    } else {
        0
    }
}

/// The number of the last place, unless it is there already, and a line feed.
pub open spec fn last_number(len: int) -> Seq<char> {
    let rem = last_place(len) % 5;
    if rem == 0 {
        "\n"@
    } else {
        (if rem == 1 {
            " "@
        } else {
            ""@
        }) + repeated(' ', (rem - 1) as nat) + decimal(last_place(len) as nat) + "\n"@
    }
}

/// The tick for the last place, and a line feed.
pub open spec fn last_tick(len: int) -> Seq<char> {
    let rem = last_place(len) % 5;
    if rem == 0 {
        "\n"@
    } else if rem == 1 {
        " /\n"@
    } else {
        repeated(' ', (rem - 1) as nat) + "|\n"@
    }
}

/// The cells of line `i2`, from column `k` on.
pub open spec fn line_cells(cells: Seq<Seq<Seq<char>>>, i2: int, k: int) -> Seq<char>
    decreases cells.len() - k,
{
    if k >= cells.len() {
        ""@
    } else {
        cells[k][i2] + line_cells(cells, i2, k + 1)
    }
}

/// What stands before the cells of line `i2`.
pub open spec fn line_label(i2: int, len2: int) -> Seq<char> {
    if i2 % 5 == 0 || i2 == len2 - 1 {
        right_aligned(decimal(i2 as nat), 4) + " - "@
    } else {
        "       "@
    }
}

/// What stands after the cells of line `i2`: the first tip on the first line.
pub open spec fn line_end(i2: int, tip1: Option<Seq<char>>) -> Seq<char> {
    match tip1 {
        Some(tip) => if i2 == 0 {
            " - "@ + tip + "\n"@
        } else {
            "\n"@
        },
        None => "\n"@,
    }
}

/// The lines of a diagram from line `i2` on.
pub open spec fn diagram_lines(
    cells: Seq<Seq<Seq<char>>>,
    i2: int,
    len2: int,
    tip1: Option<Seq<char>>,
) -> Seq<char>
    decreases len2 - i2,
{
    if i2 >= len2 {
        ""@
    } else {
        line_label(i2, len2) + line_cells(cells, i2, 0) + line_end(i2, tip1) + diagram_lines(
            cells,
            i2 + 1,
            len2,
            tip1,
        )
    }
}

/// The number of lines of a diagram.
pub open spec fn height(cells: Seq<Seq<Seq<char>>>) -> int {
    if cells.len() > 0 {
        cells[0].len() as int
    } else {
        0
    }
}

/// The second tip below a diagram.
pub open spec fn foot(tip2: Option<Seq<char>>) -> Seq<char> {
    match tip2 {
        Some(tip) => "       |\n     "@ + tip + "\n"@,
        None => ""@,
    }
}

/// A diagram with its axes.
pub open spec fn diagram_text(
    cells: Seq<Seq<Seq<char>>>,
    tip1: Option<Seq<char>>,
    tip2: Option<Seq<char>>,
) -> Seq<char> {
    let len1 = cells.len() as int;
    "   "@ + axis_numbers(0, len1) + last_number(len1) + "   "@ + axis_ticks(0, len1) + last_tick(
        len1,
    ) + diagram_lines(cells, 0, height(cells), tip1) + foot(tip2)
}

fn write_axes(out: &mut String, len1: usize)
    ensures
        final(out)@ == old(out)@ + ("   "@ + axis_numbers(0, len1 as int) + last_number(
            len1 as int,
        ) + "   "@ + axis_ticks(0, len1 as int) + last_tick(len1 as int)),
{
    let ghost start = out@;
    let last1: usize = if len1 > 0 {
        len1 - 1
    } else {
        0
    };
    let rem: usize = last1 % 5;
    let mut numbers = "   ".to_owned();
    let mut ticks = "   ".to_owned();
    let mut i1: usize = 0;
    let mut more = len1 > 0;
    while more
        invariant
            more ==> i1 < len1,
            !more ==> i1 <= len1,
            "   "@ + axis_numbers(0, len1 as int) == numbers@ + axis_numbers(
                if more {
                    i1 as int
                } else {
                    len1 as int
                },
                len1 as int,
            ),
            "   "@ + axis_ticks(0, len1 as int) == ticks@ + axis_ticks(
                if more {
                    i1 as int
                } else {
                    len1 as int
                },
                len1 as int,
            ),
        decreases (if more {
            len1 - i1
        } else {
            0
        }),
    {
        let ghost n0 = numbers@;
        let ghost t0 = ticks@;
        let n = align_right(&number(i1), 5);
        let t = align_right("|", 5);
        numbers.append(&n);
        ticks.append(&t);
        proof {
            let rest = axis_numbers(i1 + 5, len1 as int);
            assert(n0 + (n@ + rest) =~= n0 + n@ + rest);
            let rest2 = axis_ticks(i1 + 5, len1 as int);
            assert(t0 + (t@ + rest2) =~= t0 + t@ + rest2);
        }
        if len1 - i1 > 5 {
            i1 += 5;
        } else {
            more = false;
        }
    }
    proof {
        reveal_strlit("");
        assert(numbers@ + axis_numbers(len1 as int, len1 as int) =~= numbers@);
        assert(ticks@ + axis_ticks(len1 as int, len1 as int) =~= ticks@);
    }
    if rem == 0 {
        numbers.append("\n");
        ticks.append("\n");
    } else if rem == 1 {
        let gap = repeat(' ', rem - 1);
        let tail = cat4(" ", &gap, &number(last1), "\n");
        numbers.append(&tail);
        ticks.append(" /\n");
    } else {
        let gap = repeat(' ', rem - 1);
        let tail = cat4("", &gap, &number(last1), "\n");
        numbers.append(&tail);
        let tail2 = cat2(&gap, "|\n");
        ticks.append(&tail2);
    }
    out.append(&numbers);
    out.append(&ticks);
    proof {
        let a = "   "@ + axis_numbers(0, len1 as int) + last_number(len1 as int);
        let b = "   "@ + axis_ticks(0, len1 as int) + last_tick(len1 as int);
        assert(numbers@ =~= a);
        assert(ticks@ =~= b);
        assert(out@ =~= start + ("   "@ + axis_numbers(0, len1 as int) + last_number(len1 as int)
            + "   "@ + axis_ticks(0, len1 as int) + last_tick(len1 as int)));
    }
}

fn write_line(out: &mut String, diagram: &Vec<Vec<String>>, i2: usize, len2: usize, tip1: Option<
    &str,
>)
    requires
        i2 < len2,
        forall|k: int| 0 <= k < diagram.len() ==> i2 < (#[trigger] diagram[k]).len(),
    ensures
        final(out)@ == old(out)@ + (line_label(i2 as int, len2 as int) + line_cells(
            diagram.deep_view(),
            i2 as int,
            0,
        ) + line_end(i2 as int, tip1.deep_view())),
{
    let ghost start = out@;
    let ghost cells = diagram.deep_view();
    if i2 % 5 == 0 || i2 == len2 - 1 {
        let label = cat2(&align_right(&number(i2), 4), " - ");
        out.append(&label);
    } else {
        out.append("       ");
    }
    let ghost labelled = out@;
    let mut k: usize = 0;
    while k < diagram.len()
        invariant
            k <= diagram.len(),
            cells == diagram.deep_view(),
            forall|k: int| 0 <= k < diagram.len() ==> i2 < (#[trigger] diagram[k]).len(),
            labelled + line_cells(cells, i2 as int, 0) == out@ + line_cells(
                cells,
                i2 as int,
                k as int,
            ),
        decreases diagram.len() - k,
    {
        let ghost before = out@;
        let cell = &diagram[k][i2];
        assert(cells[k as int] == diagram[k as int].deep_view());
        assert(cells[k as int][i2 as int] == cell@);
        out.append(cell);
        k += 1;
        assert(before + (cell@ + line_cells(cells, i2 as int, k as int)) =~= out@ + line_cells(
            cells,
            i2 as int,
            k as int,
        ));
    }
    proof {
        reveal_strlit("");
        assert(out@ + line_cells(cells, i2 as int, k as int) =~= out@);
    }
    let ghost filled = out@;
    match tip1 {
        Some(tip) => if i2 == 0 {
            let tail = cat3(" - ", tip, "\n");
            out.append(&tail);
        } else {
            out.append("\n");
        },
        None => {
            out.append("\n");
        },
    }
    assert(out@ =~= start + (line_label(i2 as int, len2 as int) + line_cells(cells, i2 as int, 0)
        + line_end(i2 as int, tip1.deep_view())));
}

/// Writes a diagram with axes: a number and a tick at every fifth place and at the
/// last one, and the names of the tips.
pub fn write_diagram_with_axes(
    out: &mut String,
    diagram: &Vec<Vec<String>>,
    tip1: Option<&str>,
    tip2: Option<&str>,
)
    requires
        forall|k: int|
            0 <= k < diagram.len() ==> diagram[0].len() <= (#[trigger] diagram[k]).len(),
    ensures
        final(out)@ == old(out)@ + diagram_text(
            diagram.deep_view(),
            tip1.deep_view(),
            tip2.deep_view(),
        ),
{
    let ghost start = out@;
    let ghost cells = diagram.deep_view();
    let len1: usize = diagram.len();
    let len2: usize = if len1 > 0 {
        assert(cells[0] == diagram[0].deep_view());
        diagram[0].len()
    } else {
        0
    };
    write_axes(out, len1);
    let ghost headed = out@;
    let mut i2: usize = 0;
    while i2 < len2
        invariant
            i2 <= len2,
            cells == diagram.deep_view(),
            forall|k: int| 0 <= k < diagram.len() ==> len2 <= (#[trigger] diagram[k]).len(),
            headed + diagram_lines(cells, 0, len2 as int, tip1.deep_view()) == out@
                + diagram_lines(cells, i2 as int, len2 as int, tip1.deep_view()),
        decreases len2 - i2,
    {
        let ghost before = out@;
        write_line(out, diagram, i2, len2, tip1);
        proof {
            let line = line_label(i2 as int, len2 as int) + line_cells(cells, i2 as int, 0)
                + line_end(i2 as int, tip1.deep_view());
            let rest = diagram_lines(cells, i2 + 1, len2 as int, tip1.deep_view());
            assert(before + (line + rest) =~= out@ + rest);
        }
        i2 += 1;
    }
    proof {
        reveal_strlit("");
        assert(out@ + diagram_lines(cells, i2 as int, len2 as int, tip1.deep_view()) =~= out@);
    }
    let ghost body = out@;
    match tip2 {
        Some(tip) => {
            let tail = cat3("       |\n     ", tip, "\n");
            out.append(&tail);
        },
        None => {},
    }
    assert(out@ =~= body + foot(tip2.deep_view()));
    assert(out@ =~= start + diagram_text(cells, tip1.deep_view(), tip2.deep_view()));
}

/// Writes a diagram of the merges.
pub fn write_commits_diagram(
    out: &mut String,
    grid: &Grid,
    tip1: &str,
    tip2: &str,
    color_enabled: bool,
)
    requires
        grid@.wf(),
    ensures
        final(out)@ == old(out)@ + commits_text(grid@, tip1@, tip2@, color_enabled),
{
    let color = AnsiColor { enabled: color_enabled };
    let diagram = grid.create_diagram();
    let cells = format_diagram(&diagram, &color, false);
    proof {
        lemma_same_heights(&cells, diagram.deep_view(), color_enabled, false);
    }
    write_diagram_with_axes(out, &cells, Some(tip1), Some(tip2));
}

/// Writes a diagram of the merge frontier.
pub fn write_frontier_diagram(
    out: &mut String,
    grid: &Grid,
    frontier: &Frontier,
    tip1: &str,
    tip2: &str,
    color_enabled: bool,
)
    requires
        grid@.wf(),
        frontier@.window().within(grid@),
    ensures
        final(out)@ == old(out)@ + frontier_text(grid@, frontier@, tip1@, tip2@, color_enabled),
{
    let color = AnsiColor { enabled: color_enabled };
    let diagram = frontier.create_diagram(grid);
    let cells = format_diagram(&diagram, &color, true);
    proof {
        lemma_same_heights(&cells, diagram.deep_view(), color_enabled, true);
    }
    write_diagram_with_axes(out, &cells, Some(tip1), Some(tip2));
}

/// A diagram of the merges.
pub open spec fn commits_text(grid: GridView, tip1: Seq<char>, tip2: Seq<char>, enabled: bool) -> Seq<
    char,
> {
    let window = Rect { origin1: 0, origin2: 0, len1: grid.len1, len2: grid.len2 };
    diagram_text(formatted(diagram_of(grid, window), enabled, false), Some(tip1), Some(tip2))
}

/// A diagram of the merge frontier.
pub open spec fn frontier_text(
    grid: GridView,
    frontier: FrontierView,
    tip1: Seq<char>,
    tip2: Seq<char>,
    enabled: bool,
) -> Seq<char> {
    diagram_text(formatted(frontier.diagram(grid), enabled, true), Some(tip1), Some(tip2))
}

proof fn lemma_same_heights(
    cells: &Vec<Vec<String>>,
    codes: Seq<Seq<u8>>,
    enabled: bool,
    frontier_style: bool,
)
    requires
        cells.deep_view() == formatted(codes, enabled, frontier_style),
        forall|i: int, j: int|
            0 <= i < codes.len() && 0 <= j < codes.len() ==> (#[trigger] codes[i]).len() == (
            #[trigger] codes[j]).len(),
    ensures
        forall|k: int| 0 <= k < cells.len() ==> cells[0].len() <= (#[trigger] cells[k]).len(),
{
    let v = cells.deep_view();
    assert(v.len() == cells.len() && v.len() == codes.len());
    assert forall|k: int| 0 <= k < cells.len() implies cells[0].len() <= (
    #[trigger] cells[k]).len() by {
        assert(v[k] == cells[k].deep_view());
        assert(v[0] == cells[0].deep_view());
        assert(codes[k].len() == codes[0].len());
    }
}

// ---------------------------------------------------------------------
// HTML
// ---------------------------------------------------------------------

/// `list` with one more text where `wanted`.
pub open spec fn listed(list: Seq<Seq<char>>, wanted: bool, s: Seq<char>) -> Seq<Seq<char>> {
    if wanted {
        list.push(s)
    } else {
        list
    }
}

/// The class for what is known of a cell.
pub open spec fn merge_class(merge: u8) -> Seq<char> {
    if merge == MERGE_MANUAL {
        "merge_manual"@
    } else if merge == MERGE_AUTOMATIC {
        "merge_automatic"@
    } else if merge == MERGE_BLOCKED {
        "merge_blocked"@
    } else if merge == MERGE_UNBLOCKED {
        "merge_unblocked"@
    } else {
        "merge_unknown"@
    }
}

/// The classes of a cell.
pub open spec fn classes_of(i1: int, i2: int, node: u8, len1: int, len2: int) -> Seq<Seq<char>> {
    let merge = node & MERGE_MASK;
    let within = node & FRONTIER_WITHIN != 0;
    let a = listed(seq![merge_class(merge)], within, "frontier_within"@);
    let b = listed(a, node & FRONTIER_RIGHT_EDGE != 0, "frontier_right_edge"@);
    let c = listed(b, node & FRONTIER_BOTTOM_EDGE != 0, "frontier_bottom_edge"@);
    let d = listed(c, !within, "frontier_without"@);
    let e = listed(d, within && merge == MERGE_UNKNOWN, "merge_skipped"@);
    let f = listed(e, i1 == 0 || i2 == 0, "merge_initial"@);
    let g = listed(f, i1 == 0, "col_left"@);
    let h = listed(g, i1 == len1 - 1, "col_right"@);
    let i = listed(h, i2 == 0, "row_top"@);
    listed(i, i2 == len2 - 1, "row_bottom"@)
}

fn listing(list: Vec<String>, wanted: bool, s: &str) -> (r: Vec<String>)
    ensures
        r.deep_view() == listed(list.deep_view(), wanted, s@),
{
    if wanted {
        crate::text::with(list, s)
    } else {
        list
    }
}

fn map_to_classes(i1: usize, i2: usize, node: u8, len1: usize, len2: usize) -> (r: Vec<String>)
    requires
        len1 >= 1,
        len2 >= 1,
    ensures
        r.deep_view() == classes_of(i1 as int, i2 as int, node, len1 as int, len2 as int),
{
    let merge: u8 = node & MERGE_MASK;
    let within = node & FRONTIER_WITHIN != 0;
    let class = if merge == MERGE_MANUAL {
        "merge_manual"
    } else if merge == MERGE_AUTOMATIC {
        "merge_automatic"
    } else if merge == MERGE_BLOCKED {
        "merge_blocked"
    } else if merge == MERGE_UNBLOCKED {
        "merge_unblocked"
    } else {
        "merge_unknown"
    };
    let r = crate::text::list1(class);
    let r = listing(r, within, "frontier_within");
    let r = listing(r, node & FRONTIER_RIGHT_EDGE != 0, "frontier_right_edge");
    let r = listing(r, node & FRONTIER_BOTTOM_EDGE != 0, "frontier_bottom_edge");
    let r = listing(r, !within, "frontier_without");
    let r = listing(r, within && merge == MERGE_UNKNOWN, "merge_skipped");
    let r = listing(r, i1 == 0 || i2 == 0, "merge_initial");
    let r = listing(r, i1 == 0, "col_left");
    let r = listing(r, i1 == len1 - 1, "col_right");
    let r = listing(r, i2 == 0, "row_top");
    listing(r, i2 == len2 - 1, "row_bottom")
}

/// One cell of the table.
pub open spec fn html_cell(
    grid: GridView,
    top: Rect,
    codes: Seq<Seq<u8>>,
    i1: int,
    i2: int,
    abbrev: nat,
) -> Seq<char> {
    let sha1 = grid.cell(top.origin1 + i1, top.origin2 + i2).sha1;
    "    <td"@ + (match sha1 {
        Some(s) => " id=\""@ + s + "\""@,
        None => ""@,
    }) + " class=\""@ + joined(
        classes_of(i1, i2, codes[i1][i2], top.len1 as int, top.len2 as int),
        " "@,
    ) + "\">"@ + (match sha1 {
        Some(s) => shortened(s, abbrev),
        None => ""@,
    }) + "</td>\n"@
}

/// The cells of one row of the table, from place `i1` on.
pub open spec fn html_cells(
    grid: GridView,
    top: Rect,
    codes: Seq<Seq<u8>>,
    i1: int,
    i2: int,
    abbrev: nat,
) -> Seq<char>
    decreases top.len1 - i1,
{
    if i1 >= top.len1 {
        ""@
    } else {
        html_cell(grid, top, codes, i1, i2, abbrev) + html_cells(
            grid,
            top,
            codes,
            i1 + 1,
            i2,
            abbrev,
        )
    }
}

/// The rows of the table, from row `i2` on.
pub open spec fn html_rows(
    grid: GridView,
    top: Rect,
    codes: Seq<Seq<u8>>,
    i2: int,
    abbrev: nat,
) -> Seq<char>
    decreases top.len2 - i2,
{
    if i2 >= top.len2 {
        ""@
    } else {
        "  <tr>\n    <th class=\"indexes\">*-"@ + decimal(i2 as nat) + "</td>\n"@ + html_cells(
            grid,
            top,
            codes,
            0,
            i2,
            abbrev,
        ) + "  </tr>\n"@ + html_rows(grid, top, codes, i2 + 1, abbrev)
    }
}

/// The column heads of the table, from place `i1` on.
pub open spec fn html_heads(i1: int, len1: int) -> Seq<char>
    decreases len1 - i1,
{
    if i1 >= len1 {
        ""@
    } else {
        "    <th class=\"indexes\">"@ + decimal(i1 as nat) + "-*</td>\n"@ + html_heads(i1 + 1, len1)
    }
}

/// The HTML page for an incremental merge.
pub open spec fn html_text(
    grid: GridView,
    frontier: FrontierView,
    name: Seq<char>,
    cssfile: Seq<char>,
    abbrev: nat,
) -> Seq<char> {
    let top = frontier.window();
    "<html>\n<head>\n<title>git-imerge: "@ + name
        + "</title>\n<link rel=\"stylesheet\" href=\""@ + cssfile
        + "\" type=\"text/css\" />\n</head>\n<body>\n<table id=\"imerge\">\n  <tr>\n    <th class=\"indexes\">&nbsp;</td>\n"@
        + html_heads(0, top.len1 as int) + "  </tr>\n"@ + html_rows(
        grid,
        top,
        frontier.diagram(grid),
        0,
        abbrev,
    ) + "</table>\n</body>\n</html>\n"@
}

fn write_html_cell(
    out: &mut String,
    grid: &Grid,
    top: Rect,
    node: u8,
    i1: usize,
    i2: usize,
    abbrev: usize,
    Ghost(codes): Ghost<Seq<Seq<u8>>>,
)
    requires
        grid@.wf(),
        top.within(grid@),
        i1 < top.len1,
        i2 < top.len2,
        codes[i1 as int][i2 as int] == node,
    ensures
        final(out)@ == old(out)@ + html_cell(
            grid@,
            top,
            codes,
            i1 as int,
            i2 as int,
            abbrev as nat,
        ),
{
    let ghost start = out@;
    let classes = map_to_classes(i1, i2, node, top.len1, top.len2);
    let (id, shown) = match &grid.get(top.origin1 + i1, top.origin2 + i2).sha1 {
        Some(s) => (cat3(" id=\"", s, "\""), shorten(s, abbrev)),
        None => ("".to_owned(), "".to_owned()),
    };
    let class = join(&classes, " ");
    out.append("    <td");
    out.append(&id);
    out.append(" class=\"");
    out.append(&class);
    out.append("\">");
    out.append(&shown);
    out.append("</td>\n");
    assert(out@ =~= start + html_cell(grid@, top, codes, i1 as int, i2 as int, abbrev as nat));
}

fn write_html_row(
    out: &mut String,
    grid: &Grid,
    top: Rect,
    diagram: &Vec<Vec<u8>>,
    i2: usize,
    abbrev: usize,
)
    requires
        grid@.wf(),
        top.within(grid@),
        i2 < top.len2,
        diagram.len() == top.len1,
        forall|k: int| 0 <= k < diagram.len() ==> (#[trigger] diagram[k]).len() == top.len2,
    ensures
        final(out)@ == old(out)@ + ("  <tr>\n    <th class=\"indexes\">*-"@ + decimal(i2 as nat)
            + "</td>\n"@ + html_cells(
            grid@,
            top,
            diagram.deep_view(),
            0,
            i2 as int,
            abbrev as nat,
        ) + "  </tr>\n"@),
{
    let ghost start = out@;
    let ghost codes = diagram.deep_view();
    let head = cat3("  <tr>\n    <th class=\"indexes\">*-", &number(i2), "</td>\n");
    out.append(&head);
    let ghost headed = out@;
    let mut i1: usize = 0;
    while i1 < top.len1
        invariant
            i1 <= top.len1,
            grid@.wf(),
            top.within(grid@),
            i2 < top.len2,
            codes == diagram.deep_view(),
            diagram.len() == top.len1,
            forall|k: int| 0 <= k < diagram.len() ==> (#[trigger] diagram[k]).len() == top.len2,
            headed + html_cells(grid@, top, codes, 0, i2 as int, abbrev as nat) == out@
                + html_cells(grid@, top, codes, i1 as int, i2 as int, abbrev as nat),
        decreases top.len1 - i1,
    {
        let ghost before = out@;
        assert(diagram[i1 as int].len() == top.len2);
        let node: u8 = diagram[i1][i2];
        assert(codes[i1 as int] == diagram[i1 as int].deep_view());
        assert(codes[i1 as int][i2 as int] == node);
        write_html_cell(out, grid, top, node, i1, i2, abbrev, Ghost(codes));
        proof {
            let cell = html_cell(grid@, top, codes, i1 as int, i2 as int, abbrev as nat);
            let rest = html_cells(grid@, top, codes, i1 + 1, i2 as int, abbrev as nat);
            assert(before + (cell + rest) =~= out@ + rest);
        }
        i1 += 1;
    }
    proof {
        reveal_strlit("");
        assert(out@ + html_cells(grid@, top, codes, i1 as int, i2 as int, abbrev as nat) =~= out@);
    }
    out.append("  </tr>\n");
    assert(out@ =~= start + ("  <tr>\n    <th class=\"indexes\">*-"@ + decimal(i2 as nat)
        + "</td>\n"@ + html_cells(grid@, top, codes, 0, i2 as int, abbrev as nat) + "  </tr>\n"@));
}

/// Writes an HTML page with a table of the cells and the frontier. The look of it
/// is left to the style sheet.
pub fn write_html(
    out: &mut String,
    grid: &Grid,
    frontier: &Frontier,
    name: &str,
    cssfile: &str,
    abbrev_sha1: usize,
)
    requires
        grid@.wf(),
        frontier@.window().within(grid@),
    ensures
        final(out)@ == old(out)@ + html_text(
            grid@,
            frontier@,
            name@,
            cssfile@,
            abbrev_sha1 as nat,
        ),
{
    let ghost start = out@;
    let diagram = frontier.create_diagram(grid);
    let top = frontier.block();
    let ghost codes = frontier@.diagram(grid@);
    let ghost abbrev = abbrev_sha1 as nat;
    assert(diagram.deep_view().len() == top.len1);
    assert forall|k: int| 0 <= k < diagram.len() implies (#[trigger] diagram[k]).len()
        == top.len2 by {
        assert(diagram.deep_view()[k] == diagram[k].deep_view());
    }
    let head = cat5(
        "<html>\n<head>\n<title>git-imerge: ",
        name,
        "</title>\n<link rel=\"stylesheet\" href=\"",
        cssfile,
        "\" type=\"text/css\" />\n</head>\n<body>\n<table id=\"imerge\">\n  <tr>\n    <th class=\"indexes\">&nbsp;</td>\n",
    );
    out.append(&head);
    let ghost headed = out@;
    let mut i1: usize = 0;
    while i1 < top.len1
        invariant
            i1 <= top.len1,
            headed + html_heads(0, top.len1 as int) == out@ + html_heads(
                i1 as int,
                top.len1 as int,
            ),
        decreases top.len1 - i1,
    {
        let ghost before = out@;
        let cell = cat3("    <th class=\"indexes\">", &number(i1), "-*</td>\n");
        out.append(&cell);
        i1 += 1;
        proof {
            let rest = html_heads(i1 as int, top.len1 as int);
            assert(before + (cell@ + rest) =~= out@ + rest);
        }
    }
    proof {
        reveal_strlit("");
        assert(out@ + html_heads(i1 as int, top.len1 as int) =~= out@);
    }
    out.append("  </tr>\n");
    let ghost columns = out@;
    let mut i2: usize = 0;
    while i2 < top.len2
        invariant
            i2 <= top.len2,
            grid@.wf(),
            top.within(grid@),
            codes == diagram.deep_view(),
            abbrev == abbrev_sha1,
            diagram.len() == top.len1,
            forall|k: int| 0 <= k < diagram.len() ==> (#[trigger] diagram[k]).len() == top.len2,
            columns + html_rows(grid@, top, codes, 0, abbrev) == out@ + html_rows(
                grid@,
                top,
                codes,
                i2 as int,
                abbrev,
            ),
        decreases top.len2 - i2,
    {
        let ghost before = out@;
        write_html_row(out, grid, top, &diagram, i2, abbrev_sha1);
        proof {
            let row = "  <tr>\n    <th class=\"indexes\">*-"@ + decimal(i2 as nat) + "</td>\n"@
                + html_cells(grid@, top, codes, 0, i2 as int, abbrev) + "  </tr>\n"@;
            let rest = html_rows(grid@, top, codes, i2 + 1, abbrev);
            assert(before + (row + rest) =~= out@ + rest);
        }
        i2 += 1;
    }
    proof {
        reveal_strlit("");
        assert(out@ + html_rows(grid@, top, codes, i2 as int, abbrev) =~= out@);
    }
    out.append("</table>\n</body>\n</html>\n");
    assert(out@ =~= start + html_text(grid@, frontier@, name@, cssfile@, abbrev));
}

} // verus!
