//! What the drawings show.
use vstd::prelude::*;

use crate::block::{diagram_of, GridView, Rect};
use crate::cli::DiagramArgsView;
use crate::diagram::{
    commits_text, diagram_lines, diagram_text, formatted, frontier_text, height, html_cell,
    html_cells, html_rows, html_text, line_cells, line_end, line_label, FRONTIER_LEGEND_LINE,
    LEGEND,
};
use crate::finishing::occurs;
use crate::imerge::{full_window, MergeStateView};
use crate::relations::{law_diagram_shows_what_is_known, sign_of};
use crate::strategy::FrontierView;
use crate::talk::{MessageView, RequestView, Talk};
use crate::work::frontier_of;

verus! {

proof fn lemma_occurs(a: Seq<char>, b: Seq<char>, c: Seq<char>, x: Seq<char>)
    requires
        occurs(b, x),
    ensures
        occurs(a + b + c, x),
{
    let p = choose|p: int|
        0 <= p && p + x.len() <= b.len() && #[trigger] b.subrange(p, p + x.len()) == x;
    let q = a.len() + p;
    assert((a + b + c).subrange(q, q + x.len()) =~= b.subrange(p, p + x.len()));
}

proof fn lemma_occurs_here(a: Seq<char>, x: Seq<char>, c: Seq<char>)
    ensures
        occurs(a + x + c, x),
{
    let q = a.len() as int;
    assert((a + x + c).subrange(q, q + x.len()) =~= x);
}

/// The line of a diagram for one commit of the second branch: the signs of its cells, one
/// after the other.
pub open spec fn row_of(grid: GridView, i2: int) -> Seq<char> {
    Seq::new(grid.len1 as nat, |i1: int| sign_of(grid, i1, i2)[0])
}

proof fn lemma_sign(grid: GridView, i1: int, i2: int)
    ensures
        sign_of(grid, i1, i2) =~= seq![sign_of(grid, i1, i2)[0]],
{
    reveal_strlit("#");
    reveal_strlit("@");
    reveal_strlit("?");
    reveal_strlit("*");
    reveal_strlit(".");
}

proof fn lemma_line(grid: GridView, i2: int, k: int)
    requires
        grid.wf(),
        0 <= i2 < grid.len2,
        0 <= k <= grid.len1,
    ensures
        line_cells(formatted(diagram_of(grid, full_window(grid)), false, false), i2, k)
            == row_of(grid, i2).skip(k),
    decreases grid.len1 - k,
{
    reveal_strlit("");
    let cells = formatted(diagram_of(grid, full_window(grid)), false, false);
    if k < grid.len1 {
        lemma_line(grid, i2, k + 1);
        law_diagram_shows_what_is_known(grid, k, i2);
        lemma_sign(grid, k, i2);
        assert(row_of(grid, i2).skip(k) =~= seq![row_of(grid, i2)[k]] + row_of(grid, i2).skip(
            k + 1,
        ));
    } else {
        assert(row_of(grid, i2).skip(k) =~= ""@);
    }
}

proof fn lemma_lines(grid: GridView, from: int, i2: int, tip1: Option<Seq<char>>)
    requires
        grid.wf(),
        0 <= from <= i2 < grid.len2,
    ensures
        occurs(
            diagram_lines(
                formatted(diagram_of(grid, full_window(grid)), false, false),
                from,
                grid.len2 as int,
                tip1,
            ),
            row_of(grid, i2) + line_end(i2, tip1),
        ),
    decreases i2 - from,
{
    let cells = formatted(diagram_of(grid, full_window(grid)), false, false);
    let label = line_label(from, grid.len2 as int);
    let line = line_cells(cells, from, 0);
    let rest = diagram_lines(cells, from + 1, grid.len2 as int, tip1);
    let all = diagram_lines(cells, from, grid.len2 as int, tip1);
    if from == i2 {
        lemma_line(grid, i2, 0);
        assert(row_of(grid, i2).skip(0) =~= row_of(grid, i2));
        let x = row_of(grid, i2) + line_end(i2, tip1);
        lemma_occurs_here(label, x, rest);
        assert(all =~= label + x + rest);
    } else {
        lemma_lines(grid, from + 1, i2, tip1);
        let head = label + line + line_end(from, tip1);
        lemma_occurs(head, rest, Seq::empty(), row_of(grid, i2) + line_end(i2, tip1));
        assert(head + rest + Seq::empty() =~= all);
    }
}

/// The diagram of the merges, without colours, has a line for each commit of the second
/// branch with the signs of all its cells, from the first commit of the first branch to
/// the last. The first of them ends with the first tip. The second tip stands below.
pub proof fn law_diagram_has_every_row(
    grid: GridView,
    tip1: Seq<char>,
    tip2: Seq<char>,
    i2: int,
)
    requires
        grid.wf(),
        grid.len1 >= 1,
        0 <= i2 < grid.len2,
    ensures
        occurs(
            commits_text(grid, tip1, tip2, false),
            row_of(grid, i2) + if i2 == 0 {
                " - "@ + tip1 + "\n"@
            } else {
                "\n"@
            },
        ),
        occurs(commits_text(grid, tip1, tip2, false), "     "@ + tip2 + "\n"@),
{
    let cells = formatted(diagram_of(grid, full_window(grid)), false, false);
    assert(height(cells) == grid.len2);
    lemma_lines(grid, 0, i2, Some(tip1));
    let lines = diagram_lines(cells, 0, grid.len2 as int, Some(tip1));
    let text = diagram_text(cells, Some(tip1), Some(tip2));
    let foot = crate::diagram::foot(Some(tip2));
    let head = text.take(text.len() - foot.len() - lines.len());
    assert(text =~= head + lines + foot);
    lemma_occurs(head, lines, foot, row_of(grid, i2) + line_end(i2, Some(tip1)));
    reveal_strlit("       |\n     ");
    reveal_strlit("     ");
    let tail = "     "@ + tip2 + "\n"@;
    let before = foot.take(9);
    assert(foot =~= before + tail);
    lemma_occurs_here(head + lines + before, tail, Seq::empty());
    assert(head + lines + before + tail + Seq::empty() =~= text);
}

// ---------------------------------------------------------------------
// HTML
// ---------------------------------------------------------------------

proof fn lemma_cells(
    grid: GridView,
    top: Rect,
    codes: Seq<Seq<u8>>,
    from: int,
    i1: int,
    i2: int,
    abbrev: nat,
)
    requires
        0 <= from <= i1 < top.len1,
    ensures
        occurs(
            html_cells(grid, top, codes, from, i2, abbrev),
            html_cell(grid, top, codes, i1, i2, abbrev),
        ),
    decreases i1 - from,
{
    let cell = html_cell(grid, top, codes, from, i2, abbrev);
    let rest = html_cells(grid, top, codes, from + 1, i2, abbrev);
    if from == i1 {
        lemma_occurs_here(Seq::empty(), cell, rest);
        assert(Seq::<char>::empty() + cell + rest =~= cell + rest);
    } else {
        lemma_cells(grid, top, codes, from + 1, i1, i2, abbrev);
        lemma_occurs(cell, rest, Seq::empty(), html_cell(grid, top, codes, i1, i2, abbrev));
        assert(cell + rest + Seq::empty() =~= cell + rest);
    }
}

proof fn lemma_rows(
    grid: GridView,
    top: Rect,
    codes: Seq<Seq<u8>>,
    from: int,
    i1: int,
    i2: int,
    abbrev: nat,
)
    requires
        0 <= i1 < top.len1,
        0 <= from <= i2 < top.len2,
    ensures
        occurs(
            html_rows(grid, top, codes, from, abbrev),
            html_cell(grid, top, codes, i1, i2, abbrev),
        ),
    decreases i2 - from,
{
    let x = html_cell(grid, top, codes, i1, i2, abbrev);
    let all = html_rows(grid, top, codes, from, abbrev);
    let cells = html_cells(grid, top, codes, 0, from, abbrev);
    let rest = html_rows(grid, top, codes, from + 1, abbrev);
    let head = "  <tr>\n    <th class=\"indexes\">*-"@ + crate::text::decimal(from as nat)
        + "</td>\n"@;
    if from == i2 {
        lemma_cells(grid, top, codes, 0, i1, i2, abbrev);
        lemma_occurs(head, cells, "  </tr>\n"@ + rest, x);
        assert(head + cells + ("  </tr>\n"@ + rest) =~= all);
    } else {
        lemma_rows(grid, top, codes, from + 1, i1, i2, abbrev);
        lemma_occurs(head + cells + "  </tr>\n"@, rest, Seq::empty(), x);
        assert(head + cells + "  </tr>\n"@ + rest + Seq::empty() =~= all);
    }
}

/// What a cell of the page says of its merge result: its commit as an id, and the
/// beginning of it as text.
pub open spec fn shows_commit(cell: Seq<char>, sha1: Option<Seq<char>>, abbrev: int) -> bool {
    match sha1 {
        Some(s) => {
            &&& begins_with(cell, "    <td id=\""@ + s + "\" class=\""@)
            &&& ends_with(
                cell,
                "\">"@ + (if s.len() > abbrev {
                    s.take(abbrev)
                } else {
                    s
                }) + "</td>\n"@,
            )
        },
        None => begins_with(cell, "    <td class=\""@) && ends_with(cell, "\"></td>\n"@),
    }
}

/// The text begins with the piece.
pub open spec fn begins_with(text: Seq<char>, piece: Seq<char>) -> bool {
    piece.len() <= text.len() && text.take(piece.len() as int) == piece
}

/// The text ends with the piece.
pub open spec fn ends_with(text: Seq<char>, piece: Seq<char>) -> bool {
    piece.len() <= text.len() && text.skip(text.len() - piece.len()) == piece
}

proof fn lemma_shows_commit(
    grid: GridView,
    top: Rect,
    codes: Seq<Seq<u8>>,
    i1: int,
    i2: int,
    abbrev: nat,
)
    ensures
        shows_commit(
            html_cell(grid, top, codes, i1, i2, abbrev),
            grid.cell(top.origin1 + i1, top.origin2 + i2).sha1,
            abbrev as int,
        ),
{
    let cell = html_cell(grid, top, codes, i1, i2, abbrev);
    reveal_strlit("");
    reveal_strlit("    <td");
    reveal_strlit(" id=\"");
    reveal_strlit("\"");
    reveal_strlit(" class=\"");
    reveal_strlit("    <td id=\"");
    reveal_strlit("\" class=\"");
    reveal_strlit("    <td class=\"");
    reveal_strlit("\">");
    reveal_strlit("</td>\n");
    reveal_strlit("\"></td>\n");
    match grid.cell(top.origin1 + i1, top.origin2 + i2).sha1 {
        Some(s) => {
            let head = "    <td id=\""@ + s + "\" class=\""@;
            let tail = "\">"@ + crate::text::shortened(s, abbrev) + "</td>\n"@;
            assert(cell.take(head.len() as int) =~= head);
            assert(cell.skip(cell.len() - tail.len()) =~= tail);
        },
        None => {
            assert(cell.take("    <td class=\""@.len() as int) =~= "    <td class=\""@);
            assert(cell.skip(cell.len() - "\"></td>\n"@.len()) =~= "\"></td>\n"@);
        },
    }
}

/// The page has a cell for every cell of the grid, which shows the commit of its merge
/// result if there is one.
pub proof fn law_page_has_every_cell(
    grid: GridView,
    frontier: FrontierView,
    name: Seq<char>,
    cssfile: Seq<char>,
    abbrev: nat,
    i1: int,
    i2: int,
)
    requires
        0 <= i1 < frontier.window().len1,
        0 <= i2 < frontier.window().len2,
    ensures
        occurs(
            html_text(grid, frontier, name, cssfile, abbrev),
            html_cell(grid, frontier.window(), frontier.diagram(grid), i1, i2, abbrev),
        ),
        shows_commit(
            html_cell(grid, frontier.window(), frontier.diagram(grid), i1, i2, abbrev),
            grid.cell(frontier.window().origin1 + i1, frontier.window().origin2 + i2).sha1,
            abbrev as int,
        ),
{
    let top = frontier.window();
    let codes = frontier.diagram(grid);
    let rows = html_rows(grid, top, codes, 0, abbrev);
    let text = html_text(grid, frontier, name, cssfile, abbrev);
    lemma_rows(grid, top, codes, 0, i1, i2, abbrev);
    lemma_shows_commit(grid, top, codes, i1, i2, abbrev);
    let x = html_cell(grid, top, codes, i1, i2, abbrev);
    let tail = "</table>\n</body>\n</html>\n"@;
    let head = text.take(text.len() - tail.len() - rows.len());
    assert(text =~= head + rows + tail);
    lemma_occurs(head, rows, tail, x);
}

// ---------------------------------------------------------------------
// The command
// ---------------------------------------------------------------------

/// What is drawn on the terminal: the merges if they are asked for, and the frontier if
/// it is asked for or nothing is; and below that what the signs mean.
pub open spec fn drawn(
    s: MergeStateView,
    f: FrontierView,
    args: DiagramArgsView,
    coloured: bool,
) -> Seq<MessageView> {
    let merges = MessageView::Stdout(commits_text(s.grid, s.tip1, s.tip2, coloured) + "\n"@);
    let frontier = MessageView::Stdout(
        frontier_text(s.grid, f, s.tip1, s.tip2, coloured) + "\n"@,
    );
    let key = MessageView::Stdout("Key:\n"@ + LEGEND@);
    let frontier_key = MessageView::Stdout("Key:\n"@ + FRONTIER_LEGEND_LINE@ + LEGEND@);
    if args.commits && args.frontier {
        seq![merges, frontier, frontier_key]
    } else if args.commits {
        seq![merges, key]
    } else {
        seq![frontier, frontier_key]
    }
}

/// A diagram shows what is asked for of the incremental merge that is read. Colours are
/// used where the user asks for them, and otherwise on a terminal, unless the user does
/// not want them.
pub proof fn law_diagram_draws_what_is_asked_for(g: Talk, args: DiagramArgsView, terminal: bool)
    ensures
        g.cmd_diagram(args, terminal) matches (t, Ok(_)) ==> {
            let (h, read) = g.read_merge_state(args.name);
            let coloured = if args.no_color {
                false
            } else if args.color {
                true
            } else {
                terminal
            };
            &&& read matches Ok(s) && t.told == h.told + drawn(
                s,
                frontier_of(s)->Ok_0,
                args,
                coloured,
            )
            &&& args.html is None ==> t.asked == h.asked
            &&& args.html matches Some(path) ==> t.asked.len() == h.asked.len() + 1
                && (t.asked.last() matches RequestView::WriteFile { path: p, .. } && p == path)
        },
{
    reveal(Talk::cmd_diagram);
    let (h, read) = g.read_merge_state(args.name);
    if let (t, Ok(_)) = g.cmd_diagram(args, terminal) {
        let s = read->Ok_0;
        let coloured = if args.no_color {
            false
        } else if args.color {
            true
        } else {
            terminal
        };
        assert(t.told =~= h.told + drawn(s, frontier_of(s)->Ok_0, args, coloured));
    }
}

} // verus!
