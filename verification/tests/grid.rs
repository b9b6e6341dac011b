//! Records, the grid and windows into it, texts and diagrams.
use git_imerge::block::{
    merge_state_code, Grid, MERGE_AUTOMATIC, MERGE_BLOCKED, MERGE_MANUAL, MERGE_UNBLOCKED,
    MERGE_UNKNOWN, MergeRecord, Rect,
};
use git_imerge::cli::EditArgs;
use git_imerge::diagram::{write_diagram_with_axes, write_frontier_diagram, write_html};
use git_imerge::error::ImergeError;
use git_imerge::pattern::{imerge_name, parse_cell_ref, split_range};
use git_imerge::strategy::Frontier;
use git_imerge::text::{
    align_right, drop_line_feeds, lines, number, parse, shorten, signed_number, split_at_blank,
    split_at_char, trim, words,
};

// -- records ---------------------------------------------------------------

#[test]
fn manual_beats_auto() {
    let mut r = MergeRecord::new();
    r.record_merge("auto", MergeRecord::NEW_AUTO);
    assert_eq!(r.sha1, Some("auto".to_string()));
    r.record_merge("saved", MergeRecord::SAVED_AUTO);
    assert_eq!(r.sha1, Some("auto".to_string()), "a saved result is a fallback");
    r.record_merge("manual", MergeRecord::NEW_MANUAL);
    assert_eq!(r.sha1, Some("manual".to_string()));
    assert_eq!(r.flags, MergeRecord::NEW_MANUAL | MergeRecord::SAVED_AUTO);
    r.record_merge("late", MergeRecord::NEW_AUTO);
    r.record_merge("late", MergeRecord::SAVED_AUTO);
    r.record_merge("late", MergeRecord::SAVED_MANUAL);
    assert_eq!(r.sha1, Some("manual".to_string()));
    assert!(r.is_manual() && r.is_known() && !r.is_blocked());
}

#[test]
fn marks_come_and_go() {
    let mut r = MergeRecord::new();
    r.record_blocked(true);
    assert!(r.is_blocked() && !r.is_known());
    r.record_blocked(false);
    assert_eq!(r.flags, 0);
}

#[test]
fn codes_say_what_is_known() {
    assert_eq!(merge_state_code(false, false, false), MERGE_UNKNOWN);
    assert_eq!(merge_state_code(false, false, true), MERGE_BLOCKED);
    assert_eq!(merge_state_code(true, false, true), MERGE_UNBLOCKED);
    assert_eq!(merge_state_code(true, true, true), MERGE_UNBLOCKED);
    assert_eq!(merge_state_code(true, false, false), MERGE_AUTOMATIC);
    assert_eq!(merge_state_code(true, true, false), MERGE_MANUAL);
}

// -- windows ---------------------------------------------------------------

#[test]
fn local_and_grid_coordinates_agree() {
    let r = Rect { origin1: 2, origin2: 5, len1: 3, len2: 4 };
    assert_eq!(r.abs(1, 2).unwrap(), (3, 7));
    assert_eq!(r.abs(-1, -4).unwrap(), (4, 5));
    assert_eq!(r.to_local(3, 7), Some((1, 2)));
    assert_eq!(r.to_local(5, 7), None);
    assert_eq!(r.to_local(1, 7), None);
    assert_eq!(r.area(), 6);
    assert_eq!(
        r.sub(1, 2, 1, 3),
        Rect { origin1: 3, origin2: 6, len1: 2, len2: 3 }
    );
    assert_eq!(
        r.abs(3, 0).unwrap_err().message(),
        "first index (3) is out of range 0:3"
    );
    assert_eq!(
        r.abs(0, -5).unwrap_err().message(),
        "second index (-5) is out of range 0:4"
    );
}

#[test]
fn a_window_reads_and_writes_its_cells() {
    let mut grid = Grid::new("g", 3, 3);
    assert_eq!(grid.area(), 4);
    let r = Rect::full(3, 3).sub(1, 2, 1, 2);
    r.record_merge(&mut grid, 0, 1, "m", MergeRecord::NEW_AUTO).unwrap();
    r.record_blocked(&mut grid, 1, 1, true).unwrap();
    assert!(r.known(&grid, 0, 1).unwrap());
    assert!(r.blocked(&grid, -1, -1).unwrap());
    assert_eq!(r.sha1(&grid, 0, 1).unwrap(), Some("m".to_string()));
    assert!(grid.is_known(1, 2) && grid.is_blocked(2, 2));
    assert!(r.record_blocked(&mut grid, 2, 0, true).is_err());
    assert_eq!(r.create_diagram(&grid), vec![vec![0, 2], vec![0, 3]]);
    assert_eq!(grid.create_diagram(), vec![vec![0, 0, 0], vec![0, 0, 2], vec![0, 0, 3]]);
}

// -- errors ----------------------------------------------------------------

#[test]
fn every_error_has_a_message() {
    let s = |t: &str| t.to_string();
    let cases = vec![
        (ImergeError::Failure(s("f")), "f"),
        (
            ImergeError::UnexpectedMergeFailure { i1: 1, i2: 2, msg: s("m") },
            "unexpected merge failure at 1-2: m",
        ),
        (ImergeError::BlockComplete, "the block is already complete"),
        (ImergeError::FrontierBlocked { i1: 1, i2: 2, msg: s("m") }, "m"),
        (ImergeError::NotABlockingCommit(s("n")), "n"),
        (ImergeError::NoManualMerge(s("n")), "n"),
        (
            ImergeError::ManualMergeUnusable { commit: s("c"), msg: s("m") },
            "commit c is not usable; m",
        ),
        (
            ImergeError::CommitNotFound(s("c")),
            "commit c was not found among the known merge commits",
        ),
        (ImergeError::MissingMerge { i1: 3, i2: 4 }, "merge 3-4 is not yet done"),
        (ImergeError::NothingToDo, "nothing to do"),
        (ImergeError::UncleanWorkTree(s("u")), "u"),
        (ImergeError::NonlinearAncestry(s("n")), "n"),
        (ImergeError::NotFirstParentAncestor(s("n")), "n"),
    ];
    for (e, text) in cases {
        assert_eq!(e.message(), text);
    }
}

// -- names -----------------------------------------------------------------

#[test]
fn names_and_cells_are_read_from_refs() {
    assert_eq!(imerge_name("refs/imerge/a/state"), Some("a".to_string()));
    assert_eq!(imerge_name("refs/imerge/a/state/state"), Some("a/state".to_string()));
    assert_eq!(imerge_name("refs/imerge//state"), None);
    assert_eq!(imerge_name("refs/imerge/a\nb/state"), None);
    assert_eq!(imerge_name("refs/heads/a/state"), None);
    let cell = parse_cell_ref("n+1", "refs/imerge/n+1/manual/10-0").unwrap().unwrap();
    assert_eq!((cell.source.as_str(), cell.at), ("manual", Some((10, 0))));
    assert!(parse_cell_ref("n+1", "refs/imerge/nn1/manual/10-0").unwrap().is_none());
    let odd = "\\.+*?()|[]{}^$#&-~%/!e";
    let cell = parse_cell_ref(odd, &format!("refs/imerge/{odd}/auto/1-2")).unwrap().unwrap();
    assert_eq!(cell.at, Some((1, 2)));
    assert!(parse_cell_ref("n", "refs/imerge/n/manual/1-2-3").unwrap().is_none());
    assert!(parse_cell_ref("n", "refs/imerge/n/other/1-2").unwrap().is_none());
    assert!(parse_cell_ref("n", "refs/imerge/n/auto/1-02").unwrap().is_none());
}

#[test]
fn ranges_split_at_the_last_dots() {
    let parts = |r: &str| split_range(r).map(|(a, s, b)| format!("{a}|{s}|{b}"));
    assert_eq!(parts("a..b"), Some("a|..|b".to_string()));
    assert_eq!(parts("a...b"), Some("a|...|b".to_string()));
    assert_eq!(parts("a..b..c"), Some("a..b|..|c".to_string()));
    assert_eq!(parts("v1.2..v1.3"), Some("v1.2|..|v1.3".to_string()));
    assert_eq!(parts("a.b"), None);
    assert_eq!(parts("..b"), None);
    assert_eq!(parts("a.."), None);
    assert_eq!(parts("x\ny..b"), None);
}

#[test]
fn not_editing_wins() {
    let args = |edit, no_edit| EditArgs { name: None, edit, no_edit }.edit_log_msg();
    assert_eq!(args(false, false), None);
    assert_eq!(args(true, false), Some(true));
    assert_eq!(args(false, true), Some(false));
    assert_eq!(args(true, true), Some(false));
}

// -- texts -----------------------------------------------------------------

#[test]
fn texts_are_taken_apart_like_in_std() {
    for s in ["", "a", "\n", "a\nb", "a\r\nb\n", "\n\n", "x y\tz", "  \u{3000}a b ", "\u{85}q\n"] {
        let expected: Vec<String> = s.lines().map(|l| l.to_string()).collect();
        assert_eq!(lines(s), expected);
        let expected: Vec<String> = s.split_whitespace().map(|l| l.to_string()).collect();
        assert_eq!(words(s), expected);
        assert_eq!(trim(s), s.trim());
        assert_eq!(drop_line_feeds(s), s.trim_end_matches('\n'));
    }
    for s in ["0", "7", "+7", "007", "18446744073709551615", "18446744073709551616", "", "+", "-1", "1x"] {
        assert_eq!(parse(s, u64::MAX), s.parse::<u64>().ok());
    }
    assert_eq!(parse("256", 255), None);
    for n in [0usize, 9, 10, 12345, usize::MAX] {
        assert_eq!(number(n), n.to_string());
    }
    for n in [0isize, -1, 42, isize::MIN, isize::MAX] {
        assert_eq!(signed_number(n), n.to_string());
    }
    assert_eq!(align_right("ab", 4), format!("{:>4}", "ab"));
    assert_eq!(align_right("abcde", 4), "abcde");
    assert_eq!(shorten("äöü", 2), "äö");
    assert_eq!(split_at_char("a b c", ' '), ("a".to_string(), Some("b c".to_string())));
    assert_eq!(split_at_char("abc", ' '), ("abc".to_string(), None));
    assert_eq!(
        split_at_blank("a\n\nb\n\nc"),
        Some(("a".to_string(), "b\n\nc".to_string()))
    );
    assert_eq!(split_at_blank("a\nb"), None);
}

// -- diagrams --------------------------------------------------------------

fn cells(len1: usize, len2: usize) -> Vec<Vec<String>> {
    vec![vec![".".to_string(); len2]; len1]
}

#[test]
fn axes_count_in_fives() {
    let mut out = String::new();
    write_diagram_with_axes(&mut out, &cells(8, 7), Some("left"), Some("right"));
    assert_eq!(
        out,
        "       0    5 7\n       |    | |\n   0 - ........ - left\n       ........\n       ........\n       ........\n       ........\n   5 - ........\n   6 - ........\n       |\n     right\n"
    );
    let mut out = "before\n".to_string();
    write_diagram_with_axes(&mut out, &cells(6, 1), None, None);
    assert_eq!(out, "before\n       0    5\n       |    |\n   0 - ......\n");
    let mut out = String::new();
    write_diagram_with_axes(&mut out, &cells(0, 0), None, None);
    assert_eq!(out, "   \n   \n");
}

fn staircase_grid() -> (Grid, Frontier) {
    let mut grid = Grid::new("t", 3, 3);
    for i in 0..3 {
        grid.get_mut(i, 0).record_merge("c", MergeRecord::NEW_MANUAL);
        grid.get_mut(0, i).record_merge("c", MergeRecord::NEW_MANUAL);
    }
    grid.get_mut(1, 1).record_merge("0123456789", MergeRecord::NEW_AUTO);
    grid.get_mut(2, 1).record_merge("m21", MergeRecord::NEW_AUTO);
    grid.get_mut(1, 2).record_blocked(true);
    let full = Rect::full(3, 3);
    let frontier =
        Frontier::Blockwise { top: full, blocks: vec![full.sub(0, 1, 0, 3), full.sub(0, 3, 0, 2)] };
    (grid, frontier)
}

#[test]
fn a_frontier_is_drawn_around_its_blocks() {
    let (grid, frontier) = staircase_grid();
    // Bits: within, right edge, bottom edge.
    assert_eq!(
        frontier.create_diagram(&grid),
        vec![
            vec![0x11, 0x11, 0x71],
            vec![0x11, 0x52, 0x03],
            vec![0x31, 0x72, 0x00],
        ]
    );
    let mut out = String::new();
    write_frontier_diagram(&mut out, &grid, &frontier, "a", "b", false);
    assert_eq!(out, "       0 2\n       | |\n   0 - *** - a\n       *-+\n   2 - *#?\n       |\n     b\n");
    let mut out = String::new();
    write_frontier_diagram(&mut out, &grid, &frontier, "a", "b", true);
    assert!(out.contains("\x1b[1;32m*\x1b[0m\x1b[1;31m#\x1b[0m\x1b[1;31m?\x1b[0m\n"));
}

#[test]
fn a_page_has_a_cell_for_each_merge() {
    let (grid, frontier) = staircase_grid();
    let mut out = String::new();
    write_html(&mut out, &grid, &frontier, "n", "s.css", 7);
    assert!(out.starts_with("<html>\n<head>\n<title>git-imerge: n</title>\n<link rel=\"stylesheet\" href=\"s.css\" type=\"text/css\" />\n</head>\n<body>\n<table id=\"imerge\">\n  <tr>\n    <th class=\"indexes\">&nbsp;</td>\n    <th class=\"indexes\">0-*</td>\n"));
    assert!(out.contains("    <td id=\"0123456789\" class=\"merge_automatic frontier_within frontier_bottom_edge\">0123456</td>\n"));
    assert!(out.contains("    <td class=\"merge_unknown frontier_without col_right row_bottom\"></td>\n"));
    assert!(out.contains("    <td class=\"merge_blocked frontier_without row_bottom\"></td>\n"));
    assert!(out.contains("class=\"merge_manual frontier_within merge_initial col_left row_top\""));
    assert!(out.ends_with("  </tr>\n</table>\n</body>\n</html>\n"));
}
