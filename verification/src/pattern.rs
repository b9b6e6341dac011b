//! The names of the refs that an incremental merge lives in, and ranges of
//! commits.
use vstd::prelude::*;

use crate::error::{ErrorView, ImergeError};
use crate::text::{after_char, all_digits, before_char, begins, cat3, parse, parsed};

verus! {

/// The pattern for the state ref of any incremental merge.
pub const NAME_PATTERN: &'static str = "^refs/imerge/(?P<name>.+)/state$";

/// The pattern for a range of commits.
pub const RANGE_PATTERN: &'static str = "^(?P<start>.*[^.])(?P<sep>\\.{2,})(?P<end>[^.].*)$";

/// The pattern for the refs of merged cells, around the escaped name of the
/// incremental merge.
pub open spec fn merge_pattern(middle: Seq<char>) -> Seq<char> {
    "^refs/imerge/"@ + middle
        + "/(?P<source>auto|manual)/(?P<i1>0|[1-9][0-9]*)-(?P<i2>0|[1-9][0-9]*)$"@
}

/// The pattern for the state ref, around the escaped name of the incremental
/// merge.
pub open spec fn state_pattern(middle: Seq<char>) -> Seq<char> {
    "^refs/imerge/"@ + middle + "/state$"@
}

/// The ref that holds the state of the incremental merge `name`.
pub open spec fn state_refname(name: Seq<char>) -> Seq<char> {
    "refs/imerge/"@ + name + "/state"@
}

/// The name of the incremental merge whose state ref `refname` is: what stands
/// between the two fixed parts, if it is not empty and has no line feed.
pub open spec fn name_in(refname: Seq<char>) -> Option<Seq<char>> {
    let n = refname.len() - 6;
    let name = refname.subrange(12, n);
    if n > 12 && refname.take(12) == "refs/imerge/"@ && refname.skip(n) == "/state"@
        && !name.contains('\n') {
        Some(name)
    } else {
        None
    }
}

/// A number in decimal, without leading zeros.
pub open spec fn is_numeral(s: Seq<char>) -> bool {
    all_digits(s) && (s.len() == 1 || s[0] != '0')
}

/// The source and the two coordinates in the name of a cell's ref, after
/// everything up to and with the source's slash: `1-2`.
pub open spec fn coordinates_in(s: Seq<char>) -> Option<(Seq<char>, Seq<char>)> {
    match after_char(s, '-') {
        Some(second) => if is_numeral(before_char(s, '-')) && is_numeral(second) {
            Some((before_char(s, '-'), second))
        } else {
            None
        },
        None => None,
    }
}

/// The source and the coordinates in the name of a ref that holds a cell of the
/// incremental merge `name`.
pub open spec fn cell_in(name: Seq<char>, refname: Seq<char>) -> Option<
    (Seq<char>, Seq<char>, Seq<char>),
> {
    let prefix = "refs/imerge/"@ + name + "/"@;
    let rest = refname.skip(prefix.len() as int);
    if !begins(refname, prefix) {
        None
    } else if begins(rest, "auto/"@) {
        match coordinates_in(rest.skip(5)) {
            Some((i1, i2)) => Some(("auto"@, i1, i2)),
            None => None,
        }
    } else if begins(rest, "manual/"@) {
        match coordinates_in(rest.skip(7)) {
            Some((i1, i2)) => Some(("manual"@, i1, i2)),
            None => None,
        }
    } else {
        None
    }
}

/// `text[a..b]` is a row of at least two dots between two other characters. No
/// line feed stands before the character on its left or after the one on its
/// right.
pub open spec fn is_gap(text: Seq<char>, a: int, b: int) -> bool {
    &&& 1 <= a
    &&& a + 2 <= b < text.len()
    &&& text[a - 1] != '.'
    &&& text[b] != '.'
    &&& forall|i: int| a <= i < b ==> #[trigger] text[i] == '.'
    &&& !text.take(a - 1).contains('\n')
    &&& !text.skip(b + 1).contains('\n')
}

/// `groups` are the text, what stands before the last gap in it, the gap, and
/// what stands after; there are none if the text has no gap.
pub open spec fn split_at_gap(text: Seq<char>, groups: Option<Seq<Seq<char>>>) -> bool {
    match groups {
        Some(g) => exists|a: int, b: int|
            #[trigger] is_gap(text, a, b) && g == seq![
                text,
                text.take(a),
                text.subrange(a, b),
                text.skip(b),
            ] && forall|c: int, d: int| #[trigger] is_gap(text, c, d) ==> c <= a,
        None => forall|a: int, b: int| !#[trigger] is_gap(text, a, b),
    }
}

/// What `regex::Regex::captures` gives: an error text for a pattern that cannot
/// be compiled, nothing where the pattern does not match, and the text of each
/// group where it does, the whole match first.
pub uninterp spec fn regex_groups(pattern: Seq<char>, text: Seq<char>) -> Result<
    Option<Seq<Seq<char>>>,
    Seq<char>,
>;

/// The characters that mean something in a pattern.
pub open spec fn is_meta(c: char) -> bool {
    ||| c == '\\' || c == '.' || c == '+' || c == '*' || c == '?' || c == '(' || c == ')'
    ||| c == '|' || c == '[' || c == ']' || c == '{' || c == '}' || c == '^' || c == '$'
    ||| c == '#' || c == '&' || c == '-' || c == '~'
}

/// The text with a backslash before each character that means something in a
/// pattern.
pub open spec fn escaped(s: Seq<char>) -> Seq<char>
    decreases s.len(),
{
    if s.len() == 0 {
        s
    } else if is_meta(s.last()) {
        escaped(s.drop_last()).push('\\').push(s.last())
    } else {
        escaped(s.drop_last()).push(s.last())
    }
}

/// The content of captured groups.
pub open spec fn groups_view(r: Result<Option<Vec<String>>, String>) -> Result<
    Option<Seq<Seq<char>>>,
    Seq<char>,
> {
    match r {
        Ok(g) => Ok(g.deep_view()),
        Err(e) => Err(e@),
    }
}

/// What [`NAME_PATTERN`] captures.
pub open spec fn is_name_match(
    text: Seq<char>,
    r: Result<Option<Seq<Seq<char>>>, Seq<char>>,
) -> bool {
    r matches Ok(g) && g == match name_in(text) {
        Some(name) => Some(seq![text, name]),
        None => None,
    }
}

/// What [`RANGE_PATTERN`] captures.
pub open spec fn is_range_match(
    text: Seq<char>,
    r: Result<Option<Seq<Seq<char>>>, Seq<char>>,
) -> bool {
    r matches Ok(g) && split_at_gap(text, g)
}

/// What the pattern for the cells of the incremental merge `name` captures, if
/// it can be compiled.
pub open spec fn is_cell_match(
    name: Seq<char>,
    text: Seq<char>,
    r: Result<Option<Seq<Seq<char>>>, Seq<char>>,
) -> bool {
    r matches Ok(g) ==> g == match cell_in(name, text) {
        Some((source, i1, i2)) => Some(seq![text, source, i1, i2]),
        None => None,
    }
}

/// What the pattern for the state of the incremental merge `name` captures, if
/// it can be compiled.
pub open spec fn is_state_match(
    name: Seq<char>,
    text: Seq<char>,
    r: Result<Option<Seq<Seq<char>>>, Seq<char>>,
) -> bool {
    r matches Ok(g) ==> g == if text == state_refname(name) {
        Some(seq![text])
    } else {
        None
    }
}

/// Compiles `pattern` with `regex::Regex::new` and applies it to `text` with
/// `regex::Regex::captures`. The result depends on the two texts alone. The
/// documented meaning of the four patterns that the library uses is stated: the
/// name between the fixed parts of a state ref; the last row of dots in a range;
/// and, around a name that went through `regex::escape`, the parts of a cell's
/// ref and the one state ref. The two patterns without a name always compile.
#[verifier::external_body]
fn regex_captures(pattern: &str, text: &str) -> (r: Result<Option<Vec<String>>, String>)
    ensures
        groups_view(r) == regex_groups(pattern@, text@),
        pattern@ == NAME_PATTERN@ ==> is_name_match(text@, groups_view(r)),
        pattern@ == RANGE_PATTERN@ ==> is_range_match(text@, groups_view(r)),
        forall|name: Seq<char>|
            pattern@ == merge_pattern(#[trigger] escaped(name)) ==> is_cell_match(
                name,
                text@,
                groups_view(r),
            ),
        forall|name: Seq<char>|
            pattern@ == state_pattern(#[trigger] escaped(name)) ==> is_state_match(
                name,
                text@,
                groups_view(r),
            ),
{
    match regex::Regex::new(pattern) {
        Ok(re) => Ok(
            re.captures(text).map(
                |c| c.iter().map(|m| m.map_or(String::new(), |m| m.as_str().to_string())).collect(),
            ),
        ),
        Err(e) => Err(e.to_string()),
    }
}

/// `regex::escape`, which puts a backslash before each character of `s` that means
/// something in a pattern.
#[verifier::external_body]
fn regex_escape(s: &str) -> (r: String)
    ensures
        r@ == escaped(s@),
{
    regex::escape(s)
}

/// The name of the incremental merge whose state ref `refname` is.
pub fn imerge_name(refname: &str) -> (r: Option<String>)
    ensures
        r.deep_view() == name_in(refname@),
{
    match regex_captures(NAME_PATTERN, refname) {
        Ok(Some(g)) => {
            assert(g.deep_view().len() == 2);
            assert(g.deep_view()[1] == name_in(refname@)->0);
            Some(g[1].clone())
        },
        _ => None,
    }
}

/// The ref of one cell: its source and its coordinates, if they are small enough
/// for a grid.
pub struct CellRef {
    pub source: String,
    pub at: Option<(usize, usize)>,
}

/// The content of a [`CellRef`].
pub struct CellRefView {
    pub source: Seq<char>,
    pub at: Option<(usize, usize)>,
}

impl DeepView for CellRef {
    type V = CellRefView;

    open spec fn deep_view(&self) -> CellRefView {
        CellRefView { source: self.source@, at: self.at }
    }
}

/// The cell that the groups of a cell's ref stand for.
pub open spec fn cell_of(groups: Option<Seq<Seq<char>>>) -> Option<CellRefView> {
    match groups {
        Some(g) => Some(
            CellRefView {
                source: g[1],
                at: match (parsed(g[2], usize::MAX as nat), parsed(g[3], usize::MAX as nat)) {
                    (Some(i1), Some(i2)) => Some((i1 as usize, i2 as usize)),
                    _ => None,
                },
            },
        ),
        None => None,
    }
}

/// The cell of the incremental merge `name` that `refname` holds. A name for which
/// no pattern can be compiled is an error.
pub open spec fn cell_ref(name: Seq<char>, refname: Seq<char>) -> Result<
    Option<CellRefView>,
    ErrorView,
> {
    match regex_groups(merge_pattern(escaped(name)), refname) {
        Err(e) => Err(ErrorView::Failure(e)),
        Ok(_) => Ok(
            cell_of(
                match cell_in(name, refname) {
                    Some((source, i1, i2)) => Some(seq![refname, source, i1, i2]),
                    None => None,
                },
            ),
        ),
    }
}

/// Reads the cell out of captured groups.
pub fn cell_of_groups(groups: &Option<Vec<String>>) -> (r: Option<CellRef>)
    requires
        groups matches Some(g) ==> g.len() == 4,
    ensures
        r.deep_view() == cell_of(groups.deep_view()),
{
    match groups {
        None => None,
        Some(g) => {
            assert(g.deep_view()[1] == g@[1]@ && g.deep_view()[2] == g@[2]@ && g.deep_view()[3]
                == g@[3]@);
            let at = match (parse(&g[2], usize::MAX as u64), parse(&g[3], usize::MAX as u64)) {
                (Some(i1), Some(i2)) => Some((i1 as usize, i2 as usize)),
                _ => None,
            };
            Some(CellRef { source: g[1].clone(), at })
        },
    }
}

/// Reads the cell out of the name of a ref of the incremental merge `name`.
pub fn parse_cell_ref(name: &str, refname: &str) -> (r: Result<Option<CellRef>, ImergeError>)
    ensures
        crate::error::res(r) == cell_ref(name@, refname@),
{
    let pattern = cat3(
        "^refs/imerge/",
        &regex_escape(name),
        "/(?P<source>auto|manual)/(?P<i1>0|[1-9][0-9]*)-(?P<i2>0|[1-9][0-9]*)$",
    );
    match regex_captures(&pattern, refname) {
        Err(e) => Err(ImergeError::Failure(e)),
        Ok(groups) => {
            assert(pattern@ == merge_pattern(escaped(name@)));
            assert(groups matches Some(g) ==> g.deep_view().len() == 4);
            Ok(cell_of_groups(&groups))
        },
    }
}

/// Whether `refname` is the state ref of the incremental merge `name`. A name for
/// which no pattern can be compiled is an error.
pub open spec fn is_state_ref(name: Seq<char>, refname: Seq<char>) -> Result<bool, ErrorView> {
    match regex_groups(state_pattern(escaped(name)), refname) {
        Err(e) => Err(ErrorView::Failure(e)),
        Ok(_) => Ok(refname == state_refname(name)),
    }
}

/// Looks whether `refname` is the state ref of the incremental merge `name`.
pub fn check_state_ref(name: &str, refname: &str) -> (r: Result<bool, ImergeError>)
    ensures
        crate::error::res(r) == is_state_ref(name@, refname@),
{
    let pattern = cat3("^refs/imerge/", &regex_escape(name), "/state$");
    match regex_captures(&pattern, refname) {
        Err(e) => Err(ImergeError::Failure(e)),
        Ok(groups) => {
            assert(pattern@ == state_pattern(escaped(name@)));
            Ok(groups.is_some())
        },
    }
}

/// `text[a..b]` is the last gap in `text`.
pub open spec fn is_last_gap(text: Seq<char>, a: int, b: int) -> bool {
    is_gap(text, a, b) && forall|c: int, d: int| #[trigger] is_gap(text, c, d) ==> c <= a
}

/// The start, the dots and the end of a range of commits: the range is split at
/// its last gap.
pub open spec fn range_parts(range: Seq<char>) -> Option<(Seq<char>, Seq<char>, Seq<char>)> {
    if exists|a: int, b: int| is_gap(range, a, b) {
        let (a, b) = choose|a: int, b: int| is_last_gap(range, a, b);
        Some((range.take(a), range.subrange(a, b), range.skip(b)))
    } else {
        None
    }
}

/// A text has one last gap only.
proof fn lemma_last_gap(text: Seq<char>, a: int, b: int, c: int, d: int)
    requires
        is_last_gap(text, a, b),
        is_last_gap(text, c, d),
    ensures
        a == c,
        b == d,
{
    assert(is_gap(text, a, b) && is_gap(text, c, d));
    if b < d {
        assert(text[b] == '.');
    }
    if d < b {
        assert(text[d] == '.');
    }
}

/// Splits a range of commits into its start, the dots and its end.
pub fn split_range(range: &str) -> (r: Option<(String, String, String)>)
    ensures
        r.deep_view() == range_parts(range@),
{
    match regex_captures(RANGE_PATTERN, range) {
        Ok(Some(g)) => {
            proof {
                let (a, b) = choose|a: int, b: int|
                    #[trigger] is_gap(range@, a, b) && g.deep_view() == seq![
                        range@,
                        range@.take(a),
                        range@.subrange(a, b),
                        range@.skip(b),
                    ] && forall|c: int, d: int| #[trigger] is_gap(range@, c, d) ==> c <= a;
                let (c, d) = choose|a: int, b: int| is_last_gap(range@, a, b);
                assert(is_last_gap(range@, a, b));
                lemma_last_gap(range@, a, b, c, d);
                assert(g.deep_view().len() == 4);
                assert(g.deep_view()[1] == g@[1]@ && g.deep_view()[2] == g@[2]@ && g.deep_view()[3]
                    == g@[3]@);
            }
            Some((g[1].clone(), g[2].clone(), g[3].clone()))
        },
        _ => None,
    }
}

} // verus!
