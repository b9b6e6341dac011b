//! Where an incremental merge is kept: a state blob and one ref for each cell
//! that has a commit.
use vstd::prelude::*;

use crate::block::{MergeRecord, RecordView};
use crate::error::{error_text, failure, res, ErrorView, ImergeError};
use crate::git::Git;
use crate::pattern::{
    cell_ref, check_state_ref, imerge_name, is_state_ref, name_in, parse_cell_ref, state_refname,
};
use crate::state::{STATE_VERSION, StateDict, StateDictView};
use crate::talk::{
    lemma_grows, lemma_learns_nothing, Reply, ReplyView, Request, RequestView, Talk, Told,
};
use crate::text::{
    after_char, before_char, cat2, cat3, cat4, cat5, debug_form, decimal, join, joined, lines,
    lines_of, list3, list4, list5, number, parse, parsed, quoted, same, split_at_char, trim,
    trimmed, with,
};

verus! {

broadcast use lemma_grows, lemma_learns_nothing;

/// A ref: the object that it points to, the type of that object, and its name.
pub type RefView = (Seq<char>, Seq<char>, Seq<char>);

/// Cells with a commit: coordinates, commit and source of each.
pub type MergesView = Seq<((usize, usize), (Seq<char>, Seq<char>))>;

/// The ref in a line that holds its object, type and name.
pub open spec fn ref_in(line: Seq<char>) -> RefView {
    match after_char(line, ' ') {
        None => (line, ""@, ""@),
        Some(rest) => match after_char(rest, ' ') {
            None => (before_char(line, ' '), rest, ""@),
            Some(name) => (before_char(line, ' '), before_char(rest, ' '), name),
        },
    }
}

/// The refs in the lines that are not blank.
pub open spec fn refs_in(list: Seq<Seq<char>>) -> Seq<RefView>
    decreases list.len(),
{
    if list.len() == 0 {
        Seq::empty()
    } else if trimmed(list.last()).len() == 0 {
        refs_in(list.drop_last())
    } else {
        refs_in(list.drop_last()).push(ref_in(list.last()))
    }
}

/// The names of the incremental merges whose state blobs are among the refs.
pub open spec fn names_in(refs: Seq<RefView>) -> Seq<Seq<char>>
    decreases refs.len(),
{
    if refs.len() == 0 {
        Seq::empty()
    } else if refs.last().1 == "blob"@ && name_in(refs.last().2) is Some {
        names_in(refs.drop_last()).push(name_in(refs.last().2)->0)
    } else {
        names_in(refs.drop_last())
    }
}

/// One part of a version; anything but a number counts as 0.
pub open spec fn version_part(s: Seq<char>) -> u32 {
    match parsed(s, u32::MAX as nat) {
        Some(n) => n as u32,
        None => 0,
    }
}

/// Whether a state in this version of the format can be read: the same major
/// version, and no later minor version.
pub open spec fn is_compatible(version: Seq<char>) -> bool {
    match after_char(version, '.') {
        Some(rest) => version_part(before_char(version, '.')) == STATE_VERSION.0 && version_part(
            before_char(rest, '.'),
        ) <= STATE_VERSION.1,
        None => false,
    }
}

/// The place of the first entry for these coordinates from place `i` on, or the
/// end of the list.
pub open spec fn place_of(merges: MergesView, at: (usize, usize), i: nat) -> nat
    decreases merges.len() - i,
{
    if i >= merges.len() || merges[i as int].0 == at {
        i
    } else {
        place_of(merges, at, i + 1)
    }
}

/// Enters a cell. What was there before for the same coordinates is replaced.
pub open spec fn put(
    merges: MergesView,
    at: (usize, usize),
    value: (Seq<char>, Seq<char>),
) -> MergesView {
    let k = place_of(merges, at, 0);
    if k < merges.len() {
        merges.update(k as int, (at, value))
    } else {
        merges.push((at, value))
    }
}

/// No two entries are for the same cell.
pub open spec fn distinct(merges: MergesView) -> bool {
    forall|i: int, j: int|
        0 <= i < j < merges.len() ==> (#[trigger] merges[i]).0 != (#[trigger] merges[j]).0
}

/// What was found among the refs of an incremental merge.
#[verifier::ext_equal]
pub struct FoundView {
    pub state: Option<StateDictView>,
    pub merges: MergesView,
    pub unexpected: Seq<Seq<char>>,
}

/// What was found among the refs of an incremental merge.
struct Found {
    state: Option<StateDict>,
    merges: Vec<((usize, usize), (String, String))>,
    unexpected: Vec<String>,
}

impl Found {
    spec fn content(&self) -> FoundView {
        FoundView {
            state: self.state.deep_view(),
            merges: self.merges.deep_view(),
            unexpected: self.unexpected.deep_view(),
        }
    }
}

/// Lines that delete the refs of this list.
pub open spec fn delete_lines(refs: Seq<Seq<char>>) -> Seq<char>
    decreases refs.len(),
{
    if refs.len() == 0 {
        ""@
    } else {
        delete_lines(refs.drop_last()) + "delete "@ + refs.last() + "\n"@
    }
}

impl Talk {
    /// The refs below `pattern`.
    pub open spec fn for_each_ref(self, pattern: Seq<char>) -> Told<Seq<RefView>> {
        match self.run(
            seq![
                "for-each-ref"@,
                "--format=%(objectname) %(objecttype) %(refname)"@,
                pattern,
            ],
        ) {
            (g, Err(e)) => (g, Err(e)),
            (g, Ok(out)) => (g, Ok(refs_in(lines_of(out)))),
        }
    }

    /// See [`Git::iter_existing_imerge_names`].
    pub open spec fn iter_existing_imerge_names(self) -> Told<Seq<Seq<char>>> {
        match self.for_each_ref("refs/imerge"@) {
            (g, Err(e)) => (g, Err(e)),
            (g, Ok(refs)) => (g, Ok(names_in(refs))),
        }
    }

    /// See [`Git::verify_imerge_name_available`].
    pub open spec fn verify_imerge_name_available(self, name: Seq<char>) -> Told<()> {
        match self.check_imerge_name_format(name) {
            (g, Err(e)) => (g, Err(e)),
            (g, Ok(_)) => match g.for_each_ref("refs/imerge/"@ + name) {
                (g, Err(e)) => (g, Err(e)),
                (g, Ok(refs)) => (
                    g,
                    if refs.len() > 0 {
                        Err(ErrorView::Failure("Name '"@ + name + "' is already in use!"@))
                    } else {
                        Ok(())
                    },
                ),
            },
        }
    }

    /// See [`Git::check_imerge_exists`].
    pub open spec fn check_imerge_exists(self, name: Seq<char>) -> Told<bool> {
        match self.check_imerge_name_format(name) {
            (g, Err(e)) => (g, Err(e)),
            (g, Ok(_)) => match g.for_each_ref(state_refname(name)) {
                (g, Err(e)) => (g, Err(e)),
                (g, Ok(refs)) => if has_state(refs, name) {
                    match g.read_imerge_state_dict(name) {
                        (g, Err(e)) => (g, Err(e)),
                        (g, Ok(_)) => (g, Ok(true)),
                    }
                } else {
                    (g, Ok(false))
                },
            },
        }
    }

    /// The state in a JSON text.
    pub open spec fn decode_state(self, blob: Seq<char>) -> Told<StateDictView> {
        match self.ask(RequestView::DecodeState(blob)) {
            (g, Err(e)) => (g, Err(e)),
            (g, Ok(ReplyView::State(state))) => (g, Ok(state)),
            (g, Ok(ReplyView::Refused(e))) => (
                g,
                Err(ErrorView::Failure("could not parse imerge state: "@ + e)),
            ),
            (g, Ok(_)) => (g, Err(ErrorView::Failure("unexpected reply for a state"@))),
        }
    }

    /// The JSON text of a state.
    pub open spec fn encode_state(self, state: StateDictView) -> Told<Seq<char>> {
        match self.ask(RequestView::EncodeState(state)) {
            (g, Err(e)) => (g, Err(e)),
            (g, Ok(ReplyView::Text(json))) => (g, Ok(json)),
            (g, Ok(ReplyView::Refused(e))) => (g, Err(ErrorView::Failure(e))),
            (g, Ok(_)) => (g, Err(ErrorView::Failure("unexpected reply for a state"@))),
        }
    }

    /// See [`Git::read_imerge_state_dict`].
    pub open spec fn read_imerge_state_dict(self, name: Seq<char>) -> Told<StateDictView> {
        match self.run(seq!["cat-file"@, "blob"@, state_refname(name)]) {
            (g, Err(e)) => (g, Err(e)),
            (g, Ok(blob)) => match g.decode_state(blob) {
                (g, Err(e)) => (g, Err(e)),
                (g, Ok(state)) => (
                    g,
                    if is_compatible(state.version) {
                        Ok(state)
                    } else {
                        Err(
                            ErrorView::Failure(
                                "The format of imerge "@ + name + " ("@ + state.version
                                    + ") is not compatible with this script version."@,
                            ),
                        )
                    },
                ),
            },
        }
    }

    /// Adds one ref to what was found.
    pub open spec fn find(self, name: Seq<char>, r: RefView, found: FoundView) -> Told<
        FoundView,
    > {
        let (sha1, typ, refname) = r;
        match cell_ref(name, refname) {
            Err(e) => (self, Err(e)),
            Ok(Some(cell)) => (
                self,
                if typ != "commit"@ {
                    Err(
                        ErrorView::Failure(
                            "Reference "@ + debug_form(refname) + " is not a commit!"@,
                        ),
                    )
                } else {
                    match cell.at {
                        None => Err(
                            ErrorView::Failure(
                                "Reference "@ + debug_form(refname) + " is out of range!"@,
                            ),
                        ),
                        Some(at) => Ok(
                            FoundView {
                                merges: put(found.merges, at, (sha1, cell.source)),
                                ..found
                            },
                        ),
                    }
                },
            ),
            Ok(None) => match is_state_ref(name, refname) {
                Err(e) => (self, Err(e)),
                Ok(true) => if typ != "blob"@ {
                    (
                        self,
                        Err(
                            ErrorView::Failure(
                                "Reference "@ + debug_form(refname) + " is not a blob!"@,
                            ),
                        ),
                    )
                } else {
                    match self.read_imerge_state_dict(name) {
                        (g, Err(e)) => (g, Err(e)),
                        (g, Ok(state)) => (g, Ok(FoundView { state: Some(state), ..found })),
                    }
                },
                Ok(false) => (
                    self,
                    Ok(FoundView { unexpected: found.unexpected.push(refname), ..found }),
                ),
            },
        }
    }

    /// Adds the refs from place `i` on to what was found.
    pub open spec fn find_all(
        self,
        name: Seq<char>,
        refs: Seq<RefView>,
        i: nat,
        found: FoundView,
    ) -> Told<FoundView>
        decreases refs.len() - i,
    {
        if i >= refs.len() {
            (self, Ok(found))
        } else {
            match self.find(name, refs[i as int], found) {
                (g, Err(e)) => (g, Err(e)),
                (g, Ok(more)) => g.find_all(name, refs, i + 1, more),
            }
        }
    }

    /// See [`Git::read_imerge_state`].
    pub open spec fn read_imerge_state(self, name: Seq<char>) -> Told<
        (StateDictView, MergesView),
    > {
        match self.for_each_ref("refs/imerge/"@ + name) {
            (g, Err(e)) => (g, Err(e)),
            (g, Ok(refs)) => match g.find_all(name, refs, 0, nothing_found()) {
                (g, Err(e)) => (g, Err(e)),
                (g, Ok(found)) => (g, checked_find(name, found)),
            },
        }
    }

    /// See [`Git::write_imerge_state_dict`].
    pub open spec fn write_imerge_state_dict(self, name: Seq<char>, state: StateDictView) -> Told<
        (),
    > {
        match self.encode_state(state) {
            (g, Err(e)) => (g, Err(e)),
            (g, Ok(json)) => match g.run_stdin(
                seq!["hash-object"@, "-t"@, "blob"@, "-w"@, "--stdin"@],
                json + "\n"@,
            ) {
                (g, Err(e)) => (g, Err(e)),
                (g, Ok(sha1)) => match g.run(
                    seq![
                        "update-ref"@,
                        "-m"@,
                        "imerge '"@ + name + "': Record state"@,
                        state_refname(name),
                        sha1,
                    ],
                ) {
                    (g, Err(e)) => (g, Err(e)),
                    (g, Ok(_)) => (g, Ok(())),
                },
            },
        }
    }

    /// See [`Git::delete_imerge_refs`].
    pub open spec fn delete_imerge_refs(self, name: Seq<char>) -> Told<()> {
        match self.run(
            seq!["for-each-ref"@, "--format=%(refname)"@, "refs/imerge/"@ + name],
        ) {
            (g, Err(e)) => (g, Err(e)),
            (g, Ok(out)) => if lines_of(out).len() == 0 {
                (g, Ok(()))
            } else {
                match g.run_stdin(
                    seq![
                        "update-ref"@,
                        "-m"@,
                        "imerge: remove merge '"@ + name + "'"@,
                        "--stdin"@,
                    ],
                    delete_lines(lines_of(out)),
                ) {
                    (g, Err(ErrorView::Suspended)) => (g, Err(ErrorView::Suspended)),
                    (g, Err(e)) => (
                        g.note("Warning: error removing references:\n"@ + error_text(e)),
                        Ok(()),
                    ),
                    (g, Ok(_)) => (g, Ok(())),
                }
            },
        }
    }
}

/// Whether the state blob of the incremental merge `name` is among the refs.
pub open spec fn has_state(refs: Seq<RefView>, name: Seq<char>) -> bool {
    exists|i: int|
        0 <= i < refs.len() && (#[trigger] refs[i]).2 == state_refname(name) && refs[i].1
            == "blob"@
}

/// Before the first ref has been looked at.
pub open spec fn nothing_found() -> FoundView {
    FoundView { state: None, merges: Seq::empty(), unexpected: Seq::empty() }
}

/// State and cells, if the state was found and nothing else was.
pub open spec fn checked_find(name: Seq<char>, found: FoundView) -> Result<
    (StateDictView, MergesView),
    ErrorView,
> {
    match found.state {
        None => Err(
            ErrorView::Failure(
                "No state found; it should have been a blob reference at \"refs/imerge/"@ + name
                    + "/state\""@,
            ),
        ),
        Some(state) => if found.unexpected.len() > 0 {
            Err(
                ErrorView::Failure(
                    "Unexpected reference(s) found in \"refs/imerge/"@ + name
                        + "\" namespace:\n    "@ + joined(found.unexpected, "\n    "@) + "\n"@,
                ),
            )
        } else {
            Ok((state, found.merges))
        },
    }
}

/// Reads a ref out of its line.
fn ref_of_line(line: &str) -> (r: (String, String, String))
    ensures
        r.deep_view() == ref_in(line@),
{
    let (sha1, rest) = split_at_char(line, ' ');
    match rest {
        None => {
            assert(line@.take(line@.len() as int) =~= line@);
            proof {
                lemma_until_bound(line@, ' ');
            }
            (sha1, "".to_owned(), "".to_owned())
        },
        Some(rest) => {
            let (typ, name) = split_at_char(&rest, ' ');
            match name {
                None => {
                    assert(rest@.take(rest@.len() as int) =~= rest@);
                    proof {
                        lemma_until_bound(rest@, ' ');
                    }
                    (sha1, typ, "".to_owned())
                },
                Some(name) => (sha1, typ, name),
            }
        },
    }
}

proof fn lemma_until_bound(s: Seq<char>, c: char)
    ensures
        crate::text::until(s, c) <= s.len(),
    decreases s.len(),
{
    if s.len() > 0 && s[0] != c {
        lemma_until_bound(s.skip(1), c);
    }
}

/// One part of a version.
fn part_of_version(s: &str) -> (r: u32)
    ensures
        r == version_part(s@),
{
    match parse(s, u32::MAX as u64) {
        Some(n) => n as u32,
        None => 0,
    }
}

/// Whether a state in this version of the format can be read.
pub fn compatible(version: &str) -> (r: bool)
    ensures
        r == is_compatible(version@),
{
    let (major, rest) = split_at_char(version, '.');
    match rest {
        None => false,
        Some(rest) => {
            let (minor, _) = split_at_char(&rest, '.');
            part_of_version(&major) == STATE_VERSION.0 && part_of_version(&minor)
                <= STATE_VERSION.1
        },
    }
}

pub(crate) proof fn lemma_place(merges: MergesView, at: (usize, usize), i: nat)
    requires
        i <= merges.len(),
    ensures
        i <= place_of(merges, at, i) <= merges.len(),
        place_of(merges, at, i) < merges.len() ==> merges[place_of(merges, at, i) as int].0 == at,
        forall|k: int| i <= k < place_of(merges, at, i) ==> (#[trigger] merges[k]).0 != at,
    decreases merges.len() - i,
{
    if i < merges.len() && merges[i as int].0 != at {
        lemma_place(merges, at, i + 1);
    }
}

/// Entering a cell keeps the entries distinct.
pub proof fn law_put_keeps_distinct(
    merges: MergesView,
    at: (usize, usize),
    value: (Seq<char>, Seq<char>),
)
    requires
        distinct(merges),
    ensures
        distinct(put(merges, at, value)),
        put(merges, at, value).contains((at, value)),
        forall|k: int|
            0 <= k < merges.len() && (#[trigger] merges[k]).0 != at ==> put(
                merges,
                at,
                value,
            )[k] == merges[k],
{
    lemma_place(merges, at, 0);
    let k = place_of(merges, at, 0);
    let after = put(merges, at, value);
    assert(after[k as int] == (at, value));
    assert forall|i: int, j: int| 0 <= i < j < after.len() implies (#[trigger] after[i]).0 != (
    #[trigger] after[j]).0 by {
        if i < merges.len() && j < merges.len() {
            assert(merges[i].0 != merges[j].0);
        }
    }
}

/// Enters a cell into a list.
fn enter(
    merges: &mut Vec<((usize, usize), (String, String))>,
    at: (usize, usize),
    sha1: String,
    source: String,
)
    ensures
        final(merges).deep_view() == put(old(merges).deep_view(), at, (sha1@, source@)),
{
    let ghost all = merges.deep_view();
    let mut i: usize = 0;
    while i < merges.len() && !(merges[i].0.0 == at.0 && merges[i].0.1 == at.1)
        invariant
            i <= merges.len(),
            all == merges.deep_view(),
            place_of(all, at, 0) == place_of(all, at, i as nat),
        decreases merges.len() - i,
    {
        assert(all[i as int] == merges[i as int].deep_view());
        i += 1;
    }
    if i < merges.len() {
        assert(all[i as int] == merges[i as int].deep_view());
        merges.set(i, (at, (sha1, source)));
    } else {
        merges.push((at, (sha1, source)));
    }
    assert(merges.deep_view() =~= put(all, at, (sha1@, source@)));
}

/// Lines that delete the refs of this list.
fn lines_to_delete(refs: &Vec<String>) -> (r: String)
    ensures
        r@ == delete_lines(refs.deep_view()),
{
    let ghost all = refs.deep_view();
    let mut r = "".to_owned();
    let mut i: usize = 0;
    while i < refs.len()
        invariant
            i <= refs.len(),
            all == refs.deep_view(),
            r@ == delete_lines(all.take(i as int)),
        decreases refs.len() - i,
    {
        assert(all[i as int] == refs[i as int]@);
        assert(all.take(i + 1).drop_last() =~= all.take(i as int));
        r = cat4(&r, "delete ", &refs[i], "\n");
        i += 1;
    }
    assert(all.take(i as int) =~= all);
    r
}

impl Git {
    fn for_each_ref(&mut self, pattern: &str) -> (r: Result<
        Vec<(String, String, String)>,
        ImergeError,
    >)
        ensures
            (final(self)@, res(r)) == old(self)@.for_each_ref(pattern@),
            old(self)@.grows_to(final(self)@),
    {
        let out = self.run(
            list3("for-each-ref", "--format=%(objectname) %(objecttype) %(refname)", pattern),
        )?;
        let list = lines(&out);
        let ghost all = list.deep_view();
        let mut r: Vec<(String, String, String)> = Vec::new();
        let mut i: usize = 0;
        assert(r.deep_view() =~= refs_in(all.take(0)));
        while i < list.len()
            invariant
                i <= list.len(),
                all == list.deep_view(),
                r.deep_view() == refs_in(all.take(i as int)),
            decreases list.len() - i,
        {
            let ghost before = r.deep_view();
            assert(all[i as int] == list[i as int]@);
            assert(all.take(i + 1).drop_last() =~= all.take(i as int));
            if trim(&list[i]).unicode_len() > 0 {
                let entry = ref_of_line(&list[i]);
                let ghost v = entry.deep_view();
                r.push(entry);
                assert(r.deep_view() =~= before.push(v));
            }
            i += 1;
        }
        assert(all.take(i as int) =~= all);
        Ok(r)
    }

    /// The names of all incremental merges in the repository.
    pub fn iter_existing_imerge_names(&mut self) -> (r: Result<Vec<String>, ImergeError>)
        ensures
            (final(self)@, res(r)) == old(self)@.iter_existing_imerge_names(),
            old(self)@.grows_to(final(self)@),
    {
        let refs = self.for_each_ref("refs/imerge")?;
        let ghost all = refs.deep_view();
        let mut names: Vec<String> = Vec::new();
        let mut i: usize = 0;
        assert(names.deep_view() =~= names_in(all.take(0)));
        while i < refs.len()
            invariant
                i <= refs.len(),
                all == refs.deep_view(),
                names.deep_view() == names_in(all.take(i as int)),
            decreases refs.len() - i,
        {
            let ghost before = names.deep_view();
            assert(all[i as int] == refs[i as int].deep_view());
            assert(all.take(i + 1).drop_last() =~= all.take(i as int));
            if same(&refs[i].1, "blob") {
                if let Some(name) = imerge_name(&refs[i].2) {
                    names.push(name);
                    assert(names.deep_view() =~= before.push(name@));
                }
            }
            i += 1;
        }
        assert(all.take(i as int) =~= all);
        Ok(names)
    }

    /// Fails unless `name` can name a new incremental merge.
    pub fn verify_imerge_name_available(&mut self, name: &str) -> (r: Result<(), ImergeError>)
        ensures
            (final(self)@, res(r)) == old(self)@.verify_imerge_name_available(name@),
            old(self)@.grows_to(final(self)@),
    {
        self.check_imerge_name_format(name)?;
        let refs = self.for_each_ref(&cat2("refs/imerge/", name))?;
        if refs.len() > 0 {
            return failure(&cat3("Name '", name, "' is already in use!"));
        }
        Ok(())
    }

    /// Whether there is an incremental merge `name`. Fails if there is one that
    /// cannot be read.
    pub fn check_imerge_exists(&mut self, name: &str) -> (r: Result<bool, ImergeError>)
        ensures
            (final(self)@, res(r)) == old(self)@.check_imerge_exists(name@),
            old(self)@.grows_to(final(self)@),
    {
        self.check_imerge_name_format(name)?;
        let refname = cat3("refs/imerge/", name, "/state");
        let refs = self.for_each_ref(&refname)?;
        let ghost all = refs.deep_view();
        let mut found = false;
        let mut i: usize = 0;
        while i < refs.len() && !found
            invariant
                i <= refs.len(),
                all == refs.deep_view(),
                refname@ == state_refname(name@),
                found ==> has_state(all, name@),
                !found ==> forall|k: int|
                    0 <= k < i ==> !((#[trigger] all[k]).2 == state_refname(name@) && all[k].1
                        == "blob"@),
            decreases refs.len() - i,
        {
            assert(all[i as int] == refs[i as int].deep_view());
            if same(&refs[i].2, &refname) && same(&refs[i].1, "blob") {
                found = true;
            }
            i += 1;
        }
        if found {
            self.read_imerge_state_dict(name)?;
        }
        Ok(found)
    }

    fn decode_state(&mut self, blob: String) -> (r: Result<StateDict, ImergeError>)
        ensures
            (final(self)@, res(r)) == old(self)@.decode_state(blob@),
            old(self)@.grows_to(final(self)@),
    {
        match self.ask(Request::DecodeState(blob))? {
            Reply::State(state) => Ok(state),
            Reply::Refused(e) => failure(&cat2("could not parse imerge state: ", &e)),
            _ => failure("unexpected reply for a state"),
        }
    }

    fn encode_state(&mut self, state: StateDict) -> (r: Result<String, ImergeError>)
        ensures
            (final(self)@, res(r)) == old(self)@.encode_state(state.deep_view()),
            old(self)@.grows_to(final(self)@),
            r is Ok ==> final(self)@.remaining() < old(self)@.remaining(),
    {
        match self.ask(Request::EncodeState(state))? {
            Reply::Text(json) => Ok(json),
            Reply::Refused(e) => Err(ImergeError::Failure(e)),
            _ => failure("unexpected reply for a state"),
        }
    }

    /// Reads the state of the incremental merge `name`, without its commits.
    pub fn read_imerge_state_dict(&mut self, name: &str) -> (r: Result<StateDict, ImergeError>)
        ensures
            (final(self)@, res(r)) == old(self)@.read_imerge_state_dict(name@),
            old(self)@.grows_to(final(self)@),
    {
        let refname = cat3("refs/imerge/", name, "/state");
        let blob = self.run(list3("cat-file", "blob", &refname))?;
        let state = self.decode_state(blob)?;
        if compatible(&state.version) {
            Ok(state)
        } else {
            failure(
                &cat5(
                    "The format of imerge ",
                    name,
                    " (",
                    &state.version,
                    ") is not compatible with this script version.",
                ),
            )
        }
    }

    fn find(&mut self, name: &str, entry: &(String, String, String), found: &mut Found) -> (r:
        Result<(), ImergeError>)
        ensures
            (
                final(self)@,
                match r {
                    Ok(_) => Ok(final(found).content()),
                    Err(e) => Err(e.deep_view()),
                },
            ) == old(self)@.find(name@, entry.deep_view(), old(found).content()),
            old(self)@.grows_to(final(self)@),
    {
        let refname = &entry.2;
        let ghost before = found.content();
        if let Some(cell) = parse_cell_ref(name, refname)? {
            if !same(&entry.1, "commit") {
                return failure(&cat3("Reference ", &quoted(refname), " is not a commit!"));
            }
            match cell.at {
                None => failure(&cat3("Reference ", &quoted(refname), " is out of range!")),
                Some(at) => {
                    enter(&mut found.merges, at, entry.0.clone(), cell.source);
                    Ok(())
                },
            }
        } else if check_state_ref(name, refname)? {
            if !same(&entry.1, "blob") {
                return failure(&cat3("Reference ", &quoted(refname), " is not a blob!"));
            }
            found.state = Some(self.read_imerge_state_dict(name)?);
            Ok(())
        } else {
            found.unexpected.push(refname.clone());
            assert(found.unexpected.deep_view() =~= before.unexpected.push(refname@));
            Ok(())
        }
    }

    /// Reads the incremental merge `name`: its state, and commit and source of
    /// every cell that has a commit.
    pub fn read_imerge_state(&mut self, name: &str) -> (r: Result<
        (StateDict, Vec<((usize, usize), (String, String))>),
        ImergeError,
    >)
        ensures
            (final(self)@, res(r)) == old(self)@.read_imerge_state(name@),
            old(self)@.grows_to(final(self)@),
            r matches Ok(p) ==> distinct(p.1.deep_view()),
    {
        let refs = self.for_each_ref(&cat2("refs/imerge/", name))?;
        let ghost all = refs.deep_view();
        let ghost start = self@;
        let mut found = Found { state: None, merges: Vec::new(), unexpected: Vec::new() };
        assert(found.content() =~= nothing_found());
        let mut i: usize = 0;
        while i < refs.len()
            invariant
                i <= refs.len(),
                all == refs.deep_view(),
                distinct(found.merges.deep_view()),
                old(self)@.read_imerge_state(name@) == match start.find_all(
                    name@,
                    all,
                    0,
                    nothing_found(),
                ) {
                    (g, Err(e)) => (g, Err(e)),
                    (g, Ok(f)) => (g, checked_find(name@, f)),
                },
                start.find_all(name@, all, 0, nothing_found()) == self@.find_all(
                    name@,
                    all,
                    i as nat,
                    found.content(),
                ),
                old(self)@.grows_to(self@),
            decreases refs.len() - i,
        {
            assert(all[i as int] == refs[i as int].deep_view());
            proof {
                lemma_find_keeps_distinct(self@, name@, all[i as int], found.content());
            }
            self.find(name, &refs[i], &mut found)?;
            i += 1;
        }
        let Found { state, merges, unexpected } = found;
        match state {
            None => failure(
                &cat3(
                    "No state found; it should have been a blob reference at \"refs/imerge/",
                    name,
                    "/state\"",
                ),
            ),
            Some(state) => if unexpected.len() > 0 {
                let shown = join(&unexpected, "\n    ");
                failure(
                    &cat5(
                        "Unexpected reference(s) found in \"refs/imerge/",
                        name,
                        "\" namespace:\n    ",
                        &shown,
                        "\n",
                    ),
                )
            } else {
                Ok((state, merges))
            },
        }
    }

    /// Stores the state of the incremental merge `name`.
    pub fn write_imerge_state_dict(&mut self, name: &str, state: StateDict) -> (r: Result<
        (),
        ImergeError,
    >)
        ensures
            (final(self)@, res(r)) == old(self)@.write_imerge_state_dict(name@, state.deep_view()),
            old(self)@.grows_to(final(self)@),
            r is Ok ==> final(self)@.remaining() < old(self)@.remaining(),
    {
        let json = cat2(&self.encode_state(state)?, "\n");
        let sha1 = self.run_stdin(
            list5("hash-object", "-t", "blob", "-w", "--stdin"),
            &json,
        )?;
        let msg = cat3("imerge '", name, "': Record state");
        let refname = cat3("refs/imerge/", name, "/state");
        self.run(list5("update-ref", "-m", &msg, &refname, &sha1))?;
        Ok(())
    }

    /// Deletes all refs of the incremental merge `name`. Where that fails, the
    /// user is warned.
    pub fn delete_imerge_refs(&mut self, name: &str) -> (r: Result<(), ImergeError>)
        ensures
            (final(self)@, res(r)) == old(self)@.delete_imerge_refs(name@),
            old(self)@.grows_to(final(self)@),
    {
        let below = cat2("refs/imerge/", name);
        let out = self.run(list3("for-each-ref", "--format=%(refname)", &below))?;
        let refs = lines(&out);
        if refs.len() == 0 {
            return Ok(());
        }
        let msg = cat3("imerge: remove merge '", name, "'");
        match self.run_stdin(
            list4("update-ref", "-m", &msg, "--stdin"),
            &lines_to_delete(&refs),
        ) {
            Ok(_) => Ok(()),
            Err(ImergeError::Suspended) => Err(ImergeError::Suspended),
            Err(e) => {
                self.note(&cat2("Warning: error removing references:\n", &e.message()));
                Ok(())
            },
        }
    }
}

/// The ref for one cell from one source.
pub open spec fn cell_refname(name: Seq<char>, source: Seq<char>, i1: usize, i2: usize) -> Seq<
    char,
> {
    "refs/imerge/"@ + name + "/"@ + source + "/"@ + decimal(i1 as nat) + "-"@ + decimal(
        i2 as nat,
    )
}

/// A cell that is being saved: the exchange, the cell as it is then, and whether
/// it went well.
pub type Saved = (Talk, RecordView, Result<(), ErrorView>);

impl Talk {
    /// Points the ref for a cell to its commit.
    pub open spec fn set_cell_ref(
        self,
        name: Seq<char>,
        source: Seq<char>,
        i1: usize,
        i2: usize,
        sha1: Seq<char>,
    ) -> Told<()> {
        self.update_ref(
            cell_refname(name, source, i1, i2),
            sha1,
            "imerge '"@ + name + "': Record "@ + source + " merge"@,
            true,
        )
    }

    /// Deletes the ref for a cell.
    pub open spec fn clear_cell_ref(
        self,
        name: Seq<char>,
        source: Seq<char>,
        i1: usize,
        i2: usize,
    ) -> Told<()> {
        self.delete_ref(
            cell_refname(name, source, i1, i2),
            "imerge '"@ + name + "': Remove obsolete "@ + source + " merge"@,
        )
    }

    /// Forgets the automatic merge of a cell that has a manual one.
    pub open spec fn drop_auto(self, r: RecordView, name: Seq<char>, i1: usize, i2: usize) -> Saved {
        let dropped = RecordView { flags: r.flags & 0xfc, ..r };
        if r.flags & 0x03 == 0 {
            (self, r, Ok(()))
        } else if r.flags & 0x01 == 0 {
            (self, dropped, Ok(()))
        } else {
            match self.clear_cell_ref(name, "auto"@, i1, i2) {
                (g, Err(e)) => (g, r, Err(e)),
                (g, Ok(_)) => (g, dropped, Ok(())),
            }
        }
    }

    /// Writes what is new from a source to its ref. `saved` and `fresh` are the
    /// source's two bits.
    pub open spec fn keep_new(
        self,
        r: RecordView,
        name: Seq<char>,
        source: Seq<char>,
        i1: usize,
        i2: usize,
        saved: u8,
        fresh: u8,
    ) -> Saved {
        let kept = RecordView { flags: (r.flags | saved) & !fresh, ..r };
        let gone = RecordView { flags: (r.flags & !saved) & !fresh, ..r };
        if r.flags & fresh == 0 {
            (self, r, Ok(()))
        } else {
            match r.sha1 {
                Some(sha1) => match self.set_cell_ref(name, source, i1, i2, sha1) {
                    (g, Err(e)) => (g, r, Err(e)),
                    (g, Ok(_)) => (g, kept, Ok(())),
                },
                None => if r.flags & saved == 0 {
                    (self, gone, Ok(()))
                } else {
                    match self.clear_cell_ref(name, source, i1, i2) {
                        (g, Err(e)) => (g, r, Err(e)),
                        (g, Ok(_)) => (g, gone, Ok(())),
                    }
                },
            }
        }
    }

    /// See [`MergeRecord::save`].
    pub open spec fn save_cell(self, r: RecordView, name: Seq<char>, i1: usize, i2: usize) -> Saved {
        if r.manual() {
            match self.drop_auto(r, name, i1, i2) {
                (g, r, Err(e)) => (g, r, Err(e)),
                (g, r, Ok(_)) => g.keep_new(
                    r,
                    name,
                    "manual"@,
                    i1,
                    i2,
                    MergeRecord::SAVED_MANUAL,
                    MergeRecord::NEW_MANUAL,
                ),
            }
        } else {
            self.keep_new(
                r,
                name,
                "auto"@,
                i1,
                i2,
                MergeRecord::SAVED_AUTO,
                MergeRecord::NEW_AUTO,
            )
        }
    }
}

impl MergeRecord {
    fn set_ref(
        git: &mut Git,
        name: &str,
        source: &str,
        i1: usize,
        i2: usize,
        sha1: &str,
    ) -> (r: Result<(), ImergeError>)
        ensures
            (final(git)@, res(r)) == old(git)@.set_cell_ref(name@, source@, i1, i2, sha1@),
            old(git)@.grows_to(final(git)@),
    {
        let refname = cell_ref_name(name, source, i1, i2);
        let msg = cat5("imerge '", name, "': Record ", source, " merge");
        git.update_ref(&refname, sha1, &msg, true)
    }

    fn clear_ref(git: &mut Git, name: &str, source: &str, i1: usize, i2: usize) -> (r: Result<
        (),
        ImergeError,
    >)
        ensures
            (final(git)@, res(r)) == old(git)@.clear_cell_ref(name@, source@, i1, i2),
            old(git)@.grows_to(final(git)@),
    {
        let refname = cell_ref_name(name, source, i1, i2);
        let msg = cat5("imerge '", name, "': Remove obsolete ", source, " merge");
        git.delete_ref(&refname, &msg)
    }

    fn keep_new(
        &mut self,
        git: &mut Git,
        name: &str,
        source: &str,
        i1: usize,
        i2: usize,
        saved: u8,
        fresh: u8,
    ) -> (r: Result<(), ImergeError>)
        ensures
            (final(git)@, final(self).deep_view(), res(r)) == old(git)@.keep_new(
                old(self).deep_view(),
                name@,
                source@,
                i1,
                i2,
                saved,
                fresh,
            ),
            old(git)@.grows_to(final(git)@),
    {
        if self.flags & fresh == 0 {
            return Ok(());
        }
        if let Some(sha1) = &self.sha1 {
            Self::set_ref(git, name, source, i1, i2, sha1)?;
            self.flags = self.flags | saved;
        } else {
            if self.flags & saved != 0 {
                Self::clear_ref(git, name, source, i1, i2)?;
            }
            self.flags = self.flags & !saved;
        }
        self.flags = self.flags & !fresh;
        Ok(())
    }

    /// Writes what is not saved yet to the refs of the cell `(i1, i2)`, and
    /// deletes the ref of an automatic merge that a manual one replaced.
    pub fn save(&mut self, git: &mut Git, name: &str, i1: usize, i2: usize) -> (r: Result<
        (),
        ImergeError,
    >)
        ensures
            (final(git)@, final(self).deep_view(), res(r)) == old(git)@.save_cell(
                old(self).deep_view(),
                name@,
                i1,
                i2,
            ),
            old(git)@.grows_to(final(git)@),
    {
        if self.flags & Self::MANUAL != 0 {
            if self.flags & Self::AUTO != 0 {
                if self.flags & Self::SAVED_AUTO != 0 {
                    Self::clear_ref(git, name, "auto", i1, i2)?;
                }
                self.flags = self.flags & 0xfc;
            }
            self.keep_new(git, name, "manual", i1, i2, Self::SAVED_MANUAL, Self::NEW_MANUAL)
        } else {
            self.keep_new(git, name, "auto", i1, i2, Self::SAVED_AUTO, Self::NEW_AUTO)
        }
    }
}

/// The ref for one cell from one source.
fn cell_ref_name(name: &str, source: &str, i1: usize, i2: usize) -> (r: String)
    ensures
        r@ == cell_refname(name@, source@, i1, i2),
{
    let head = cat5("refs/imerge/", name, "/", source, "/");
    cat4(&head, &number(i1), "-", &number(i2))
}

/// Saving a cell changes neither its merge result nor its mark, leaves nothing
/// new behind, and keeps it consistent. A consistent cell stays manual or
/// automatic as it was; nothing automatic is left of a manual one.
pub proof fn law_save_keeps_the_cell(
    g: Talk,
    r: RecordView,
    name: Seq<char>,
    i1: usize,
    i2: usize,
)
    ensures
        g.save_cell(r, name, i1, i2).1.sha1 == r.sha1,
        g.save_cell(r, name, i1, i2).1.blocked() == r.blocked(),
        r.consistent() ==> g.save_cell(r, name, i1, i2).1.consistent(),
        r.consistent() ==> g.save_cell(r, name, i1, i2).1.manual() == r.manual(),
        g.save_cell(r, name, i1, i2).2 is Ok ==> g.save_cell(r, name, i1, i2).1.flags
            & MergeRecord::NEW == 0,
        g.save_cell(r, name, i1, i2).2 is Ok && r.manual() ==> g.save_cell(r, name, i1, i2).1.flags
            & MergeRecord::AUTO == 0,
{
    let f = r.flags;
    lemma_bits(f);
    lemma_bits(f & 0xfc);
}

/// How the bits of a cell change when it is saved.
proof fn lemma_bits(x: u8)
    ensures
        (x & 0xfc) & 0x10 == x & 0x10,
        (x & 0xfc) & 0x0c == x & 0x0c,
        (x & 0xfc) & 0x03 == 0,
        x & 0x0c != 0 ==> x & 0x0f != 0,
        x & 0x03 == 0 && x & 0x08 == 0 ==> x & 0x0a == 0,
        x & 0x0c == 0 && x & 0x02 == 0 ==> x & 0x0a == 0,
        x & 0x0a == 0 ==> x & 0x08 == 0 && x & 0x02 == 0,
        ((x | 4) & !8u8) & 0x10 == x & 0x10,
        ((x | 4) & !8u8) & 0x0c != 0,
        ((x | 4) & !8u8) & 0x0f != 0,
        ((x | 4) & !8u8) & 0x03 == x & 0x03,
        x & 0x03 == 0 ==> ((x | 4) & !8u8) & 0x0a == 0,
        ((x & !4u8) & !8u8) & 0x10 == x & 0x10,
        ((x & !4u8) & !8u8) & 0x03 == x & 0x03,
        x & 0x03 == 0 ==> ((x & !4u8) & !8u8) & 0x0a == 0,
        ((x | 1) & !2u8) & 0x10 == x & 0x10,
        ((x | 1) & !2u8) & 0x0c == x & 0x0c,
        ((x | 1) & !2u8) & 0x0f != 0,
        x & 0x0c == 0 ==> ((x | 1) & !2u8) & 0x0a == 0,
        ((x & !1u8) & !2u8) & 0x10 == x & 0x10,
        x & 0x0c == 0 ==> ((x & !1u8) & !2u8) & 0x0a == 0,
        x & 0x02 != 0 ==> x & 0x0f != 0,
{
    assert((x & 0xfc) & 0x10 == x & 0x10 && (x & 0xfc) & 0x0c == x & 0x0c && (x & 0xfc) & 0x03 == 0
        && (x & 0x0c != 0 ==> x & 0x0f != 0) && (x & 0x03 == 0 && x & 0x08 == 0 ==> x & 0x0a == 0)
        && (x & 0x0c == 0 && x & 0x02 == 0 ==> x & 0x0a == 0) && (x & 0x0a == 0 ==> x & 0x08 == 0
        && x & 0x02 == 0) && (x & 0x02 != 0 ==> x & 0x0f != 0)) by (bit_vector);
    assert(((x | 4) & !8u8) & 0x10 == x & 0x10 && ((x | 4) & !8u8) & 0x0c != 0 && ((x | 4) & !8u8)
        & 0x0f != 0 && ((x | 4) & !8u8) & 0x03 == x & 0x03 && (x & 0x03 == 0 ==> ((x | 4) & !8u8)
        & 0x0a == 0) && ((x & !4u8) & !8u8) & 0x10 == x & 0x10 && ((x & !4u8) & !8u8) & 0x03 == x
        & 0x03 && (x & 0x03 == 0 ==> ((x & !4u8) & !8u8) & 0x0a == 0)) by (bit_vector);
    assert(((x | 1) & !2u8) & 0x10 == x & 0x10 && ((x | 1) & !2u8) & 0x0c == x & 0x0c && ((x | 1)
        & !2u8) & 0x0f != 0 && (x & 0x0c == 0 ==> ((x | 1) & !2u8) & 0x0a == 0) && ((x & !1u8)
        & !2u8) & 0x10 == x & 0x10 && (x & 0x0c == 0 ==> ((x & !1u8) & !2u8) & 0x0a == 0))
        by (bit_vector);
}

/// Once a cell is saved, saving it again asks for nothing and changes nothing.
pub proof fn law_save_is_idempotent(
    g: Talk,
    again: Talk,
    r: RecordView,
    name: Seq<char>,
    i1: usize,
    i2: usize,
)
    requires
        r.consistent(),
        g.save_cell(r, name, i1, i2).2 is Ok,
    ensures
        again.save_cell(g.save_cell(r, name, i1, i2).1, name, i1, i2) == (
            again,
            g.save_cell(r, name, i1, i2).1,
            Ok::<(), ErrorView>(()),
        ),
{
    law_save_keeps_the_cell(g, r, name, i1, i2);
    lemma_bits(g.save_cell(r, name, i1, i2).1.flags);
}

proof fn lemma_find_keeps_distinct(g: Talk, name: Seq<char>, r: RefView, found: FoundView)
    requires
        distinct(found.merges),
    ensures
        g.find(name, r, found).1 matches Ok(more) ==> distinct(more.merges),
{
    if let Ok(Some(cell)) = cell_ref(name, r.2) {
        if let Some(at) = cell.at {
            law_put_keeps_distinct(found.merges, at, (r.0, cell.source));
        }
    }
}

} // verus!
