//! The navigation engine: a forward-only cursor over the buffer and a
//! stack of currently-open tags.

use vstd::prelude::*;
use vstd::string::StringSliceAdditionalSpecFns;
use vstd::utf8::encode_utf8;
use vstd::utf8::valid_utf8;

use crate::errors::{err_matches, ErrSpec, XmlError};
use crate::my_xml_node::MyXmlNode;
use crate::text::{bytes_eq, bytes_to_str};
use crate::xml_tag_info::{kind_at, name_bytes_at, raw_of, TagModel, XmlTagInfo, XmlTagType};
use crate::xml_utils::{
    find_from, find_next_token, init_pos_start, lemma_find_from_bounds, lemma_split_from_len,
    path_segments, spec_start_pos, split_from,
};
use crate::CLOSE_TAG_TOKEN;
use crate::OPEN_TAG_TOKEN;
use crate::SLASH_TOKEN;

verus! {

/// One currently-open element: its name, owned independently of the
/// buffer, and the offsets of its opening tag.
#[derive(Debug)]
pub struct OpenedNode {
    pub name: String,
    pub start_pos: usize,
    pub end_pos: usize,
}

/// The mathematical image of one open element.
pub struct EntryModel {
    pub name: Seq<u8>,
    pub start: int,
    pub end: int,
}

/// The mathematical image of a reader: the buffer, the cursor, and the
/// stack of open elements, innermost last.
pub struct ReaderModel {
    pub s: Seq<u8>,
    pub pos: int,
    pub stack: Seq<EntryModel>,
}

/// A reader's cursor always stays inside the buffer.
pub open spec fn wf_model(m: ReaderModel) -> bool {
    0 <= m.pos <= m.s.len()
}

/// What one scan finds at `pos`: the end of the buffer, no further `<`, a
/// `<` with no matching `>`, a tag whose name is not valid UTF-8, or a
/// complete tag spanning `start..=end`.
pub enum ScanOut {
    End,
    NoTagStart,
    Unterminated { start: int },
    BadName { start: int, end: int },
    Found { start: int, end: int },
}

/// Scan the buffer for the next tag from `pos`.
pub open spec fn scan_at(s: Seq<u8>, pos: int) -> ScanOut {
    if pos == s.len() {
        ScanOut::End
    } else {
        match find_from(s, OPEN_TAG_TOKEN, pos) {
            None => ScanOut::NoTagStart,
            Some(p) => match find_from(s, CLOSE_TAG_TOKEN, p) {
                None => ScanOut::Unterminated { start: p },
                Some(q) => if valid_utf8(name_bytes_at(s, p, q)) {
                    ScanOut::Found { start: p, end: q }
                } else {
                    ScanOut::BadName { start: p, end: q }
                },
            },
        }
    }
}

/// What one reading step produces: the end of the buffer, a tag, or an
/// error.
pub enum StepOut {
    End,
    Tag(TagModel),
    Fail(ErrSpec),
}

/// One reading step: scan the next tag, advance the cursor past it, and
/// update the stack of open elements. An open tag is pushed; a close tag
/// must name the innermost open element, which it pops; a self-closing tag
/// leaves the stack alone. The level of a tag is the depth of the element
/// it belongs to: the stack depth for open and self-closing tags, and the
/// depth of the element being closed for close tags.
pub open spec fn step(m: ReaderModel) -> (ReaderModel, StepOut) {
    match scan_at(m.s, m.pos) {
        ScanOut::End => (m, StepOut::End),
        ScanOut::NoTagStart => (m, StepOut::Fail(ErrSpec::NoNextOpenTag)),
        ScanOut::Unterminated { start } => (
            ReaderModel { s: m.s, pos: start, stack: m.stack },
            StepOut::Fail(ErrSpec::UnterminatedTag),
        ),
        ScanOut::BadName { start, end } => (
            ReaderModel { s: m.s, pos: start, stack: m.stack },
            StepOut::Fail(ErrSpec::InvalidEncoding),
        ),
        ScanOut::Found { start, end } => {
            let kind = kind_at(m.s, start, end);
            let nb = name_bytes_at(m.s, start, end);
            match kind {
                XmlTagType::Open => (
                    ReaderModel {
                        s: m.s,
                        pos: end + 1,
                        stack: m.stack.push(EntryModel { name: nb, start, end }),
                    },
                    StepOut::Tag(
                        TagModel { start, end, kind, name: nb, level: m.stack.len() as int },
                    ),
                ),
                XmlTagType::OpenClose => (
                    ReaderModel { s: m.s, pos: end + 1, stack: m.stack },
                    StepOut::Tag(
                        TagModel { start, end, kind, name: nb, level: m.stack.len() as int },
                    ),
                ),
                XmlTagType::Close => {
                    if m.stack.len() == 0 {
                        (
                            ReaderModel { s: m.s, pos: end + 1, stack: m.stack },
                            StepOut::Fail(ErrSpec::UnexpectedCloseTag),
                        )
                    } else if m.stack.last().name != nb {
                        (
                            ReaderModel { s: m.s, pos: end + 1, stack: m.stack },
                            StepOut::Fail(
                                ErrSpec::MismatchedCloseTag {
                                    expected: m.stack.last().name,
                                    found: nb,
                                },
                            ),
                        )
                    } else {
                        (
                            ReaderModel { s: m.s, pos: end + 1, stack: m.stack.drop_last() },
                            StepOut::Tag(
                                TagModel {
                                    start,
                                    end,
                                    kind,
                                    name: nb,
                                    level: m.stack.len() - 1,
                                },
                            ),
                        )
                    }
                },
            }
        },
    }
}

/// A step keeps the buffer, keeps the cursor inside it, and every tag it
/// yields lies between the old cursor and the end of the buffer, with `<`
/// at `start` and `>` at `end`.
pub proof fn lemma_step_wf(m: ReaderModel)
    requires
        wf_model(m),
    ensures
        step(m).0.s == m.s,
        wf_model(step(m).0),
        step(m).0.pos >= m.pos,
        scan_at(m.s, m.pos) matches ScanOut::Found { start, end } ==> {
            &&& m.pos <= start < end < m.s.len()
            &&& m.s[start] == OPEN_TAG_TOKEN
            &&& m.s[end] == CLOSE_TAG_TOKEN
        },
        step(m).1 matches StepOut::Tag(tm) ==> {
            &&& m.pos <= tm.start < tm.end < m.s.len()
            &&& step(m).0.pos == tm.end + 1
            &&& m.s[tm.start] == OPEN_TAG_TOKEN
            &&& m.s[tm.end] == CLOSE_TAG_TOKEN
            &&& tm.kind == kind_at(m.s, tm.start, tm.end)
            &&& tm.name == name_bytes_at(m.s, tm.start, tm.end)
        },
{
    if m.pos != m.s.len() {
        lemma_find_from_bounds(m.s, OPEN_TAG_TOKEN, m.pos);
        match find_from(m.s, OPEN_TAG_TOKEN, m.pos) {
            None => {},
            Some(p) => {
                lemma_find_from_bounds(m.s, CLOSE_TAG_TOKEN, p);
            },
        }
    }
}

/// Whether the scan at the cursor finds a complete close tag.
pub open spec fn scan_found_close(m: ReaderModel) -> bool {
    scan_at(m.s, m.pos) matches ScanOut::Found { start, end } && kind_at(m.s, start, end)
        is Close
}

/// The name bytes of the tag the scan at the cursor finds.
pub open spec fn scanned_name(m: ReaderModel) -> Seq<u8> {
    match scan_at(m.s, m.pos) {
        ScanOut::Found { start, end } => name_bytes_at(m.s, start, end),
        _ => Seq::empty(),
    }
}

/// Every scanned tag's `start_pos` indexes its leading `<` and its
/// `end_pos` the terminating `>`, exactly: no `<` stands between the
/// cursor and `start_pos`, and no `>` inside the tag before `end_pos`, so
/// the tag is the first complete tag after the cursor.
pub proof fn lemma_tag_positions_exact(m: ReaderModel)
    requires
        wf_model(m),
    ensures
        step(m).1 matches StepOut::Tag(tm) ==> {
            &&& m.pos <= tm.start < tm.end < m.s.len()
            &&& m.s[tm.start] == OPEN_TAG_TOKEN
            &&& m.s[tm.end] == CLOSE_TAG_TOKEN
            &&& forall|i: int| m.pos <= i < tm.start ==> m.s[i] != OPEN_TAG_TOKEN
            &&& forall|i: int| tm.start <= i < tm.end ==> m.s[i] != CLOSE_TAG_TOKEN
        },
{
    lemma_step_wf(m);
    if m.pos != m.s.len() {
        lemma_find_from_bounds(m.s, OPEN_TAG_TOKEN, m.pos);
        match find_from(m.s, OPEN_TAG_TOKEN, m.pos) {
            None => {},
            Some(p) => {
                lemma_find_from_bounds(m.s, CLOSE_TAG_TOKEN, p);
            },
        }
    }
}

/// A close tag's level equals the depth recorded when its matching open
/// tag was pushed. An open tag pushed while `k` elements were open carries
/// level `k` and its entry lands at stack index `k`; the close tag that
/// pops an entry is reported at that entry's index, the new stack length.
pub proof fn lemma_close_level_is_push_level(m: ReaderModel)
    requires
        wf_model(m),
    ensures
        step(m).1 matches StepOut::Tag(tm) ==> (tm.kind is Open ==> {
            &&& tm.level == m.stack.len()
            &&& step(m).0.stack == m.stack.push(
                EntryModel { name: tm.name, start: tm.start, end: tm.end },
            )
        }),
        step(m).1 matches StepOut::Tag(tm) ==> (tm.kind is Close ==> {
            &&& tm.level == m.stack.len() - 1
            &&& tm.level == step(m).0.stack.len()
            &&& m.stack.last().name == tm.name
            &&& step(m).0.stack == m.stack.drop_last()
        }),
        step(m).1 matches StepOut::Tag(tm) ==> (tm.kind is OpenClose ==> step(m).0.stack
            == m.stack),
{
}

/// The two ways a scanned close tag fails, and the only two: with nothing
/// open it is unexpected, and with the wrong name it mismatches, carrying
/// the expected (innermost open) name and the name found.
pub proof fn lemma_close_tag_errors(m: ReaderModel)
    requires
        wf_model(m),
    ensures
        step(m).1 == StepOut::Fail(ErrSpec::UnexpectedCloseTag) <==> (scan_found_close(m)
            && m.stack.len() == 0),
        (step(m).1 matches StepOut::Fail(e) && e is MismatchedCloseTag) <==> (scan_found_close(
            m,
        ) && m.stack.len() > 0 && m.stack.last().name != scanned_name(m)),
        step(m).1 matches StepOut::Fail(e) ==> (e matches ErrSpec::MismatchedCloseTag {
            expected,
            found,
        } ==> expected == m.stack.last().name && found == scanned_name(m)),
{
}

/// Whether the tags from `pos` to the end of the buffer balance against
/// the stack of open-element names, innermost last: every scan finds a
/// complete tag, every close tag names the innermost open element, and
/// nothing is left open at the end. This is the declarative grammar of a
/// well-formed document remainder, written without the reader.
pub open spec fn balanced_from(s: Seq<u8>, pos: int, names: Seq<Seq<u8>>) -> bool
    decreases s.len() - pos,
    when 0 <= pos <= s.len()
    via balanced_from_dec
{
    match scan_at(s, pos) {
        ScanOut::End => names.len() == 0,
        ScanOut::Found { start, end } => {
            let kind = kind_at(s, start, end);
            let nb = name_bytes_at(s, start, end);
            match kind {
                XmlTagType::Open => balanced_from(s, end + 1, names.push(nb)),
                XmlTagType::OpenClose => balanced_from(s, end + 1, names),
                XmlTagType::Close => names.len() > 0 && names.last() == nb && balanced_from(
                    s,
                    end + 1,
                    names.drop_last(),
                ),
            }
        },
        _ => false,
    }
}

#[via_fn]
proof fn balanced_from_dec(s: Seq<u8>, pos: int, names: Seq<Seq<u8>>) {
    if pos != s.len() {
        lemma_find_from_bounds(s, OPEN_TAG_TOKEN, pos);
        match find_from(s, OPEN_TAG_TOKEN, pos) {
            None => {},
            Some(p) => {
                lemma_find_from_bounds(s, CLOSE_TAG_TOKEN, p);
            },
        }
    }
}

/// A well-formed document remainder: its tags balance with no element
/// open.
pub open spec fn well_formed_from(s: Seq<u8>, pos: int) -> bool {
    balanced_from(s, pos, Seq::empty())
}

/// Where a run that reads every remaining tag ends, and how: with the end
/// of the buffer, or with the first error.
pub open spec fn run_result(m: ReaderModel) -> (ReaderModel, StepOut)
    decreases m.s.len() - m.pos,
    when wf_model(m)
    via run_result_dec
{
    let so = step(m);
    match so.1 {
        StepOut::Tag(tm) => run_result(so.0),
        _ => so,
    }
}

#[via_fn]
proof fn run_result_dec(m: ReaderModel) {
    lemma_step_wf(m);
}

/// The names of the open elements on a stack, innermost last.
pub open spec fn stack_names(stack: Seq<EntryModel>) -> Seq<Seq<u8>> {
    stack.map_values(|e: EntryModel| e.name)
}

/// Over a well-formed document, reading every tag succeeds — the run ends
/// at the end of the buffer, with no error — and the stack is empty after
/// the last tag is read.
pub proof fn lemma_well_formed_run(m: ReaderModel)
    requires
        wf_model(m),
        balanced_from(m.s, m.pos, stack_names(m.stack)),
    ensures
        run_result(m).1 is End,
        run_result(m).0.stack.len() == 0,
    decreases m.s.len() - m.pos,
{
    lemma_step_wf(m);
    let names = stack_names(m.stack);
    match scan_at(m.s, m.pos) {
        ScanOut::End => {
            assert(m.stack.len() == names.len());
        },
        ScanOut::Found { start, end } => {
            let m2 = step(m).0;
            let kind = kind_at(m.s, start, end);
            let nb = name_bytes_at(m.s, start, end);
            match kind {
                XmlTagType::Open => {
                    assert(stack_names(m2.stack) =~= names.push(nb));
                },
                XmlTagType::OpenClose => {
                    assert(stack_names(m2.stack) =~= names);
                },
                XmlTagType::Close => {
                    assert(names.last() == stack_names(m.stack)[m.stack.len() - 1]);
                    assert(m.stack.last().name == nb);
                    assert(stack_names(m2.stack) =~= names.drop_last());
                },
            }
            lemma_well_formed_run(m2);
        },
        _ => {
            assert(false);
        },
    }
}

/// The converse: when reading every tag succeeds to the end of the buffer
/// and the stack ends empty, the document was balanced. Together with
/// [`lemma_well_formed_run`], a clean run with an empty final stack is
/// exactly well-formedness.
pub proof fn lemma_clean_run_is_balanced(m: ReaderModel)
    requires
        wf_model(m),
        run_result(m).1 is End,
        run_result(m).0.stack.len() == 0,
    ensures
        balanced_from(m.s, m.pos, stack_names(m.stack)),
    decreases m.s.len() - m.pos,
{
    lemma_step_wf(m);
    let names = stack_names(m.stack);
    match scan_at(m.s, m.pos) {
        ScanOut::End => {
            assert(m.stack.len() == names.len());
        },
        ScanOut::Found { start, end } => {
            let m2 = step(m).0;
            let kind = kind_at(m.s, start, end);
            let nb = name_bytes_at(m.s, start, end);
            match kind {
                XmlTagType::Open => {
                    lemma_clean_run_is_balanced(m2);
                    assert(stack_names(m2.stack) =~= names.push(nb));
                },
                XmlTagType::OpenClose => {
                    lemma_clean_run_is_balanced(m2);
                    assert(stack_names(m2.stack) =~= names);
                },
                XmlTagType::Close => {
                    assert(m.stack.len() > 0 && m.stack.last().name == nb);
                    lemma_clean_run_is_balanced(m2);
                    assert(names.last() == m.stack.last().name);
                    assert(stack_names(m2.stack) =~= names.drop_last());
                },
            }
        },
        _ => {},
    }
}

/// A whole well-formed document read with nothing open, as a fresh reader
/// reads it: reading every tag succeeds and the stack is empty at the end.
pub proof fn lemma_well_formed_document(m: ReaderModel)
    requires
        wf_model(m),
        m.stack.len() == 0,
        well_formed_from(m.s, m.pos),
    ensures
        run_result(m).1 is End,
        run_result(m).0.stack.len() == 0,
{
    assert(stack_names(m.stack) =~= Seq::<Seq<u8>>::empty());
    lemma_well_formed_run(m);
}

/// What a search produced: a matching tag, an explicit "not found", or an
/// error.
pub enum FindOut {
    Found(TagModel),
    NotFound,
    Fail(ErrSpec),
}

/// Read tags until one that is not a close tag carries `name`; close tags
/// of unrelated elements are skipped. "Not found" means the buffer ended
/// first.
pub open spec fn find_one(m: ReaderModel, name: Seq<u8>) -> (ReaderModel, FindOut)
    decreases m.s.len() - m.pos,
    when wf_model(m)
    via find_one_dec
{
    let so = step(m);
    match so.1 {
        StepOut::End => (so.0, FindOut::NotFound),
        StepOut::Fail(e) => (so.0, FindOut::Fail(e)),
        StepOut::Tag(tm) => match tm.kind {
            XmlTagType::Close => find_one(so.0, name),
            _ => if tm.name == name {
                (so.0, FindOut::Found(tm))
            } else {
                find_one(so.0, name)
            },
        },
    }
}

#[via_fn]
proof fn find_one_dec(m: ReaderModel, name: Seq<u8>) {
    lemma_step_wf(m);
}

/// Like [`find_one`], but the search ends with "not found" as soon as the
/// parent element itself closes: a close tag whose level and name are the
/// parent's.
pub open spec fn find_scoped_one(
    m: ReaderModel,
    parent_name: Seq<u8>,
    parent_level: int,
    name: Seq<u8>,
) -> (ReaderModel, FindOut)
    decreases m.s.len() - m.pos,
    when wf_model(m)
    via find_scoped_one_dec
{
    let so = step(m);
    match so.1 {
        StepOut::End => (so.0, FindOut::NotFound),
        StepOut::Fail(e) => (so.0, FindOut::Fail(e)),
        StepOut::Tag(tm) => match tm.kind {
            XmlTagType::Close => if tm.level == parent_level && tm.name == parent_name {
                (so.0, FindOut::NotFound)
            } else {
                find_scoped_one(so.0, parent_name, parent_level, name)
            },
            _ => if tm.name == name {
                (so.0, FindOut::Found(tm))
            } else {
                find_scoped_one(so.0, parent_name, parent_level, name)
            },
        },
    }
}

#[via_fn]
proof fn find_scoped_one_dec(m: ReaderModel, parent_name: Seq<u8>, parent_level: int, name: Seq<u8>) {
    lemma_step_wf(m);
}

/// Like [`find_scoped_one`], with a set of candidate names: the first tag
/// that is not a close tag and carries any of them is the match.
pub open spec fn find_any_scoped(
    m: ReaderModel,
    parent_name: Seq<u8>,
    parent_level: int,
    names: Seq<Seq<u8>>,
) -> (ReaderModel, FindOut)
    decreases m.s.len() - m.pos,
    when wf_model(m)
    via find_any_scoped_dec
{
    let so = step(m);
    match so.1 {
        StepOut::End => (so.0, FindOut::NotFound),
        StepOut::Fail(e) => (so.0, FindOut::Fail(e)),
        StepOut::Tag(tm) => match tm.kind {
            XmlTagType::Close => if tm.level == parent_level && tm.name == parent_name {
                (so.0, FindOut::NotFound)
            } else {
                find_any_scoped(so.0, parent_name, parent_level, names)
            },
            _ => if names.contains(tm.name) {
                (so.0, FindOut::Found(tm))
            } else {
                find_any_scoped(so.0, parent_name, parent_level, names)
            },
        },
    }
}

#[via_fn]
proof fn find_any_scoped_dec(
    m: ReaderModel,
    parent_name: Seq<u8>,
    parent_level: int,
    names: Seq<Seq<u8>>,
) {
    lemma_step_wf(m);
}

/// Read tags until the close tag with exactly this name and level; every
/// other tag, whole nested elements included, is consumed on the way.
/// "Not found" means the buffer ended first.
pub open spec fn find_close(m: ReaderModel, name: Seq<u8>, level: int) -> (ReaderModel, FindOut)
    decreases m.s.len() - m.pos,
    when wf_model(m)
    via find_close_dec
{
    let so = step(m);
    match so.1 {
        StepOut::End => (so.0, FindOut::NotFound),
        StepOut::Fail(e) => (so.0, FindOut::Fail(e)),
        StepOut::Tag(tm) => if tm.kind is Close && tm.level == level && tm.name == name {
            (so.0, FindOut::Found(tm))
        } else {
            find_close(so.0, name, level)
        },
    }
}

#[via_fn]
proof fn find_close_dec(m: ReaderModel, name: Seq<u8>, level: int) {
    lemma_step_wf(m);
}

/// Walk the path segments from `i` on: search for each in turn, and return
/// the tag matching the last one. A segment that is not found, or an
/// error, ends the walk.
pub open spec fn find_path(m: ReaderModel, segs: Seq<Seq<u8>>, i: int) -> (ReaderModel, FindOut)
    decreases segs.len() - i,
{
    if i < 0 || i >= segs.len() {
        (m, FindOut::NotFound)
    } else {
        let so = find_one(m, segs[i]);
        if i == segs.len() - 1 {
            so
        } else {
            match so.1 {
                FindOut::Found(tm) => find_path(so.0, segs, i + 1),
                _ => so,
            }
        }
    }
}

/// Walk the path segments from `i` on, each search bounded by the parent
/// element's own close tag.
pub open spec fn find_scoped_path(
    m: ReaderModel,
    parent_name: Seq<u8>,
    parent_level: int,
    segs: Seq<Seq<u8>>,
    i: int,
) -> (ReaderModel, FindOut)
    decreases segs.len() - i,
{
    if i < 0 || i >= segs.len() {
        (m, FindOut::NotFound)
    } else {
        let so = find_scoped_one(m, parent_name, parent_level, segs[i]);
        if i == segs.len() - 1 {
            so
        } else {
            match so.1 {
                FindOut::Found(tm) => find_scoped_path(so.0, parent_name, parent_level, segs, i + 1),
                _ => so,
            }
        }
    }
}

/// The byte sequences of a list of names.
pub open spec fn names_model(names: Seq<&str>) -> Seq<Seq<u8>> {
    names.map_values(|t: &str| t.spec_bytes())
}

/// Whether `name`'s bytes equal any entry of `node_names`.
fn name_in_list(name: &str, node_names: &[&str]) -> (r: bool)
    ensures
        r == names_model(node_names@).contains(name.spec_bytes()),
{
    let n = node_names.len();
    let mut k: usize = 0;
    while k < n
        invariant
            n == node_names@.len(),
            0 <= k <= n,
            forall|j: int| 0 <= j < k ==> names_model(node_names@)[j] != name.spec_bytes(),
        decreases n - k,
    {
        if bytes_eq(node_names[k].as_bytes(), name.as_bytes()) {
            proof {
                assert(names_model(node_names@)[k as int] == name.spec_bytes());
            }
            return true;
        }
        k = k + 1;
    }
    proof {
        assert(!names_model(node_names@).contains(name.spec_bytes()));
    }
    false
}

/// The forward-only reader: a borrowed buffer, the cursor, and the stack
/// of currently-open elements.
pub struct MyXmlReader<'t> {
    pub xml: &'t [u8],
    pub current_pos: usize,
    pub opened_nodes: Vec<OpenedNode>,
}

impl<'t> View for MyXmlReader<'t> {
    type V = ReaderModel;

    open spec fn view(&self) -> ReaderModel {
        ReaderModel {
            s: self.xml@,
            pos: self.current_pos as int,
            stack: self.opened_nodes@.map_values(
                |e: OpenedNode|
                    EntryModel {
                        name: encode_utf8(e.name@),
                        start: e.start_pos as int,
                        end: e.end_pos as int,
                    },
            ),
        }
    }
}

impl<'t> MyXmlReader<'t> {
    /// The cursor never leaves the buffer.
    pub open spec fn wf(self) -> bool {
        wf_model(self@)
    }

    /// Open a reader over the buffer, with the cursor on the root
    /// element's `<` and nothing on the stack.
    pub fn from_slice(xml: &'t [u8]) -> (r: Result<Self, XmlError>)
        ensures
            match r {
                Ok(reader) => {
                    &&& reader.wf()
                    &&& reader@.s == xml@
                    &&& spec_start_pos(xml@) == Ok::<int, ErrSpec>(reader@.pos)
                    &&& reader@.stack == Seq::<EntryModel>::empty()
                },
                Err(e) => spec_start_pos(xml@) matches Err(em) && err_matches(e, em),
            },
    {
        let current_pos = match init_pos_start(xml) {
            Ok(p) => p,
            Err(e) => {
                return Err(e);
            },
        };
        let reader = Self { xml, current_pos, opened_nodes: Vec::new() };
        proof {
            assert(reader@.stack =~= Seq::<EntryModel>::empty());
        }
        Ok(reader)
    }

    /// The current nesting depth: how many elements are open.
    pub fn get_level(&self) -> (r: usize)
        ensures
            r as int == self@.stack.len(),
    {
        self.opened_nodes.len()
    }

    /// The not-yet-consumed remainder of the buffer, as text.
    pub fn get_unread_slice(&self) -> (r: Result<&'t str, XmlError>)
        requires
            self.wf(),
        ensures
            match r {
                Ok(u) => valid_utf8(self@.s.skip(self@.pos)) && u.spec_bytes() == self@.s.skip(
                    self@.pos,
                ),
                Err(e) => e is InvalidEncoding && !valid_utf8(self@.s.skip(self@.pos)),
            },
    {
        let x: &'t [u8] = self.xml;
        let tail = &x[self.current_pos..x.len()];
        proof {
            assert(tail@ =~= self@.s.skip(self@.pos));
        }
        match bytes_to_str(tail) {
            Some(u) => Ok(u),
            None => Err(XmlError::InvalidEncoding),
        }
    }

    /// Leave the cursor on the next `<` at or after it. `Ok(false)` means
    /// the cursor is at the end of the buffer; an error means text remains
    /// but no tag does.
    fn move_to_the_next_open_tag_pos(&mut self) -> (r: Result<bool, XmlError>)
        requires
            old(self).wf(),
        ensures
            final(self).wf(),
            final(self).xml@ == old(self).xml@,
            final(self)@.s == old(self)@.s,
            final(self)@.stack == old(self)@.stack,
            final(self).opened_nodes@ == old(self).opened_nodes@,
            match r {
                Ok(true) => {
                    &&& find_from(old(self)@.s, OPEN_TAG_TOKEN, old(self)@.pos) == Some(
                        final(self)@.pos,
                    )
                    &&& old(self)@.pos < old(self)@.s.len()
                },
                Ok(false) => final(self)@ == old(self)@ && old(self)@.pos == old(self)@.s.len(),
                Err(e) => {
                    &&& e is NoNextOpenTag
                    &&& final(self)@ == old(self)@
                    &&& old(self)@.pos < old(self)@.s.len()
                    &&& find_from(old(self)@.s, OPEN_TAG_TOKEN, old(self)@.pos) is None
                },
            },
    {
        if self.current_pos == self.xml.len() {
            return Ok(false);
        }
        if self.xml[self.current_pos] == OPEN_TAG_TOKEN {
            return Ok(true);
        }
        let next_pos = find_next_token(self.xml, OPEN_TAG_TOKEN, self.current_pos);
        proof {
            lemma_find_from_bounds(self.xml@, OPEN_TAG_TOKEN, self.current_pos as int);
        }
        match next_pos {
            Some(pos) => {
                self.current_pos = pos;
                Ok(true)
            },
            None => Err(XmlError::NoNextOpenTag),
        }
    }

    /// Scan the next tag without touching the stack: find its bounds,
    /// classify it, and extract its name. The cursor is left on the tag's
    /// `<`; advancing past it is the caller's business. A close tag met
    /// while no element is open is reported here, with the cursor moved
    /// past it.
    fn scan_for_the_next_tag(&mut self) -> (r: Result<Option<XmlTagInfo<'t>>, XmlError>)
        requires
            old(self).wf(),
        ensures
            final(self).wf(),
            final(self).xml@ == old(self).xml@,
            final(self)@.s == old(self)@.s,
            final(self)@.stack == old(self)@.stack,
            final(self).opened_nodes@ == old(self).opened_nodes@,
            match scan_at(old(self)@.s, old(self)@.pos) {
                ScanOut::End => r matches Ok(o) && o is None && final(self)@.pos == old(
                    self,
                )@.pos,
                ScanOut::NoTagStart => r matches Err(e) && e is NoNextOpenTag && final(self)@.pos
                    == old(self)@.pos,
                ScanOut::Unterminated { start } => r matches Err(e) && e is UnterminatedTag
                    && final(self)@.pos == start,
                ScanOut::BadName { start, end } => r matches Err(e) && e is InvalidEncoding
                    && final(self)@.pos == start,
                ScanOut::Found { start, end } => {
                    if kind_at(old(self)@.s, start, end) is Close && old(self)@.stack.len()
                        == 0 {
                        r matches Err(e) && e is UnexpectedCloseTag && final(self)@.pos == end
                            + 1
                    } else {
                        &&& r matches Ok(o)
                        &&& o matches Some(t)
                        &&& final(self)@.pos == start
                        &&& t.models(
                            old(self)@.s,
                            TagModel {
                                start,
                                end,
                                kind: kind_at(old(self)@.s, start, end),
                                name: name_bytes_at(old(self)@.s, start, end),
                                level: if kind_at(old(self)@.s, start, end) is Close {
                                    old(self)@.stack.len() - 1
                                } else {
                                    old(self)@.stack.len() as int
                                },
                            },
                        )
                    }
                },
            },
    {
        let moved = match self.move_to_the_next_open_tag_pos() {
            Ok(b) => b,
            Err(e) => {
                return Err(e);
            },
        };
        if !moved {
            return Ok(None);
        }
        let start_pos = self.current_pos;
        proof {
            lemma_find_from_bounds(self.xml@, CLOSE_TAG_TOKEN, start_pos as int);
        }
        let end_pos = match find_next_token(self.xml, CLOSE_TAG_TOKEN, start_pos) {
            Some(q) => q,
            None => {
                return Err(XmlError::UnterminatedTag);
            },
        };
        let x: &'t [u8] = self.xml;
        let _buffer_len = x.len();
        proof {
            lemma_find_from_bounds(x@, OPEN_TAG_TOKEN, old(self)@.pos);
            assert(x@[start_pos as int] == OPEN_TAG_TOKEN);
            assert(x@[end_pos as int] == CLOSE_TAG_TOKEN);
            assert(start_pos < end_pos);
        }
        let raw: &'t [u8] = &x[start_pos..end_pos + 1];
        proof {
            assert(raw@ =~= raw_of(self@.s, start_pos as int, end_pos as int));
            assert(raw@.len() >= 2);
        }
        let mut tag_type = XmlTagType::Open;
        if raw[raw.len() - 2] == crate::SLASH_TOKEN {
            tag_type = XmlTagType::OpenClose;
        } else if raw[1] == crate::SLASH_TOKEN {
            tag_type = XmlTagType::Close;
        }
        assert(tag_type == kind_at(self@.s, start_pos as int, end_pos as int));
        let name_b = crate::xml_utils::extract_tag_name(raw);
        let name = match bytes_to_str(name_b) {
            Some(nm) => nm,
            None => {
                return Err(XmlError::InvalidEncoding);
            },
        };
        let level_now = self.opened_nodes.len();
        let level = match tag_type {
            XmlTagType::Close => {
                if level_now == 0 {
                    self.current_pos = end_pos + 1;
                    return Err(XmlError::UnexpectedCloseTag);
                }
                level_now - 1
            },
            _ => level_now,
        };
        Ok(Some(XmlTagInfo { name, raw, tag_type, start_pos, end_pos, level }))
    }

    /// Whether the executable outcome `r` denotes the modelled outcome of
    /// one reading step over the buffer `s`.
    pub open spec fn step_returns(
        r: Result<Option<XmlTagInfo<'t>>, XmlError>,
        s: Seq<u8>,
        out: StepOut,
    ) -> bool {
        match out {
            StepOut::End => r matches Ok(o) && o is None,
            StepOut::Tag(tm) => r matches Ok(o) && o matches Some(t) && t.models(s, tm),
            StepOut::Fail(em) => r matches Err(e) && err_matches(e, em),
        }
    }

    /// Read the next tag and perform its stack effect: push an open tag,
    /// pop a matching close tag, leave the stack alone for a self-closing
    /// tag. The cursor moves past every tag that was scanned.
    pub fn read_next_tag(&mut self) -> (r: Result<Option<XmlTagInfo<'t>>, XmlError>)
        requires
            old(self).wf(),
        ensures
            final(self).wf(),
            final(self).xml@ == old(self).xml@,
            final(self)@ == step(old(self)@).0,
            Self::step_returns(r, old(self)@.s, step(old(self)@).1),
    {
        proof {
            lemma_step_wf(old(self)@);
        }
        let tag_info = match self.scan_for_the_next_tag() {
            Ok(t) => t,
            Err(e) => {
                return Err(e);
            },
        };
        let tag_info = match tag_info {
            Some(t) => t,
            None => {
                return Ok(None);
            },
        };
        let _buffer_len = self.xml.len();
        self.current_pos = tag_info.end_pos + 1;
        match tag_info.tag_type {
            XmlTagType::Open => {
                let entry = OpenedNode {
                    name: tag_info.name.to_owned(),
                    start_pos: tag_info.start_pos,
                    end_pos: tag_info.end_pos,
                };
                self.opened_nodes.push(entry);
                proof {
                    assert(self@.stack =~= step(old(self)@).0.stack);
                }
            },
            XmlTagType::Close => {
                let last_idx = self.opened_nodes.len() - 1;
                let same = bytes_eq(
                    self.opened_nodes[last_idx].name.as_str().as_bytes(),
                    tag_info.name.as_bytes(),
                );
                if !same {
                    return Err(
                        XmlError::MismatchedCloseTag {
                            expected: self.opened_nodes[last_idx].name.clone(),
                            found: tag_info.name.to_owned(),
                        },
                    );
                }
                self.opened_nodes.pop();
                proof {
                    assert(self@.stack =~= step(old(self)@).0.stack);
                }
            },
            XmlTagType::OpenClose => {},
        }
        Ok(Some(tag_info))
    }

    /// Whether the executable outcome `r` denotes the modelled outcome of
    /// a search over the buffer `s`.
    pub open spec fn find_returns(
        r: Result<Option<XmlTagInfo<'t>>, XmlError>,
        s: Seq<u8>,
        out: FindOut,
    ) -> bool {
        match out {
            FindOut::Found(tm) => r matches Ok(o) && o matches Some(t) && t.models(s, tm),
            FindOut::NotFound => r matches Ok(o) && o is None,
            FindOut::Fail(em) => r matches Err(e) && err_matches(e, em),
        }
    }

    /// Search for a path: for each `/`-separated segment of `x_path` in
    /// order, read tags until an open or self-closing tag carries the
    /// segment's name, and return the tag that matched the last segment.
    /// `Ok(None)` means the buffer ended before some segment was found.
    #[verifier::loop_isolation(false)]
    pub fn find_the_open_node(&mut self, x_path: &str) -> (r: Result<
        Option<XmlTagInfo<'t>>,
        XmlError,
    >)
        requires
            old(self).wf(),
        ensures
            final(self).wf(),
            final(self).xml@ == old(self).xml@,
            final(self)@ == find_path(old(self)@, path_segments(x_path.spec_bytes()), 0).0,
            Self::find_returns(
                r,
                old(self)@.s,
                find_path(old(self)@, path_segments(x_path.spec_bytes()), 0).1,
            ),
    {
        let pb: &[u8] = x_path.as_bytes();
        let _path_len = pb.len();
        let ghost segs = path_segments(x_path.spec_bytes());
        let ghost m0 = self@;
        let mut seg_lo: usize = 0;
        let ghost mut i: int = 0;
        proof {
            lemma_split_from_len(pb@, 0);
            assert(segs.skip(0) =~= segs);
        }
        loop
            invariant
                self.wf(),
                self@.s == m0.s,
                self.xml@ == old(self).xml@,
                0 <= i < segs.len(),
                seg_lo <= pb@.len(),
                segs.skip(i) == split_from(pb@, seg_lo as int),
                find_path(m0, segs, 0) == find_path(self@, segs, i),
            decreases segs.len() - i, self@.s.len() - self@.pos,
        {
            let seg_end = find_next_token(pb, SLASH_TOKEN, seg_lo);
            proof {
                lemma_find_from_bounds(pb@, SLASH_TOKEN, seg_lo as int);
            }
            let (seg_hi, last_seg): (usize, bool) = match seg_end {
                Some(j) => (j, false),
                None => (pb.len(), true),
            };
            proof {
                assert(segs.skip(i)[0] == segs[i]);
                assert(segs[i] =~= pb@.subrange(seg_lo as int, seg_hi as int));
                if last_seg {
                    assert(i == segs.len() - 1);
                } else {
                    lemma_split_from_len(pb@, seg_hi + 1);
                    assert(i < segs.len() - 1);
                    assert(segs.skip(i).skip(1) =~= split_from(pb@, seg_hi + 1));
                    assert(segs.skip(i + 1) =~= segs.skip(i).skip(1));
                }
            }
            let ghost pre = self@;
            let read = self.read_next_tag();
            proof {
                lemma_step_wf(pre);
            }
            let node = match read {
                Ok(v) => v,
                Err(e) => {
                    proof {
                        assert(find_one(pre, segs[i]).1 is Fail);
                        assert(find_path(pre, segs, i) == find_one(pre, segs[i]));
                    }
                    return Err(e);
                },
            };
            let node = match node {
                None => {
                    proof {
                        assert(find_one(pre, segs[i]) == (self@, FindOut::NotFound));
                        assert(find_path(pre, segs, i) == find_one(pre, segs[i]));
                    }
                    return Ok(None);
                },
                Some(t) => t,
            };
            let is_close = matches!(node.tag_type, XmlTagType::Close);
            if !is_close && bytes_eq(node.name.as_bytes(), &pb[seg_lo..seg_hi]) {
                proof {
                    assert(find_one(pre, segs[i]).1 matches FindOut::Found(tm) && node.models(
                        m0.s,
                        tm,
                    ));
                }
                if last_seg {
                    return Ok(Some(node));
                }
                proof {
                    i = i + 1;
                }
                seg_lo = seg_hi + 1;
            } else {
                proof {
                    assert(find_one(pre, segs[i]) == find_one(self@, segs[i]));
                    assert(find_path(pre, segs, i) == find_path(self@, segs, i));
                }
            }
        }
    }

    /// Search for a path as [`Self::find_the_open_node`] does, but bounded
    /// by the parent element: the search ends with `Ok(None)` as soon as a
    /// close tag with the parent's level and name is read, so repeated
    /// calls walk same-named children until the parent closes.
    #[verifier::loop_isolation(false)]
    pub fn find_the_node_inside_parent(
        &mut self,
        parent_tag: &XmlTagInfo<'t>,
        x_path: &str,
    ) -> (r: Result<Option<XmlTagInfo<'t>>, XmlError>)
        requires
            old(self).wf(),
        ensures
            final(self).wf(),
            final(self).xml@ == old(self).xml@,
            final(self)@ == find_scoped_path(
                old(self)@,
                parent_tag.name.spec_bytes(),
                parent_tag.level as int,
                path_segments(x_path.spec_bytes()),
                0,
            ).0,
            Self::find_returns(
                r,
                old(self)@.s,
                find_scoped_path(
                    old(self)@,
                    parent_tag.name.spec_bytes(),
                    parent_tag.level as int,
                    path_segments(x_path.spec_bytes()),
                    0,
                ).1,
            ),
    {
        let ghost pn = parent_tag.name.spec_bytes();
        let ghost pl = parent_tag.level as int;
        let pb: &[u8] = x_path.as_bytes();
        let _path_len = pb.len();
        let ghost segs = path_segments(x_path.spec_bytes());
        let ghost m0 = self@;
        let mut seg_lo: usize = 0;
        let ghost mut i: int = 0;
        proof {
            lemma_split_from_len(pb@, 0);
            assert(segs.skip(0) =~= segs);
        }
        loop
            invariant
                self.wf(),
                self@.s == m0.s,
                self.xml@ == old(self).xml@,
                0 <= i < segs.len(),
                seg_lo <= pb@.len(),
                segs.skip(i) == split_from(pb@, seg_lo as int),
                find_scoped_path(m0, pn, pl, segs, 0) == find_scoped_path(self@, pn, pl, segs, i),
            decreases segs.len() - i, self@.s.len() - self@.pos,
        {
            let seg_end = find_next_token(pb, SLASH_TOKEN, seg_lo);
            proof {
                lemma_find_from_bounds(pb@, SLASH_TOKEN, seg_lo as int);
            }
            let (seg_hi, last_seg): (usize, bool) = match seg_end {
                Some(j) => (j, false),
                None => (pb.len(), true),
            };
            proof {
                assert(segs.skip(i)[0] == segs[i]);
                assert(segs[i] =~= pb@.subrange(seg_lo as int, seg_hi as int));
                if last_seg {
                    assert(i == segs.len() - 1);
                } else {
                    lemma_split_from_len(pb@, seg_hi + 1);
                    assert(i < segs.len() - 1);
                    assert(segs.skip(i).skip(1) =~= split_from(pb@, seg_hi + 1));
                    assert(segs.skip(i + 1) =~= segs.skip(i).skip(1));
                }
            }
            let ghost pre = self@;
            let read = self.read_next_tag();
            proof {
                lemma_step_wf(pre);
            }
            let node = match read {
                Ok(v) => v,
                Err(e) => {
                    proof {
                        assert(find_scoped_one(pre, pn, pl, segs[i]).1 is Fail);
                        assert(find_scoped_path(pre, pn, pl, segs, i) == find_scoped_one(
                            pre,
                            pn,
                            pl,
                            segs[i],
                        ));
                    }
                    return Err(e);
                },
            };
            let node = match node {
                None => {
                    proof {
                        assert(find_scoped_one(pre, pn, pl, segs[i]) == (
                            self@,
                            FindOut::NotFound,
                        ));
                        assert(find_scoped_path(pre, pn, pl, segs, i) == find_scoped_one(
                            pre,
                            pn,
                            pl,
                            segs[i],
                        ));
                    }
                    return Ok(None);
                },
                Some(t) => t,
            };
            let is_close = matches!(node.tag_type, XmlTagType::Close);
            if is_close {
                if parent_tag.level == node.level && bytes_eq(
                    parent_tag.name.as_bytes(),
                    node.name.as_bytes(),
                ) {
                    proof {
                        assert(find_scoped_one(pre, pn, pl, segs[i]) == (
                            self@,
                            FindOut::NotFound,
                        ));
                        assert(find_scoped_path(pre, pn, pl, segs, i) == find_scoped_one(
                            pre,
                            pn,
                            pl,
                            segs[i],
                        ));
                    }
                    return Ok(None);
                }
                proof {
                    assert(find_scoped_one(pre, pn, pl, segs[i]) == find_scoped_one(
                        self@,
                        pn,
                        pl,
                        segs[i],
                    ));
                    assert(find_scoped_path(pre, pn, pl, segs, i) == find_scoped_path(
                        self@,
                        pn,
                        pl,
                        segs,
                        i,
                    ));
                }
            } else if bytes_eq(node.name.as_bytes(), &pb[seg_lo..seg_hi]) {
                proof {
                    assert(find_scoped_one(pre, pn, pl, segs[i]).1 matches FindOut::Found(tm)
                        && node.models(m0.s, tm));
                }
                if last_seg {
                    return Ok(Some(node));
                }
                proof {
                    i = i + 1;
                }
                seg_lo = seg_hi + 1;
            } else {
                proof {
                    assert(find_scoped_one(pre, pn, pl, segs[i]) == find_scoped_one(
                        self@,
                        pn,
                        pl,
                        segs[i],
                    ));
                    assert(find_scoped_path(pre, pn, pl, segs, i) == find_scoped_path(
                        self@,
                        pn,
                        pl,
                        segs,
                        i,
                    ));
                }
            }
        }
    }

    /// Search for the first open or self-closing tag carrying any of the
    /// candidate names, bounded by the parent element's own close tag as
    /// [`Self::find_the_node_inside_parent`] is.
    #[verifier::loop_isolation(false)]
    pub fn find_any_of_these_nodes_inside_parent(
        &mut self,
        parent_tag: &XmlTagInfo<'t>,
        node_names: &[&str],
    ) -> (r: Result<Option<XmlTagInfo<'t>>, XmlError>)
        requires
            old(self).wf(),
        ensures
            final(self).wf(),
            final(self).xml@ == old(self).xml@,
            final(self)@ == find_any_scoped(
                old(self)@,
                parent_tag.name.spec_bytes(),
                parent_tag.level as int,
                names_model(node_names@),
            ).0,
            Self::find_returns(
                r,
                old(self)@.s,
                find_any_scoped(
                    old(self)@,
                    parent_tag.name.spec_bytes(),
                    parent_tag.level as int,
                    names_model(node_names@),
                ).1,
            ),
    {
        let ghost pn = parent_tag.name.spec_bytes();
        let ghost pl = parent_tag.level as int;
        let ghost nms = names_model(node_names@);
        let ghost m0 = self@;
        loop
            invariant
                self.wf(),
                self@.s == m0.s,
                self.xml@ == old(self).xml@,
                find_any_scoped(m0, pn, pl, nms) == find_any_scoped(self@, pn, pl, nms),
            decreases self@.s.len() - self@.pos,
        {
            let ghost pre = self@;
            let read = self.read_next_tag();
            proof {
                lemma_step_wf(pre);
            }
            let node = match read {
                Ok(v) => v,
                Err(e) => {
                    proof {
                        assert(find_any_scoped(pre, pn, pl, nms).1 is Fail);
                    }
                    return Err(e);
                },
            };
            let node = match node {
                None => {
                    proof {
                        assert(find_any_scoped(pre, pn, pl, nms) == (self@, FindOut::NotFound));
                    }
                    return Ok(None);
                },
                Some(t) => t,
            };
            let is_close = matches!(node.tag_type, XmlTagType::Close);
            if is_close {
                if parent_tag.level == node.level && bytes_eq(
                    parent_tag.name.as_bytes(),
                    node.name.as_bytes(),
                ) {
                    proof {
                        assert(find_any_scoped(pre, pn, pl, nms) == (self@, FindOut::NotFound));
                    }
                    return Ok(None);
                }
                proof {
                    assert(find_any_scoped(pre, pn, pl, nms) == find_any_scoped(
                        self@,
                        pn,
                        pl,
                        nms,
                    ));
                }
            } else if name_in_list(node.name, node_names) {
                proof {
                    assert(find_any_scoped(pre, pn, pl, nms).1 matches FindOut::Found(tm)
                        && node.models(m0.s, tm));
                }
                return Ok(Some(node));
            } else {
                proof {
                    assert(find_any_scoped(pre, pn, pl, nms) == find_any_scoped(
                        self@,
                        pn,
                        pl,
                        nms,
                    ));
                }
            }
        }
    }

    /// Read forward to the close tag whose level and name match the given
    /// open tag; everything on the way, nested elements included, is
    /// consumed. The buffer ending first is the unmatched-close-tag error.
    #[verifier::loop_isolation(false)]
    fn find_corelated_closed_node(&mut self, node_level: usize, node_name: &str) -> (r: Result<
        XmlTagInfo<'t>,
        XmlError,
    >)
        requires
            old(self).wf(),
        ensures
            final(self).wf(),
            final(self).xml@ == old(self).xml@,
            final(self)@ == find_close(
                old(self)@,
                node_name.spec_bytes(),
                node_level as int,
            ).0,
            match find_close(old(self)@, node_name.spec_bytes(), node_level as int).1 {
                FindOut::Found(tm) => {
                    &&& r matches Ok(t) && t.models(old(self)@.s, tm)
                    &&& old(self)@.pos <= tm.start < tm.end < old(self)@.s.len()
                },
                FindOut::NotFound => {
                    &&& r matches Err(e) && e matches XmlError::UnmatchedCloseTag {
                        name,
                        level,
                    } && name@ == node_name@ && level == node_level
                },
                FindOut::Fail(em) => r matches Err(e) && err_matches(e, em),
            },
    {
        let ghost nb = node_name.spec_bytes();
        let ghost nl = node_level as int;
        let ghost m0 = self@;
        loop
            invariant
                self.wf(),
                self@.s == m0.s,
                self.xml@ == old(self).xml@,
                m0.pos <= self@.pos,
                find_close(m0, nb, nl) == find_close(self@, nb, nl),
            decreases self@.s.len() - self@.pos,
        {
            let ghost pre = self@;
            let read = self.read_next_tag();
            proof {
                lemma_step_wf(pre);
            }
            let next_node = match read {
                Ok(v) => v,
                Err(e) => {
                    proof {
                        assert(find_close(pre, nb, nl).1 is Fail);
                    }
                    return Err(e);
                },
            };
            let next_node = match next_node {
                None => {
                    proof {
                        assert(find_close(pre, nb, nl) == (self@, FindOut::NotFound));
                    }
                    return Err(
                        XmlError::UnmatchedCloseTag {
                            name: node_name.to_owned(),
                            level: node_level,
                        },
                    );
                },
                Some(t) => t,
            };
            let is_close = matches!(next_node.tag_type, XmlTagType::Close);
            if is_close && next_node.level == node_level && bytes_eq(
                next_node.name.as_bytes(),
                node_name.as_bytes(),
            ) {
                proof {
                    assert(find_close(pre, nb, nl).1 matches FindOut::Found(tm)
                        && next_node.models(m0.s, tm));
                }
                return Ok(next_node);
            }
            proof {
                assert(find_close(pre, nb, nl) == find_close(self@, nb, nl));
            }
        }
    }

    /// Materialize the element the given open tag starts: a self-closing
    /// tag is a complete element already; otherwise the reader consumes
    /// tags up to the matching close tag, and the node spans both.
    pub fn read_the_whole_node(&mut self, open_node: XmlTagInfo<'t>) -> (r: Result<
        MyXmlNode<'t>,
        XmlError,
    >)
        requires
            old(self).wf(),
            open_node.start_pos <= open_node.end_pos,
            (open_node.end_pos as int) < old(self)@.s.len(),
            (open_node.end_pos as int) < old(self)@.pos,
        ensures
            final(self).wf(),
            final(self).xml@ == old(self).xml@,
            open_node.tag_type is OpenClose ==> {
                &&& final(self)@ == old(self)@
                &&& r matches Ok(node) && node.xml@ == old(self)@.s && node.open_node.same_tag(
                    open_node,
                ) && node.close_node is None && node.inv()
            },
            !(open_node.tag_type is OpenClose) ==> {
                &&& final(self)@ == find_close(
                    old(self)@,
                    open_node.name.spec_bytes(),
                    open_node.level as int,
                ).0
                &&& match find_close(
                    old(self)@,
                    open_node.name.spec_bytes(),
                    open_node.level as int,
                ).1 {
                    FindOut::Found(tm) => {
                        &&& r matches Ok(node)
                        &&& node.xml@ == old(self)@.s
                        &&& node.open_node.same_tag(open_node)
                        &&& node.close_node matches Some(c) && c.models(old(self)@.s, tm)
                        &&& node.inv()
                    },
                    FindOut::NotFound => r matches Err(e) && e matches XmlError::UnmatchedCloseTag {
                        name,
                        level,
                    } && name@ == open_node.name@ && level == open_node.level,
                    FindOut::Fail(em) => r matches Err(e) && err_matches(e, em),
                }
            },
    {
        if matches!(open_node.tag_type, XmlTagType::OpenClose) {
            let result = MyXmlNode { xml: self.xml, open_node, close_node: None };
            return Ok(result);
        }
        let close_node = match self.find_corelated_closed_node(open_node.level, open_node.name) {
            Ok(c) => c,
            Err(e) => {
                return Err(e);
            },
        };
        let result = MyXmlNode { xml: self.xml, open_node, close_node: Some(close_node) };
        Ok(result)
    }
}

} // verus!
