//! Byte-level scanning helpers shared by the tag scanner, the header
//! skipper and the entity decoder.

use vstd::prelude::*;

use crate::errors::{ErrSpec, XmlError};
use crate::CLOSE_TAG_TOKEN;
use crate::OPEN_TAG_TOKEN;
use crate::QUESTION_MARK_TOKEN;
use crate::SLASH_TOKEN;
use crate::SPACE_TOKEN;

verus! {

/// Position of the first occurrence of `token` in `s` at or after `from`,
/// or `None` when no such byte exists.
pub open spec fn find_from(s: Seq<u8>, token: u8, from: int) -> Option<int>
    decreases s.len() - from,
{
    if from < 0 || from >= s.len() {
        None
    } else if s[from] == token {
        Some(from)
    } else {
        find_from(s, token, from + 1)
    }
}

/// What `find_from` returns: the first occurrence, inside the buffer,
/// with nothing equal to `token` before it.
pub proof fn lemma_find_from_bounds(s: Seq<u8>, token: u8, from: int)
    requires
        0 <= from,
    ensures
        match find_from(s, token, from) {
            Some(p) => from <= p < s.len() && s[p] == token && forall|i: int|
                from <= i < p ==> s[i] != token,
            None => forall|i: int| from <= i < s.len() ==> s[i] != token,
        },
    decreases s.len() - from,
{
    if from < s.len() && s[from] != token {
        lemma_find_from_bounds(s, token, from + 1);
    }
}

/// Scan for the first occurrence of `token_to_find` at or after `start_pos`.
pub fn find_next_token(xml: &[u8], token_to_find: u8, start_pos: usize) -> (r: Option<usize>)
    ensures
        match r {
            Some(p) => find_from(xml@, token_to_find, start_pos as int) == Some(p as int),
            None => find_from(xml@, token_to_find, start_pos as int) is None,
        },
{
    proof {
        lemma_find_from_bounds(xml@, token_to_find, start_pos as int);
    }
    let n = xml.len();
    let mut pos = start_pos;
    while pos < n
        invariant
            n == xml@.len(),
            start_pos <= pos,
            forall|i: int| start_pos <= i < pos ==> xml@[i] != token_to_find,
        decreases n - pos,
    {
        if xml[pos] == token_to_find {
            proof {
                lemma_find_from_first(xml@, token_to_find, start_pos as int, pos as int);
            }
            return Some(pos);
        }
        pos = pos + 1;
    }
    None
}

/// If `p` is an occurrence of `token` with none before it, then it is the
/// one that `find_from` yields.
pub proof fn lemma_find_from_first(s: Seq<u8>, token: u8, from: int, p: int)
    requires
        0 <= from <= p < s.len(),
        s[p] == token,
        forall|i: int| from <= i < p ==> s[i] != token,
    ensures
        find_from(s, token, from) == Some(p),
    decreases p - from,
{
    if from < p {
        lemma_find_from_first(s, token, from + 1, p);
    }
}

/// Position of the first `?>` pair in `s` at or after `from`.
pub open spec fn find_header_end(s: Seq<u8>, from: int) -> Option<int>
    decreases s.len() - from,
{
    if from < 0 || from + 1 >= s.len() {
        None
    } else if s[from] == QUESTION_MARK_TOKEN && s[from + 1] == CLOSE_TAG_TOKEN {
        Some(from)
    } else {
        find_header_end(s, from + 1)
    }
}

/// What `find_header_end` returns: the first `?>` pair, with none before it.
pub proof fn lemma_find_header_end_bounds(s: Seq<u8>, from: int)
    requires
        0 <= from,
    ensures
        match find_header_end(s, from) {
            Some(p) => from <= p && p + 1 < s.len() && s[p] == QUESTION_MARK_TOKEN && s[p + 1]
                == CLOSE_TAG_TOKEN,
            None => true,
        },
    decreases s.len() - from,
{
    if from + 1 < s.len() && !(s[from] == QUESTION_MARK_TOKEN && s[from + 1]
        == CLOSE_TAG_TOKEN) {
        lemma_find_header_end_bounds(s, from + 1);
    }
}

/// Scan for the first `?>` pair at or after `start_pos`.
fn find_next_header_end(xml: &[u8], start_pos: usize) -> (r: Option<usize>)
    ensures
        match r {
            Some(p) => find_header_end(xml@, start_pos as int) == Some(p as int),
            None => find_header_end(xml@, start_pos as int) is None,
        },
{
    let n = xml.len();
    if n == 0 {
        return None;
    }
    let mut pos = start_pos;
    while pos < n - 1
        invariant
            n == xml@.len(),
            1 <= n,
            start_pos <= pos,
            find_header_end(xml@, start_pos as int) == find_header_end(xml@, pos as int),
        decreases n - pos,
    {
        if xml[pos] == QUESTION_MARK_TOKEN && xml[pos + 1] == CLOSE_TAG_TOKEN {
            return Some(pos);
        }
        pos = pos + 1;
    }
    None
}

/// Index where a tag's name begins inside its raw bytes: after `<`, or
/// after `</` for a close tag.
pub open spec fn name_start_in(raw: Seq<u8>) -> int {
    if raw.len() >= 3 && raw[1] == SLASH_TOKEN {
        2
    } else {
        1
    }
}

/// Index where a tag's name ends, scanning from `i`: the first byte that is
/// whitespace or `/`, or the last index of the raw bytes.
pub open spec fn name_end_from(raw: Seq<u8>, i: int) -> int
    decreases raw.len() - i,
{
    if i < 0 || i >= raw.len() - 1 {
        raw.len() - 1
    } else if raw[i] <= SPACE_TOKEN || raw[i] == SLASH_TOKEN {
        i
    } else {
        name_end_from(raw, i + 1)
    }
}

/// The name carried by a raw tag: the bytes after `<` or `</`, up to the
/// first whitespace byte, `/`, or the trailing `>`.
pub open spec fn tag_name_bytes(raw: Seq<u8>) -> Seq<u8> {
    raw.subrange(name_start_in(raw), name_end_from(raw, name_start_in(raw)))
}

/// Extract a tag's name from its raw bytes, delimiters included.
pub fn extract_tag_name<'t>(node_tag: &'t [u8]) -> (r: &'t [u8])
    requires
        node_tag@.len() >= 2,
    ensures
        r@ == tag_name_bytes(node_tag@),
{
    let n = node_tag.len();
    let mut loop_start: usize = 1;
    if n >= 3 && node_tag[1] == SLASH_TOKEN {
        loop_start = 2;
    }
    let mut i = loop_start;
    while i < n - 1
        invariant
            n == node_tag@.len(),
            2 <= n,
            loop_start as int == name_start_in(node_tag@),
            loop_start <= i <= n - 1,
            name_end_from(node_tag@, loop_start as int) == name_end_from(node_tag@, i as int),
        decreases n - i,
    {
        if node_tag[i] <= SPACE_TOKEN || node_tag[i] == SLASH_TOKEN {
            return &node_tag[loop_start..i];
        }
        i = i + 1;
    }
    &node_tag[loop_start..n - 1]
}

/// The `/`-separated segments of `path` from index `a` on. A path with no
/// separator is one segment; separators at the edges yield empty segments,
/// which simply never match a tag name.
pub open spec fn split_from(path: Seq<u8>, a: int) -> Seq<Seq<u8>>
    decreases path.len() - a,
    when 0 <= a <= path.len()
    via split_from_dec
{
    match find_from(path, SLASH_TOKEN, a) {
        None => seq![path.subrange(a, path.len() as int)],
        Some(j) => seq![path.subrange(a, j)] + split_from(path, j + 1),
    }
}

#[via_fn]
proof fn split_from_dec(path: Seq<u8>, a: int) {
    lemma_find_from_bounds(path, SLASH_TOKEN, a);
}

/// A split always yields at least one segment.
pub proof fn lemma_split_from_len(path: Seq<u8>, a: int)
    requires
        0 <= a <= path.len(),
    ensures
        split_from(path, a).len() >= 1,
{
    lemma_find_from_bounds(path, SLASH_TOKEN, a);
}

/// The `/`-separated segments of a whole path.
pub open spec fn path_segments(path: Seq<u8>) -> Seq<Seq<u8>> {
    split_from(path, 0)
}

/// Whether `&quot;` starts at index `i`.
pub open spec fn quot_at(s: Seq<char>, i: int) -> bool {
    &&& 0 <= i
    &&& i + 6 <= s.len()
    &&& s[i] == '&'
    &&& s[i + 1] == 'q'
    &&& s[i + 2] == 'u'
    &&& s[i + 3] == 'o'
    &&& s[i + 4] == 't'
    &&& s[i + 5] == ';'
}

/// Whether `&apos;` starts at index `i`.
pub open spec fn apos_at(s: Seq<char>, i: int) -> bool {
    &&& 0 <= i
    &&& i + 6 <= s.len()
    &&& s[i] == '&'
    &&& s[i + 1] == 'a'
    &&& s[i + 2] == 'p'
    &&& s[i + 3] == 'o'
    &&& s[i + 4] == 's'
    &&& s[i + 5] == ';'
}

/// Whether `&lt;` starts at index `i`.
pub open spec fn lt_at(s: Seq<char>, i: int) -> bool {
    &&& 0 <= i
    &&& i + 4 <= s.len()
    &&& s[i] == '&'
    &&& s[i + 1] == 'l'
    &&& s[i + 2] == 't'
    &&& s[i + 3] == ';'
}

/// Whether `&gt;` starts at index `i`.
pub open spec fn gt_at(s: Seq<char>, i: int) -> bool {
    &&& 0 <= i
    &&& i + 4 <= s.len()
    &&& s[i] == '&'
    &&& s[i + 1] == 'g'
    &&& s[i + 2] == 't'
    &&& s[i + 3] == ';'
}

/// Whether `&amp;` starts at index `i`.
pub open spec fn amp_at(s: Seq<char>, i: int) -> bool {
    &&& 0 <= i
    &&& i + 5 <= s.len()
    &&& s[i] == '&'
    &&& s[i + 1] == 'a'
    &&& s[i + 2] == 'm'
    &&& s[i + 3] == 'p'
    &&& s[i + 4] == ';'
}

/// Whether one of the five recognized entity references starts at index `i`.
pub open spec fn entity_at(s: Seq<char>, i: int) -> bool {
    quot_at(s, i) || apos_at(s, i) || lt_at(s, i) || gt_at(s, i) || amp_at(s, i)
}

/// Whether the text contains any of the five recognized entity references.
pub open spec fn contains_entity(s: Seq<char>) -> bool {
    exists|i: int| entity_at(s, i)
}

/// The text from index `i` on, with every recognized entity reference
/// replaced by its literal character.
pub open spec fn decode_from(s: Seq<char>, i: int) -> Seq<char>
    decreases s.len() - i,
{
    if i < 0 || i >= s.len() {
        Seq::empty()
    } else if quot_at(s, i) {
        seq!['"'] + decode_from(s, i + 6)
    } else if apos_at(s, i) {
        seq!['\''] + decode_from(s, i + 6)
    } else if lt_at(s, i) {
        seq!['<'] + decode_from(s, i + 4)
    } else if gt_at(s, i) {
        seq!['>'] + decode_from(s, i + 4)
    } else if amp_at(s, i) {
        seq!['&'] + decode_from(s, i + 5)
    } else {
        seq![s[i]] + decode_from(s, i + 1)
    }
}

/// The text with every recognized entity reference replaced by its literal
/// character, in a single left-to-right pass.
pub open spec fn decode_entities(s: Seq<char>) -> Seq<char> {
    decode_from(s, 0)
}

/// In text without entity references, every suffix decodes to itself.
pub proof fn lemma_decode_from_identity(s: Seq<char>, i: int)
    requires
        !contains_entity(s),
        0 <= i <= s.len(),
    ensures
        decode_from(s, i) == s.skip(i),
    decreases s.len() - i,
{
    if i < s.len() {
        assert(!entity_at(s, i));
        lemma_decode_from_identity(s, i + 1);
        assert(seq![s[i]] + s.skip(i + 1) =~= s.skip(i));
    } else {
        assert(s.skip(i) =~= Seq::<char>::empty());
    }
}

/// Decoding text that holds no recognized entity reference returns it
/// unchanged.
pub proof fn lemma_decode_without_entities(s: Seq<char>)
    requires
        !contains_entity(s),
    ensures
        decode_entities(s) == s,
{
    lemma_decode_from_identity(s, 0);
    assert(s.skip(0) =~= s);
}

/// The entity reference starting at character `i`, if any, as the literal
/// replacement text and the reference's length in characters.
fn entity_replacement_at(s: &str, i: usize, n: usize) -> (r: Option<(&'static str, usize)>)
    requires
        n == s@.len(),
        i < n,
    ensures
        r is Some <==> entity_at(s@, i as int),
        r matches Some(p) ==> 4 <= p.1 && i + p.1 <= n && decode_from(s@, i as int) == p.0@ + decode_from(
            s@,
            i as int + p.1,
        ),
{
    if s.get_char(i) != '&' {
        return None;
    }
    if n - i >= 6 && s.get_char(i + 1) == 'q' && s.get_char(i + 2) == 'u' && s.get_char(i + 3)
        == 'o' && s.get_char(i + 4) == 't' && s.get_char(i + 5) == ';' {
        proof {
            reveal_strlit("\"");
            assert(quot_at(s@, i as int));
            assert(("\"")@ =~= seq!['"']);
        }
        return Some(("\"", 6));
    }
    if n - i >= 6 && s.get_char(i + 1) == 'a' && s.get_char(i + 2) == 'p' && s.get_char(i + 3)
        == 'o' && s.get_char(i + 4) == 's' && s.get_char(i + 5) == ';' {
        proof {
            reveal_strlit("'");
            assert(apos_at(s@, i as int));
            assert(("'")@ =~= seq!['\'']);
        }
        return Some(("'", 6));
    }
    if n - i >= 4 && s.get_char(i + 1) == 'l' && s.get_char(i + 2) == 't' && s.get_char(i + 3)
        == ';' {
        proof {
            reveal_strlit("<");
            assert(lt_at(s@, i as int));
            assert(("<")@ =~= seq!['<']);
        }
        return Some(("<", 4));
    }
    if n - i >= 4 && s.get_char(i + 1) == 'g' && s.get_char(i + 2) == 't' && s.get_char(i + 3)
        == ';' {
        proof {
            reveal_strlit(">");
            assert(gt_at(s@, i as int));
            assert((">")@ =~= seq!['>']);
        }
        return Some((">", 4));
    }
    if n - i >= 5 && s.get_char(i + 1) == 'a' && s.get_char(i + 2) == 'm' && s.get_char(i + 3)
        == 'p' && s.get_char(i + 4) == ';' {
        proof {
            reveal_strlit("&");
            assert(amp_at(s@, i as int));
            assert(("&")@ =~= seq!['&']);
        }
        return Some(("&", 5));
    }
    proof {
        assert(!entity_at(s@, i as int));
    }
    None
}

/// Whether the text contains any of the five recognized entity references.
pub fn has_special_symbol(xml_string: &str) -> (r: bool)
    ensures
        r == contains_entity(xml_string@),
{
    let n = xml_string.unicode_len();
    let mut i: usize = 0;
    while i < n
        invariant
            n == xml_string@.len(),
            0 <= i <= n,
            forall|j: int| 0 <= j < i ==> !entity_at(xml_string@, j),
        decreases n - i,
    {
        if entity_replacement_at(xml_string, i, n).is_some() {
            return true;
        }
        i = i + 1;
    }
    proof {
        assert forall|j: int| !entity_at(xml_string@, j) by {
            if 0 <= j < n {
                assert(!entity_at(xml_string@, j));
            }
        }
    }
    false
}

/// Decode the five recognized entity references in a single left-to-right
/// pass; all other text is returned unchanged.
pub fn decode_xml_string(xml_string: &str) -> (r: String)
    ensures
        r@ == decode_entities(xml_string@),
{
    let n = xml_string.unicode_len();
    let mut result = String::new();
    let mut i: usize = 0;
    while i < n
        invariant
            n == xml_string@.len(),
            0 <= i <= n,
            decode_entities(xml_string@) == result@ + decode_from(xml_string@, i as int),
        decreases n - i,
    {
        let ghost prev = result@;
        match entity_replacement_at(xml_string, i, n) {
            Some(replacement) => {
                result.append(replacement.0);
                proof {
                    assert((prev + replacement.0@) + decode_from(xml_string@, i + replacement.1)
                        =~= prev + (replacement.0@ + decode_from(xml_string@, i + replacement.1)));
                }
                i = i + replacement.1;
            },
            None => {
                let c = xml_string.substring_char(i, i + 1);
                result.append(c);
                proof {
                    assert(c@ =~= seq![xml_string@[i as int]]);
                    assert((prev + c@) + decode_from(xml_string@, i + 1) =~= prev + (c@
                        + decode_from(xml_string@, i + 1)));
                }
                i = i + 1;
            },
        }
    }
    proof {
        assert(decode_from(xml_string@, n as int) =~= Seq::<char>::empty());
        assert(result@ + Seq::<char>::empty() =~= result@);
    }
    result
}

/// Where the root element starts: the first `<` of the buffer, or, when
/// that `<` opens a `<?...?>` header, the first `<` after the header.
pub open spec fn spec_start_pos(s: Seq<u8>) -> Result<int, ErrSpec> {
    match find_from(s, OPEN_TAG_TOKEN, 0) {
        None => Err(ErrSpec::NoOpeningTag),
        Some(p) => if p + 1 < s.len() && s[p + 1] == QUESTION_MARK_TOKEN {
            match find_header_end(s, p) {
                None => Err(ErrSpec::UnterminatedHeader),
                Some(h) => match find_from(s, OPEN_TAG_TOKEN, h + 2) {
                    None => Err(ErrSpec::MissingRootAfterHeader),
                    Some(r) => Ok(r),
                },
            }
        } else {
            Ok(p)
        },
    }
}

/// Locate the root element's opening `<`, skipping anything before the
/// first `<` and one optional `<?...?>` header.
pub fn init_pos_start(xml: &[u8]) -> (r: Result<usize, XmlError>)
    ensures
        match r {
            Ok(p) => spec_start_pos(xml@) == Ok::<int, ErrSpec>(p as int) && p < xml@.len()
                && xml@[p as int] == OPEN_TAG_TOKEN,
            Err(e) => spec_start_pos(xml@) matches Err(em) && crate::errors::err_matches(e, em),
        },
{
    proof {
        lemma_find_from_bounds(xml@, OPEN_TAG_TOKEN, 0);
    }
    let n = xml.len();
    let first = find_next_token(xml, OPEN_TAG_TOKEN, 0);
    match first {
        None => Err(XmlError::NoOpeningTag),
        Some(p) => {
            assert(p < xml@.len());
            if p + 1 < n && xml[p + 1] == QUESTION_MARK_TOKEN {
                proof {
                    lemma_find_header_end_bounds(xml@, p as int);
                }
                match find_next_header_end(xml, p) {
                    None => Err(XmlError::UnterminatedHeader),
                    Some(h) => {
                        proof {
                            lemma_find_from_bounds(xml@, OPEN_TAG_TOKEN, h + 2);
                        }
                        match find_next_token(xml, OPEN_TAG_TOKEN, h + 2) {
                            None => Err(XmlError::MissingRootAfterHeader),
                            Some(root) => Ok(root),
                        }
                    },
                }
            } else {
                Ok(p)
            }
        },
    }
}

} // verus!
