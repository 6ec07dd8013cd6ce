//! Lazy parsing of `name="value"` pairs out of a tag's raw byte span.

use vstd::prelude::*;
use vstd::string::StringSliceAdditionalSpecFns;
use vstd::utf8::valid_utf8;

use crate::errors::XmlError;
use crate::text::bytes_to_str;
use crate::CLOSE_TAG_TOKEN;
use crate::EQUALS_TOKEN;
use crate::ESCAPE_TOKEN;
use crate::QUOTE_TOKEN;
use crate::SLASH_TOKEN;
use crate::SPACE_TOKEN;

verus! {

/// Where iteration starts inside a raw tag: the tag name is skipped, then
/// any spaces; a `/` or `>` met on the way means the tag carries no
/// attributes and the start is the end of the span.
pub open spec fn attr_start_from(s: Seq<u8>, i: int, found_space: bool) -> int
    decreases s.len() - i,
{
    if i < 0 || i >= s.len() {
        s.len() as int
    } else if found_space {
        if s[i] == SLASH_TOKEN || s[i] == CLOSE_TAG_TOKEN {
            s.len() as int
        } else if s[i] == SPACE_TOKEN {
            attr_start_from(s, i + 1, true)
        } else {
            i
        }
    } else {
        if s[i] == SPACE_TOKEN {
            attr_start_from(s, i + 1, true)
        } else if s[i] == SLASH_TOKEN || s[i] == CLOSE_TAG_TOKEN {
            s.len() as int
        } else {
            attr_start_from(s, i + 1, false)
        }
    }
}

/// What scanning for the `=` of an attribute meets first: the `=` itself,
/// a `>` or `/` ending the tag, or the end of the span.
pub enum EqScan {
    FoundEq(int),
    Stopped(int),
    RanOut,
}

/// Scan from `i` for the first byte among `=`, `>` and `/`.
pub open spec fn eq_scan_from(s: Seq<u8>, i: int) -> EqScan
    decreases s.len() - i,
{
    if i < 0 || i >= s.len() {
        EqScan::RanOut
    } else if s[i] == EQUALS_TOKEN {
        EqScan::FoundEq(i)
    } else if s[i] == CLOSE_TAG_TOKEN || s[i] == SLASH_TOKEN {
        EqScan::Stopped(i)
    } else {
        eq_scan_from(s, i + 1)
    }
}

/// The first index at or after `i` holding something other than a space,
/// or the end of the span.
pub open spec fn skip_spaces_from(s: Seq<u8>, i: int) -> int
    decreases s.len() - i,
{
    if i < 0 || i >= s.len() {
        s.len() as int
    } else if s[i] == SPACE_TOKEN {
        skip_spaces_from(s, i + 1)
    } else {
        i
    }
}

/// The index of the quote that closes an attribute value: quotes are
/// counted from `i`, a `\` makes the next byte count for nothing, and the
/// second quote ends the value. Without one, the end of the span.
pub open spec fn quote_end_from(s: Seq<u8>, i: int, seen_one: bool, escaped: bool) -> int
    decreases s.len() - i,
{
    if i < 0 || i >= s.len() {
        s.len() as int
    } else if escaped {
        quote_end_from(s, i + 1, seen_one, false)
    } else if s[i] == QUOTE_TOKEN {
        if seen_one {
            i
        } else {
            quote_end_from(s, i + 1, true, false)
        }
    } else if s[i] == ESCAPE_TOKEN {
        quote_end_from(s, i + 1, seen_one, true)
    } else {
        quote_end_from(s, i + 1, seen_one, false)
    }
}

/// What one attribute extraction from `from` produces: a `>` or `/` before
/// any `=` means the tag has no more attributes; a span that ends before
/// `=`, `>` or `/`, or an `=` with no room for a value, is malformed;
/// otherwise a name/value pair with the index where the next extraction
/// starts.
pub enum AttrOutcome {
    Done,
    NoPair { next: int },
    Missing,
    TruncatedValue,
    Pair { name_lo: int, name_hi: int, value_lo: int, value_hi: int, next: int },
}

/// Extract one attribute from `from`, ignoring the iteration-finished
/// checks.
pub open spec fn extract_at(s: Seq<u8>, from: int) -> AttrOutcome {
    match eq_scan_from(s, from) {
        EqScan::RanOut => AttrOutcome::Missing,
        EqScan::Stopped(j) => AttrOutcome::NoPair { next: j },
        EqScan::FoundEq(eq) => {
            let e = quote_end_from(s, eq + 1, false, false);
            if eq + 2 > e {
                AttrOutcome::TruncatedValue
            } else {
                AttrOutcome::Pair {
                    name_lo: skip_spaces_from(s, from),
                    name_hi: eq,
                    value_lo: eq + 2,
                    value_hi: e,
                    next: if e + 1 <= s.len() {
                        e + 1
                    } else {
                        s.len() as int
                    },
                }
            }
        },
    }
}

/// One call of the iterator: finished when the position is at the end of
/// the span or on `/` or `>`, one extraction otherwise.
pub open spec fn attr_step(s: Seq<u8>, pos: int) -> AttrOutcome {
    if pos >= s.len() || s[pos] == SLASH_TOKEN || s[pos] == CLOSE_TAG_TOKEN {
        AttrOutcome::Done
    } else {
        extract_at(s, pos)
    }
}

/// One parsed attribute, or `None` when the segment held no pair, and how
/// many bytes the extraction consumed.
pub struct FoundTagData<'s> {
    pub key_value: Option<(&'s str, &'s str)>,
    pub len: usize,
}

/// Find where iteration starts inside the raw tag span.
fn find_start_of_attribute(data: &[u8]) -> (r: usize)
    ensures
        r as int == attr_start_from(data@, 0, false),
        r <= data@.len(),
{
    let n = data.len();
    let mut i: usize = 0;
    let mut found_space = false;
    while i < n
        invariant
            n == data@.len(),
            0 <= i <= n,
            attr_start_from(data@, 0, false) == attr_start_from(data@, i as int, found_space),
        decreases n - i,
    {
        let b = data[i];
        if found_space {
            if b == SLASH_TOKEN || b == CLOSE_TAG_TOKEN {
                return n;
            }
            if b != SPACE_TOKEN {
                return i;
            }
        } else {
            if b == SPACE_TOKEN {
                found_space = true;
            } else if b == SLASH_TOKEN || b == CLOSE_TAG_TOKEN {
                return n;
            }
        }
        i = i + 1;
    }
    n
}

/// Scan from `from` for the first byte among `=`, `>` and `/`.
fn scan_for_eq(src: &[u8], from: usize) -> (r: Option<(usize, bool)>)
    ensures
        match r {
            Some(p) => {
                &&& from <= p.0 < src@.len()
                &&& if p.1 {
                    &&& eq_scan_from(src@, from as int) == EqScan::FoundEq(p.0 as int)
                    &&& src@[p.0 as int] == EQUALS_TOKEN
                } else {
                    eq_scan_from(src@, from as int) == EqScan::Stopped(p.0 as int)
                }
            },
            None => eq_scan_from(src@, from as int) is RanOut,
        },
{
    let n = src.len();
    let mut i = from;
    while i < n
        invariant
            n == src@.len(),
            from <= i,
            eq_scan_from(src@, from as int) == eq_scan_from(src@, i as int),
        decreases n - i,
    {
        let b = src[i];
        if b == EQUALS_TOKEN {
            return Some((i, true));
        }
        if b == CLOSE_TAG_TOKEN || b == SLASH_TOKEN {
            return Some((i, false));
        }
        i = i + 1;
    }
    None
}

/// The first index at or after `from` holding something other than a
/// space.
fn skip_spaces(src: &[u8], from: usize) -> (r: usize)
    ensures
        r as int == skip_spaces_from(src@, from as int),
        r <= src@.len(),
        from <= src@.len() ==> from <= r,
        forall|k: int| from <= k < r ==> src@[k] == SPACE_TOKEN,
{
    let n = src.len();
    if from >= n {
        return n;
    }
    let mut i = from;
    while i < n
        invariant
            n == src@.len(),
            from <= i <= n,
            skip_spaces_from(src@, from as int) == skip_spaces_from(src@, i as int),
            forall|k: int| from <= k < i ==> src@[k] == SPACE_TOKEN,
        decreases n - i,
    {
        if src[i] != SPACE_TOKEN {
            return i;
        }
        i = i + 1;
    }
    n
}

/// Find the quote that closes the attribute value started after `from`.
fn find_quote_end(src: &[u8], from: usize) -> (r: usize)
    ensures
        r as int == quote_end_from(src@, from as int, false, false),
        r <= src@.len(),
        from <= src@.len() ==> from <= r,
{
    let n = src.len();
    if from >= n {
        return n;
    }
    let mut i = from;
    let mut seen_one = false;
    let mut escaped = false;
    while i < n
        invariant
            n == src@.len(),
            from <= i <= n,
            quote_end_from(src@, from as int, false, false) == quote_end_from(
                src@,
                i as int,
                seen_one,
                escaped,
            ),
        decreases n - i,
    {
        let b = src[i];
        if escaped {
            escaped = false;
        } else if b == QUOTE_TOKEN {
            if seen_one {
                return i;
            }
            seen_one = true;
        } else if b == ESCAPE_TOKEN {
            escaped = true;
        }
        i = i + 1;
    }
    n
}

/// Extract one attribute from the span, starting at `from`: the name runs
/// from the first non-space byte to the `=`, the value sits after the `=`
/// inside one pair of quote bytes and is returned as its raw text, entity
/// references untouched.
fn extract_attr_and_value<'s>(src: &'s [u8], from: usize) -> (r: Result<
    FoundTagData<'s>,
    XmlError,
>)
    ensures
        r matches Ok(d) ==> from + d.len <= src@.len(),
        match extract_at(src@, from as int) {
            AttrOutcome::Missing => r matches Err(e) && e is MalformedAttribute,
            AttrOutcome::TruncatedValue => r matches Err(e) && e is MalformedAttribute,
            AttrOutcome::NoPair { next } => r matches Ok(d) && d.key_value is None && from
                + d.len == next,
            AttrOutcome::Pair { name_lo, name_hi, value_lo, value_hi, next } => {
                if valid_utf8(src@.subrange(name_lo, name_hi)) && valid_utf8(
                    src@.subrange(value_lo, value_hi),
                ) {
                    &&& r matches Ok(d)
                    &&& d.key_value matches Some(kv) && kv.0.spec_bytes() == src@.subrange(
                        name_lo,
                        name_hi,
                    ) && kv.1.spec_bytes() == src@.subrange(value_lo, value_hi)
                    &&& from + d.len == next
                } else {
                    r matches Err(e) && e is InvalidEncoding
                }
            },
            AttrOutcome::Done => true,
        },
{
    let n = src.len();
    let scan = scan_for_eq(src, from);
    let (eq_pos, is_eq) = match scan {
        Some(p) => p,
        None => {
            return Err(XmlError::MalformedAttribute);
        },
    };
    if !is_eq {
        return Ok(FoundTagData { key_value: None, len: eq_pos - from });
    }
    let end_pos = find_quote_end(src, eq_pos + 1);
    if end_pos - eq_pos < 2 {
        return Err(XmlError::MalformedAttribute);
    }
    let attr_start = skip_spaces(src, from);
    assert(attr_start <= eq_pos);
    let name_b = &src[attr_start..eq_pos];
    let value_b = &src[eq_pos + 2..end_pos];
    let name = match bytes_to_str(name_b) {
        Some(v) => v,
        None => {
            return Err(XmlError::InvalidEncoding);
        },
    };
    let value = match bytes_to_str(value_b) {
        Some(v) => v,
        None => {
            return Err(XmlError::InvalidEncoding);
        },
    };
    let consumed = if end_pos < n {
        end_pos + 1 - from
    } else {
        n - from
    };
    Ok(FoundTagData { key_value: Some((name, value)), len: consumed })
}

/// Lazy iterator over the `name="value"` pairs of one raw tag span.
pub struct AttributesIterator<'s> {
    pub data: &'s [u8],
    pub pos: usize,
}

impl<'s> AttributesIterator<'s> {
    /// The position never leaves the span.
    pub open spec fn wf(self) -> bool {
        self.pos <= self.data@.len()
    }

    /// Build an iterator over a raw tag span, delimiters included,
    /// positioned on the first attribute if the tag has any.
    pub fn new(data: &'s [u8]) -> (r: Self)
        ensures
            r.wf(),
            r.data@ == data@,
            r.pos as int == attr_start_from(data@, 0, false),
    {
        Self { data, pos: find_start_of_attribute(data) }
    }

    /// The next `name="value"` pair, or `Ok(None)` when the tag has no
    /// more attributes. The value is the raw text between its two quote
    /// bytes: entity references in attribute values are not decoded.
    pub fn get_next(&mut self) -> (r: Result<Option<(&'s str, &'s str)>, XmlError>)
        requires
            old(self).wf(),
        ensures
            final(self).wf(),
            final(self).data@ == old(self).data@,
            match attr_step(old(self).data@, old(self).pos as int) {
                AttrOutcome::Done => r matches Ok(o) && o is None && final(self).pos == old(self).pos,
                AttrOutcome::NoPair { next } => r matches Ok(o) && o is None && final(self).pos as int == next,
                AttrOutcome::Missing => r matches Err(e) && e is MalformedAttribute && final(self).pos == old(self).pos,
                AttrOutcome::TruncatedValue => r matches Err(e) && e is MalformedAttribute
                    && final(self).pos == old(self).pos,
                AttrOutcome::Pair { name_lo, name_hi, value_lo, value_hi, next } => {
                    if valid_utf8(old(self).data@.subrange(name_lo, name_hi)) && valid_utf8(
                        old(self).data@.subrange(value_lo, value_hi),
                    ) {
                        &&& r matches Ok(o)
                        &&& o matches Some(kv) && kv.0.spec_bytes() == old(self).data@.subrange(name_lo, name_hi) && kv.1.spec_bytes() == old(self).data@.subrange(value_lo, value_hi)
                        &&& final(self).pos as int == next
                    } else {
                        r matches Err(e) && e is InvalidEncoding && final(self).pos == old(self).pos
                    }
                },
            },
    {
        let pos = self.pos;
        if pos >= self.data.len() {
            return Ok(None);
        }
        if self.data[pos] == SLASH_TOKEN {
            return Ok(None);
        }
        if self.data[pos] == CLOSE_TAG_TOKEN {
            return Ok(None);
        }
        let result = match extract_attr_and_value(self.data, pos) {
            Ok(d) => d,
            Err(e) => {
                return Err(e);
            },
        };
        self.pos = pos + result.len;
        Ok(result.key_value)
    }
}

} // verus!
