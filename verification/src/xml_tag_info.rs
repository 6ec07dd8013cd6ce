//! One scanned tag occurrence and its mathematical model.

use vstd::prelude::*;
use vstd::string::StringSliceAdditionalSpecFns;
use vstd::utf8::valid_utf8;

use crate::errors::XmlError;
use crate::text::bytes_to_str;
use crate::xml_utils::tag_name_bytes;
use crate::SLASH_TOKEN;

verus! {

/// How a tag closes: `<x>` opens, `</x>` closes, `<x/>` does both.
#[derive(Debug, Clone, Copy)]
pub enum XmlTagType {
    Open,
    Close,
    OpenClose,
}

/// One scanned tag occurrence. `start_pos` and `end_pos` are the absolute
/// offsets of the leading `<` and the trailing `>`; `raw` is the whole tag
/// including both delimiters; `level` is the nesting depth of the element
/// this tag belongs to.
#[derive(Debug)]
pub struct XmlTagInfo<'t> {
    pub name: &'t str,
    pub raw: &'t [u8],
    pub tag_type: XmlTagType,
    pub start_pos: usize,
    pub end_pos: usize,
    pub level: usize,
}

/// The mathematical image of a scanned tag: positions as integers and the
/// name as the bytes it was read from.
pub struct TagModel {
    pub start: int,
    pub end: int,
    pub kind: XmlTagType,
    pub name: Seq<u8>,
    pub level: int,
}

/// The raw bytes of the tag spanning `start..=end` in the buffer.
pub open spec fn raw_of(s: Seq<u8>, start: int, end: int) -> Seq<u8> {
    s.subrange(start, end + 1)
}

/// The classification of the tag spanning `start..=end`: self-closing when
/// the byte before `>` is `/`, a close tag when the byte after `<` is `/`,
/// otherwise an open tag.
pub open spec fn kind_at(s: Seq<u8>, start: int, end: int) -> XmlTagType {
    if s[end - 1] == SLASH_TOKEN {
        XmlTagType::OpenClose
    } else if s[start + 1] == SLASH_TOKEN {
        XmlTagType::Close
    } else {
        XmlTagType::Open
    }
}

/// The name bytes of the tag spanning `start..=end`.
pub open spec fn name_bytes_at(s: Seq<u8>, start: int, end: int) -> Seq<u8> {
    tag_name_bytes(raw_of(s, start, end))
}

impl<'t> XmlTagInfo<'t> {
    /// Whether this tag is the executable image of the modelled tag `tm`
    /// read out of the buffer `s`.
    pub open spec fn models(self, s: Seq<u8>, tm: TagModel) -> bool {
        &&& self.start_pos as int == tm.start
        &&& self.end_pos as int == tm.end
        &&& self.tag_type == tm.kind
        &&& self.level as int == tm.level
        &&& self.name.spec_bytes() == tm.name
        &&& self.raw@ == raw_of(s, tm.start, tm.end)
    }

    /// Whether two tag values carry the same data.
    pub open spec fn same_tag(self, other: XmlTagInfo) -> bool {
        &&& self.name@ == other.name@
        &&& self.name.spec_bytes() == other.name.spec_bytes()
        &&& self.raw@ == other.raw@
        &&& self.tag_type == other.tag_type
        &&& self.start_pos == other.start_pos
        &&& self.end_pos == other.end_pos
        &&& self.level == other.level
    }

    /// The raw tag bytes as text.
    pub fn raw_as_string(&self) -> (r: Result<&'t str, XmlError>)
        ensures
            match r {
                Ok(t) => valid_utf8(self.raw@) && t.spec_bytes() == self.raw@,
                Err(e) => e is InvalidEncoding && !valid_utf8(self.raw@),
            },
    {
        match bytes_to_str(self.raw) {
            Some(t) => Ok(t),
            None => Err(XmlError::InvalidEncoding),
        }
    }
}

} // verus!
