//! A forward-only, zero-copy XML tokenizer and navigation engine.
//!
//! The library scans tags one at a time over an in-memory byte buffer,
//! tracks nesting depth with a stack of open tags, searches for child
//! elements by a `/`-separated path, and materializes the text and
//! attributes of a matched element without copying the source bytes,
//! except when decoding entity references.

use vstd::prelude::*;

pub mod attributes_iterator;
pub mod errors;
pub mod my_xml_node;
pub mod my_xml_reader;
pub mod text;
pub mod xml_tag_info;
pub mod xml_utils;

pub use attributes_iterator::AttributesIterator;
pub use attributes_iterator::FoundTagData;
pub use errors::XmlError;
pub use my_xml_node::MyXmlNode;
pub use my_xml_reader::MyXmlReader;
pub use my_xml_reader::OpenedNode;
pub use xml_tag_info::XmlTagInfo;
pub use xml_tag_info::XmlTagType;

verus! {

/// The byte that opens every tag: `<`.
pub const OPEN_TAG_TOKEN: u8 = 60;

/// The byte that closes every tag: `>`.
pub const CLOSE_TAG_TOKEN: u8 = 62;

/// The byte `/`, which marks close tags, self-closing tags, and separates
/// path segments.
pub const SLASH_TOKEN: u8 = 47;

/// The byte `?`, which delimits the `<?...?>` document header.
pub const QUESTION_MARK_TOKEN: u8 = 63;

/// The byte for a plain space.
pub const SPACE_TOKEN: u8 = 32;

/// The byte `=`, which separates an attribute name from its value.
pub const EQUALS_TOKEN: u8 = 61;

/// The byte `"`, which delimits an attribute value.
pub const QUOTE_TOKEN: u8 = 34;

/// The byte `\`, which escapes the next byte inside an attribute value.
pub const ESCAPE_TOKEN: u8 = 92;

} // verus!
