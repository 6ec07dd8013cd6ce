//! The closed set of errors that scanning and navigation can report.
//!
//! Every operation either succeeds, reports an explicit "not found", or
//! returns one of these errors; nothing in the library panics.

use vstd::prelude::*;
use vstd::utf8::encode_utf8;

verus! {

/// An error from scanning or navigating a document.
#[derive(Debug, PartialEq, Eq)]
pub enum XmlError {
    /// The buffer contains no `<` at all.
    NoOpeningTag,
    /// A `<?...?>` header has no terminating `?>`.
    UnterminatedHeader,
    /// No `<` follows a terminated `<?...?>` header.
    MissingRootAfterHeader,
    /// The scanner expected another tag before the end of the buffer but
    /// found none.
    NoNextOpenTag,
    /// A tag's `<` has no matching `>`.
    UnterminatedTag,
    /// A close tag was met while no element was open.
    UnexpectedCloseTag,
    /// A close tag's name differs from the most recently opened element.
    MismatchedCloseTag { expected: String, found: String },
    /// The buffer ended before the close tag with this name and level.
    UnmatchedCloseTag { name: String, level: usize },
    /// An attribute segment lacks the expected `=`.
    MalformedAttribute,
    /// Bytes are not valid UTF-8 at a point where text is interpreted.
    InvalidEncoding,
}

/// The mathematical image of an [`XmlError`]: names are carried as the
/// byte sequences they were read from.
pub enum ErrSpec {
    NoOpeningTag,
    UnterminatedHeader,
    MissingRootAfterHeader,
    NoNextOpenTag,
    UnterminatedTag,
    UnexpectedCloseTag,
    MismatchedCloseTag { expected: Seq<u8>, found: Seq<u8> },
    UnmatchedCloseTag { name: Seq<u8>, level: int },
    MalformedAttribute,
    InvalidEncoding,
}

/// Whether the executable error `e` denotes the modelled error `m`.
pub open spec fn err_matches(e: XmlError, m: ErrSpec) -> bool {
    match m {
        ErrSpec::NoOpeningTag => e is NoOpeningTag,
        ErrSpec::UnterminatedHeader => e is UnterminatedHeader,
        ErrSpec::MissingRootAfterHeader => e is MissingRootAfterHeader,
        ErrSpec::NoNextOpenTag => e is NoNextOpenTag,
        ErrSpec::UnterminatedTag => e is UnterminatedTag,
        ErrSpec::UnexpectedCloseTag => e is UnexpectedCloseTag,
        ErrSpec::MismatchedCloseTag { expected, found } => {
            &&& e matches XmlError::MismatchedCloseTag { expected: ee, found: ef }
            &&& encode_utf8(ee@) == expected
            &&& encode_utf8(ef@) == found
        },
        ErrSpec::UnmatchedCloseTag { name, level } => {
            &&& e matches XmlError::UnmatchedCloseTag { name: en, level: el }
            &&& encode_utf8(en@) == name
            &&& el as int == level
        },
        ErrSpec::MalformedAttribute => e is MalformedAttribute,
        ErrSpec::InvalidEncoding => e is InvalidEncoding,
    }
}

} // verus!
