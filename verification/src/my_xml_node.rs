//! A matched element and the read-only views it offers over the buffer.

use vstd::prelude::*;
use vstd::string::StringSliceAdditionalSpecFns;
use vstd::utf8::decode_utf8;
use vstd::utf8::encode_utf8_decode_utf8;
use vstd::utf8::valid_utf8;

use crate::errors::XmlError;
use crate::text::bytes_to_str;
use crate::xml_tag_info::XmlTagInfo;
use crate::xml_utils::{
    decode_entities, decode_xml_string, has_special_symbol, lemma_decode_without_entities,
};

verus! {

/// A matched element: its open tag and, unless the element is
/// self-closing, its matching close tag, both over the same buffer.
#[derive(Debug)]
pub struct MyXmlNode<'t> {
    pub xml: &'t [u8],
    pub open_node: XmlTagInfo<'t>,
    pub close_node: Option<XmlTagInfo<'t>>,
}

impl<'t> MyXmlNode<'t> {
    /// Both tags lie inside the buffer, and the close tag, when present,
    /// starts strictly after the open tag ends.
    pub open spec fn inv(self) -> bool {
        &&& self.open_node.start_pos <= self.open_node.end_pos
        &&& (self.open_node.end_pos as int) < self.xml@.len()
        &&& match self.close_node {
            Some(c) => self.open_node.end_pos < c.start_pos <= c.end_pos && (
            c.end_pos as int) < self.xml@.len(),
            None => true,
        }
    }

    /// The bytes strictly between the open tag and the close tag, or
    /// nothing for a self-closing element.
    pub open spec fn inner_span(self) -> Option<Seq<u8>> {
        match self.close_node {
            Some(c) => Some(
                self.xml@.subrange(self.open_node.end_pos + 1, c.start_pos as int),
            ),
            None => None,
        }
    }

    /// The raw bytes of the whole element, from the open tag's `<` through
    /// the close tag's `>`, or just the open tag for a self-closing
    /// element.
    pub open spec fn xml_span(self) -> Seq<u8> {
        match self.close_node {
            Some(c) => self.xml@.subrange(self.open_node.start_pos as int, c.end_pos + 1),
            None => self.xml@.subrange(
                self.open_node.start_pos as int,
                self.open_node.end_pos + 1,
            ),
        }
    }

    /// The element's name.
    pub fn get_node_name(&self) -> (r: &'t str)
        ensures
            r@ == self.open_node.name@,
            r.spec_bytes() == self.open_node.name.spec_bytes(),
    {
        self.open_node.name
    }

    /// The content between the open and close tags; `None` exactly when
    /// the element is self-closing.
    pub fn get_inner_content(&self) -> (r: Option<&'t [u8]>)
        requires
            self.inv(),
        ensures
            match r {
                Some(c) => self.inner_span() matches Some(sp) && c@ == sp,
                None => self.close_node is None,
            },
    {
        match &self.close_node {
            Some(close_node) => {
                let x: &'t [u8] = self.xml;
                Some(&x[self.open_node.end_pos + 1..close_node.start_pos])
            },
            None => None,
        }
    }

    /// The element's text content, decoded: each of the five recognized
    /// entity references is replaced by its literal character. `Ok(None)`
    /// exactly for a self-closing element; content that is not valid UTF-8
    /// is reported, never guessed at.
    pub fn get_value(&self) -> (r: Result<Option<String>, XmlError>)
        requires
            self.inv(),
        ensures
            match r {
                Ok(v) => match self.inner_span() {
                    Some(sp) => {
                        &&& valid_utf8(sp)
                        &&& v matches Some(text) && text@ == decode_entities(decode_utf8(sp))
                    },
                    None => v is None,
                },
                Err(e) => {
                    &&& e is InvalidEncoding
                    &&& self.inner_span() matches Some(sp) && !valid_utf8(sp)
                },
            },
    {
        let inner_content = match self.get_inner_content() {
            Some(c) => c,
            None => {
                return Ok(None);
            },
        };
        let value = match bytes_to_str(inner_content) {
            Some(v) => v,
            None => {
                return Err(XmlError::InvalidEncoding);
            },
        };
        proof {
            encode_utf8_decode_utf8(value@);
        }
        if has_special_symbol(value) {
            Ok(Some(decode_xml_string(value)))
        } else {
            proof {
                lemma_decode_without_entities(value@);
            }
            Ok(Some(value.to_owned()))
        }
    }

    /// The raw text of the whole element: exactly the corresponding region
    /// of the source buffer.
    pub fn get_xml(&self) -> (r: Result<&'t str, XmlError>)
        requires
            self.inv(),
        ensures
            match r {
                Ok(u) => valid_utf8(self.xml_span()) && u.spec_bytes() == self.xml_span(),
                Err(e) => e is InvalidEncoding && !valid_utf8(self.xml_span()),
            },
    {
        let x: &'t [u8] = self.xml;
        let _buffer_len = x.len();
        let raw = match &self.close_node {
            Some(close_node) => &x[self.open_node.start_pos..close_node.end_pos + 1],
            None => &x[self.open_node.start_pos..self.open_node.end_pos + 1],
        };
        match bytes_to_str(raw) {
            Some(u) => Ok(u),
            None => Err(XmlError::InvalidEncoding),
        }
    }
}

} // verus!
