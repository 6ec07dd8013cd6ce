use my_xml_reader::xml_utils::init_pos_start;
use my_xml_reader::AttributesIterator;
use my_xml_reader::MyXmlReader;
use my_xml_reader::XmlError;

#[test]
fn buffer_without_tags_has_no_opening_tag() {
    assert_eq!(XmlError::NoOpeningTag, init_pos_start(b"no markup at all").unwrap_err());
    assert_eq!(XmlError::NoOpeningTag, init_pos_start(b"").unwrap_err());
    assert!(MyXmlReader::from_slice(b"words").is_err());
}

#[test]
fn header_without_terminator_is_unterminated() {
    assert_eq!(XmlError::UnterminatedHeader, init_pos_start(b"<?xml version=\"1.0\"").unwrap_err());
}

#[test]
fn header_without_root_is_missing_root() {
    assert_eq!(XmlError::MissingRootAfterHeader, init_pos_start(b"<?xml?>  ").unwrap_err());
}

#[test]
fn text_after_last_tag_has_no_next_open_tag() {
    let mut reader = MyXmlReader::from_slice(b"<a/>trailing text").unwrap();
    reader.read_next_tag().unwrap();
    assert_eq!(XmlError::NoNextOpenTag, reader.read_next_tag().unwrap_err());
}

#[test]
fn tag_without_closing_delimiter_is_unterminated() {
    let mut reader = MyXmlReader::from_slice(b"<a attr").unwrap();
    assert_eq!(XmlError::UnterminatedTag, reader.read_next_tag().unwrap_err());
}

#[test]
fn close_tag_with_empty_stack_is_unexpected() {
    let mut reader = MyXmlReader::from_slice(b"</a>").unwrap();
    assert_eq!(XmlError::UnexpectedCloseTag, reader.read_next_tag().unwrap_err());
}

#[test]
fn close_tag_with_wrong_name_is_mismatched() {
    let mut reader = MyXmlReader::from_slice(b"<a></b>").unwrap();
    reader.read_next_tag().unwrap();
    assert_eq!(
        XmlError::MismatchedCloseTag { expected: "a".to_string(), found: "b".to_string() },
        reader.read_next_tag().unwrap_err()
    );
}

#[test]
fn exhausted_buffer_is_unmatched_close_tag() {
    let mut reader = MyXmlReader::from_slice(b"<a><b></b>").unwrap();
    let open = reader.read_next_tag().unwrap().unwrap();
    assert_eq!(
        XmlError::UnmatchedCloseTag { name: "a".to_string(), level: 0 },
        reader.read_the_whole_node(open).unwrap_err()
    );
}

#[test]
fn attribute_without_equals_is_malformed() {
    let mut attrs = AttributesIterator::new(b"<a attr");
    assert_eq!(XmlError::MalformedAttribute, attrs.get_next().unwrap_err());
}

#[test]
fn attribute_with_no_room_for_value_is_malformed() {
    let mut attrs = AttributesIterator::new(b"<a x=");
    assert_eq!(XmlError::MalformedAttribute, attrs.get_next().unwrap_err());
}

#[test]
fn undecodable_value_is_invalid_encoding() {
    let mut data = Vec::new();
    data.extend_from_slice(b"<a>");
    data.push(0xFF);
    data.extend_from_slice(b"</a>");
    let mut reader = MyXmlReader::from_slice(&data).unwrap();
    let open = reader.read_next_tag().unwrap().unwrap();
    let node = reader.read_the_whole_node(open).unwrap();
    assert_eq!(XmlError::InvalidEncoding, node.get_value().unwrap_err());
}

#[test]
fn undecodable_remainder_is_invalid_encoding() {
    let mut data = Vec::new();
    data.extend_from_slice(b"<a/>");
    data.push(0xFE);
    let mut reader = MyXmlReader::from_slice(&data).unwrap();
    reader.read_next_tag().unwrap();
    assert_eq!(XmlError::InvalidEncoding, reader.get_unread_slice().unwrap_err());
}

#[test]
fn undecodable_tag_name_is_invalid_encoding() {
    let mut data = Vec::new();
    data.push(b'<');
    data.push(0xC0);
    data.push(b'>');
    let mut reader = MyXmlReader::from_slice(&data).unwrap();
    assert_eq!(XmlError::InvalidEncoding, reader.read_next_tag().unwrap_err());
}
