use my_xml_reader::xml_utils::decode_xml_string;
use my_xml_reader::xml_utils::find_next_token;
use my_xml_reader::xml_utils::has_special_symbol;
use my_xml_reader::AttributesIterator;
use my_xml_reader::MyXmlReader;
use my_xml_reader::XmlError;
use my_xml_reader::XmlTagType;

#[test]
fn tag_positions_index_delimiters() {
    let xml_src = "  <Root a=\"1\"><Leaf/></Root>";
    let bytes = xml_src.as_bytes();
    let mut reader = MyXmlReader::from_slice(bytes).unwrap();

    loop {
        let tag = reader.read_next_tag().unwrap();
        let tag = match tag {
            Some(t) => t,
            None => break,
        };
        assert_eq!(bytes[tag.start_pos], b'<');
        assert_eq!(bytes[tag.end_pos], b'>');
        assert_eq!(&bytes[tag.start_pos..tag.end_pos + 1], tag.raw);
    }
}

#[test]
fn whole_node_xml_is_source_substring() {
    let xml_src = "<Root><Mid>text</Mid><Tail/></Root>";
    let mut reader = MyXmlReader::from_slice(xml_src.as_bytes()).unwrap();

    let open = reader.find_the_open_node("Root/Mid").unwrap().unwrap();
    let start = open.start_pos;
    let node = reader.read_the_whole_node(open).unwrap();
    let close = node.close_node.as_ref().unwrap();
    let end = close.end_pos;

    assert_eq!(&xml_src[start..end + 1], node.get_xml().unwrap());
    assert_eq!("<Mid>text</Mid>", node.get_xml().unwrap());
}

#[test]
fn close_tag_level_equals_open_level() {
    let xml_src = "<a><b><c/></b></a>";
    let mut reader = MyXmlReader::from_slice(xml_src.as_bytes()).unwrap();

    let open_a = reader.read_next_tag().unwrap().unwrap();
    assert!(matches!(open_a.tag_type, XmlTagType::Open));
    assert_eq!(0, open_a.level);

    let open_b = reader.read_next_tag().unwrap().unwrap();
    assert!(matches!(open_b.tag_type, XmlTagType::Open));
    assert_eq!(1, open_b.level);

    let leaf_c = reader.read_next_tag().unwrap().unwrap();
    assert!(matches!(leaf_c.tag_type, XmlTagType::OpenClose));
    assert_eq!(2, leaf_c.level);

    let close_b = reader.read_next_tag().unwrap().unwrap();
    assert!(matches!(close_b.tag_type, XmlTagType::Close));
    assert_eq!(open_b.level, close_b.level);

    let close_a = reader.read_next_tag().unwrap().unwrap();
    assert!(matches!(close_a.tag_type, XmlTagType::Close));
    assert_eq!(open_a.level, close_a.level);
}

#[test]
fn stack_is_empty_after_well_formed_document() {
    let xml_src = "<a><b><c/></b><d>x</d></a>";
    let mut reader = MyXmlReader::from_slice(xml_src.as_bytes()).unwrap();

    while reader.read_next_tag().unwrap().is_some() {}

    assert_eq!(0, reader.get_level());
    assert!(reader.opened_nodes.is_empty());
}

#[test]
fn extra_close_tag_is_mismatched() {
    let xml_src = "<a><b></b></b></a>";
    let mut reader = MyXmlReader::from_slice(xml_src.as_bytes()).unwrap();

    reader.read_next_tag().unwrap();
    reader.read_next_tag().unwrap();
    reader.read_next_tag().unwrap();
    let err = reader.read_next_tag().unwrap_err();
    assert_eq!(
        XmlError::MismatchedCloseTag { expected: "a".to_string(), found: "b".to_string() },
        err
    );
}

#[test]
fn missing_open_tag_is_unexpected_close() {
    let xml_src = "<b></b></a>";
    let mut reader = MyXmlReader::from_slice(xml_src.as_bytes()).unwrap();

    reader.read_next_tag().unwrap();
    reader.read_next_tag().unwrap();
    let err = reader.read_next_tag().unwrap_err();
    assert_eq!(XmlError::UnexpectedCloseTag, err);
}

#[test]
fn attributes_of_simple_tag() {
    let xml = "<a x=\"1\" y=\"2\"/>";
    let mut attrs = AttributesIterator::new(xml.as_bytes());

    assert_eq!(Some(("x", "1")), attrs.get_next().unwrap());
    assert_eq!(Some(("y", "2")), attrs.get_next().unwrap());
    assert_eq!(None, attrs.get_next().unwrap());
}

#[test]
fn value_without_escapes_is_unchanged() {
    let xml_src = "<a>plain text, no references</a>";
    let mut reader = MyXmlReader::from_slice(xml_src.as_bytes()).unwrap();
    let open = reader.find_the_open_node("a").unwrap().unwrap();
    let node = reader.read_the_whole_node(open).unwrap();

    assert_eq!("plain text, no references", node.get_value().unwrap().unwrap());
}

#[test]
fn value_with_escapes_is_decoded() {
    let xml_src = "<a>&lt;b&gt;</a>";
    let mut reader = MyXmlReader::from_slice(xml_src.as_bytes()).unwrap();
    let open = reader.find_the_open_node("a").unwrap().unwrap();
    let node = reader.read_the_whole_node(open).unwrap();

    assert_eq!("<b>", node.get_value().unwrap().unwrap());
}

#[test]
fn decode_handles_all_five_references() {
    assert_eq!("\"", decode_xml_string("&quot;"));
    assert_eq!("'", decode_xml_string("&apos;"));
    assert_eq!("<", decode_xml_string("&lt;"));
    assert_eq!(">", decode_xml_string("&gt;"));
    assert_eq!("&", decode_xml_string("&amp;"));
    assert_eq!("a<b>c&d\"e'f", decode_xml_string("a&lt;b&gt;c&amp;d&quot;e&apos;f"));
    assert_eq!("&#65;", decode_xml_string("&#65;"));
}

#[test]
fn special_symbol_detection() {
    assert!(has_special_symbol("x&amp;y"));
    assert!(has_special_symbol("&quot;"));
    assert!(!has_special_symbol("plain & text"));
    assert!(!has_special_symbol(""));
}

#[test]
fn header_forms_position_first_read_at_root() {
    let with_header = "<?xml version=\"1.0\"?><Root/>";
    let mut reader = MyXmlReader::from_slice(with_header.as_bytes()).unwrap();
    let tag = reader.read_next_tag().unwrap().unwrap();
    assert_eq!("Root", tag.name);

    let with_spaces = "   <Root/>";
    let mut reader = MyXmlReader::from_slice(with_spaces.as_bytes()).unwrap();
    let tag = reader.read_next_tag().unwrap().unwrap();
    assert_eq!("Root", tag.name);

    let with_bom = "\u{feff}<?xml version=\"1.0\"?><Root></Root>";
    let mut reader = MyXmlReader::from_slice(with_bom.as_bytes()).unwrap();
    let tag = reader.read_next_tag().unwrap().unwrap();
    assert_eq!("Root", tag.name);
    assert!(matches!(tag.tag_type, XmlTagType::Open));
}

#[test]
fn repeated_children_then_none_and_unread_tail() {
    let xml_src = "<R><S1><I>V1</I><I>V2</I></S1><S2>V2</S2></R>";
    let mut reader = MyXmlReader::from_slice(xml_src.as_bytes()).unwrap();

    let scope = reader.find_the_open_node("R/S1").unwrap().unwrap();

    let first = reader.find_the_node_inside_parent(&scope, "I").unwrap().unwrap();
    let first = reader.read_the_whole_node(first).unwrap();
    assert_eq!("V1", first.get_value().unwrap().unwrap());

    let second = reader.find_the_node_inside_parent(&scope, "I").unwrap().unwrap();
    let second = reader.read_the_whole_node(second).unwrap();
    assert_eq!("V2", second.get_value().unwrap().unwrap());

    let third = reader.find_the_node_inside_parent(&scope, "I").unwrap();
    assert!(third.is_none());

    assert_eq!("<S2>V2</S2></R>", reader.get_unread_slice().unwrap());
}

#[test]
fn self_closing_element_has_no_value() {
    let xml_src = "<a/>";
    let mut reader = MyXmlReader::from_slice(xml_src.as_bytes()).unwrap();
    let open = reader.read_next_tag().unwrap().unwrap();
    let node = reader.read_the_whole_node(open).unwrap();

    assert!(node.get_inner_content().is_none());
    assert_eq!(None, node.get_value().unwrap());
    assert_eq!("<a/>", node.get_xml().unwrap());
}

#[test]
fn attribute_value_with_escaped_quote() {
    let xml = "<a x=\"p\\\"q\" y=\"2\">";
    let mut attrs = AttributesIterator::new(xml.as_bytes());

    assert_eq!(Some(("x", "p\\\"q")), attrs.get_next().unwrap());
    assert_eq!(Some(("y", "2")), attrs.get_next().unwrap());
    assert_eq!(None, attrs.get_next().unwrap());
}

#[test]
fn decoding_is_a_single_left_to_right_pass() {
    assert_eq!("&lt;", decode_xml_string("&amp;lt;"));
}

#[test]
fn raw_tag_text_matches_source() {
    let xml_src = "<Root><Leaf a=\"1\"/></Root>";
    let mut reader = MyXmlReader::from_slice(xml_src.as_bytes()).unwrap();
    reader.read_next_tag().unwrap();
    let leaf = reader.read_next_tag().unwrap().unwrap();
    assert_eq!("<Leaf a=\"1\"/>", leaf.raw_as_string().unwrap());
}

#[test]
fn find_next_token_returns_first_occurrence() {
    let data = b"abcbc";
    assert_eq!(Some(1), find_next_token(data, b'b', 0));
    assert_eq!(Some(3), find_next_token(data, b'b', 2));
    assert_eq!(None, find_next_token(data, b'z', 0));
    assert_eq!(None, find_next_token(data, b'a', 1));
}
