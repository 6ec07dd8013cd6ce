use my_xml_reader::xml_utils::extract_tag_name;
use my_xml_reader::xml_utils::init_pos_start;

#[test]
fn test_extract_node_name() {
    let xml_src = r#"<RootNode/>"#;

    let node_name = extract_tag_name(xml_src.as_bytes());

    assert_eq!("RootNode", std::str::from_utf8(node_name).unwrap());
}

#[test]
fn test_extract_node_name_ver2() {
    let xml_src = r#"<RootNode />"#;

    let node_name = extract_tag_name(xml_src.as_bytes());

    assert_eq!("RootNode", std::str::from_utf8(node_name).unwrap());
}

#[test]
fn test_extract_node_name_ver3() {
    let xml_src = r#"<RootNode>"#;

    let node_name = extract_tag_name(xml_src.as_bytes());

    assert_eq!("RootNode", std::str::from_utf8(node_name).unwrap());
}

#[test]
fn test_extract_node_name_ver4() {
    let xml_src = r#"</RootNode>"#;

    let node_name = extract_tag_name(xml_src.as_bytes());

    assert_eq!("RootNode", std::str::from_utf8(node_name).unwrap());
}

#[test]
fn test_init_pos_start_with_header_and_leading_space() {
    let xml_src = "   <?xml version=\"1.0\"?><Root/>";

    let pos = init_pos_start(xml_src.as_bytes()).unwrap();

    assert_eq!("<Root/>", &xml_src[pos..]);
}

#[test]
fn test_init_pos_start_with_header_and_bom() {
    let xml_src = "\u{feff}<?xml version=\"1.0\"?><Root></Root>";
    let bytes = xml_src.as_bytes();

    let pos = init_pos_start(bytes).unwrap();

    assert_eq!("<Root></Root>", std::str::from_utf8(&bytes[pos..]).unwrap());
}

#[test]
fn test_init_pos_start_without_header_and_leading_space() {
    let xml_src = "   <Root></Root>";
    let pos = init_pos_start(xml_src.as_bytes()).unwrap();

    assert_eq!("<Root></Root>", &xml_src[pos..]);
}

#[test]
fn test_init_pos_start_with_header_and_gap_before_root() {
    let xml_src = "<?xml version=\"1.0\"?>   <Root></Root>";
    let pos = init_pos_start(xml_src.as_bytes()).unwrap();

    assert_eq!("<Root></Root>", &xml_src[pos..]);
}
