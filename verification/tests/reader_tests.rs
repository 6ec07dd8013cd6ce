use my_xml_reader::MyXmlReader;

#[test]
fn test_find_open_tag_after_header_node() {
    let xml_src = r#"<?xml version="1.0" encoding="utf-8"?><RootNode></RootNode>"#;

    let xml = MyXmlReader::from_slice(xml_src.as_bytes()).unwrap();

    assert_eq!("<RootNode></RootNode>", &xml_src[xml.current_pos..])
}

#[test]
fn test_find_open_tag_with_no_header_node() {
    let xml_src = r#"<RootNode></RootNode>"#;

    let xml = MyXmlReader::from_slice(xml_src.as_bytes()).unwrap();

    assert_eq!("<RootNode></RootNode>", &xml_src[xml.current_pos..])
}

#[test]
fn test_find_open_tags() {
    let xml_src = r#"<RootNode><SkipTag1/><SkipTag2></SkipTag2><SubRoot><Tag1>Val1</Tag1><Tag1>Val1</Tag1></SubRoot></RootNode>"#;

    let mut reader = MyXmlReader::from_slice(xml_src.as_bytes()).unwrap();

    let found = reader.find_the_open_node("RootNode").unwrap().unwrap();

    assert_eq!("RootNode", found.name);
    assert_eq!(0, found.level);
    assert_eq!(1, reader.get_level());

    let found = reader.find_the_open_node("SubRoot").unwrap().unwrap();

    println!("{:?}", reader.opened_nodes);
    assert_eq!("SubRoot", found.name);
    assert_eq!(2, reader.get_level());
}

#[test]
fn test_xpath_node_search() {
    let xml_src = r#"<RootNode><SkipTag1/><SkipTag2></SkipTag2><SubRoot><Tag1>Val1</Tag1><Tag1>Val1</Tag1></SubRoot></RootNode>"#;

    let mut reader = MyXmlReader::from_slice(xml_src.as_bytes()).unwrap();

    let found = reader
        .find_the_open_node("RootNode/SubRoot")
        .unwrap()
        .unwrap();

    assert_eq!("SubRoot", found.name);
    assert_eq!(2, reader.get_level());
}

#[test]
fn test_read_whole_node() {
    let xml_src = r#"<RootNode><SkipTag1/><SkipTag2></SkipTag2><SubRoot><Tag1>Val1</Tag1><Tag1>Val1</Tag1></SubRoot></RootNode>"#;

    let mut reader = MyXmlReader::from_slice(xml_src.as_bytes()).unwrap();

    let found = reader
        .find_the_open_node("RootNode/SubRoot")
        .unwrap()
        .unwrap();

    assert_eq!("SubRoot", found.name);
    assert_eq!(1, found.level);
    assert_eq!(2, reader.get_level());

    let whole_node = reader.read_the_whole_node(found).unwrap();

    println!("{}", std::str::from_utf8(whole_node.xml).unwrap());
    assert_eq!("SubRoot", whole_node.get_node_name());
    assert_eq!(
        "<Tag1>Val1</Tag1><Tag1>Val1</Tag1>",
        std::str::from_utf8(whole_node.get_inner_content().unwrap()).unwrap()
    );
}

#[test]
fn test_read_array() {
    let xml_src = r#"<RootNode><SkipTag1/><SkipTag2></SkipTag2><SubRoot><Tag1>Val1</Tag1><Tag1>Val2</Tag1></SubRoot></RootNode>"#;

    let mut reader = MyXmlReader::from_slice(xml_src.as_bytes()).unwrap();

    let array_node = reader
        .find_the_open_node("RootNode/SubRoot")
        .unwrap()
        .unwrap();

    assert_eq!("SubRoot", array_node.name);
    assert_eq!(1, array_node.level);
    assert_eq!(2, reader.get_level());

    let found = reader
        .find_the_node_inside_parent(&array_node, "Tag1")
        .unwrap();
    let whole_node = reader.read_the_whole_node(found.unwrap()).unwrap();

    assert_eq!("Val1", whole_node.get_value().unwrap().unwrap());

    assert_eq!("Tag1", whole_node.get_node_name());

    let found = reader
        .find_the_node_inside_parent(&array_node, "Tag1")
        .unwrap();
    let whole_node = reader.read_the_whole_node(found.unwrap()).unwrap();

    assert_eq!("Val2", whole_node.get_value().unwrap().unwrap());
    assert_eq!("Tag1", whole_node.get_node_name());

    let found = reader
        .find_the_node_inside_parent(&array_node, "Tag1")
        .unwrap();

    assert_eq!(true, found.is_none());
}

#[test]
fn test_next_tag_after_reading_array() {
    let xml_src = r#"<R><S1><I>V1</I><I>V2</I></S1><S2>V2</S2></R>"#;
    let mut reader = MyXmlReader::from_slice(xml_src.as_bytes()).unwrap();

    let array_node = reader.find_the_open_node("R/S1").unwrap().unwrap();

    let el_item = reader
        .find_the_node_inside_parent(&array_node, "I")
        .unwrap();

    let whole_node = reader.read_the_whole_node(el_item.unwrap()).unwrap();

    assert_eq!("<I>V1</I>", whole_node.get_xml().unwrap());

    let el_item = reader
        .find_the_node_inside_parent(&array_node, "I")
        .unwrap();
    let whole_node = reader.read_the_whole_node(el_item.unwrap()).unwrap();

    assert_eq!("<I>V2</I>", whole_node.get_xml().unwrap());

    let el_item = reader
        .find_the_node_inside_parent(&array_node, "I")
        .unwrap();

    assert_eq!(true, el_item.is_none());
    assert_eq!("<S2>V2</S2></R>", reader.get_unread_slice().unwrap())
}

#[test]
fn test_finding_any_of_nodes() {
    let xml_src = r#"<R><A><S1><I>V1</I><I>V2</I></S1><S2>V2</S2></A></R>"#;
    let mut reader = MyXmlReader::from_slice(xml_src.as_bytes()).unwrap();

    let array_node = reader.find_the_open_node("R/A").unwrap().unwrap();

    assert_eq!(
        "<S1><I>V1</I><I>V2</I></S1><S2>V2</S2></A></R>",
        reader.get_unread_slice().unwrap()
    );

    let node_names = vec!["S1", "S2"];

    let mut found_s1 = false;
    let mut found_s2 = false;

    loop {
        let el_item = reader
            .find_any_of_these_nodes_inside_parent(&array_node, &node_names)
            .unwrap();

        if el_item.is_none() {
            break;
        }

        let el_item = el_item.unwrap();

        match el_item.name {
            "S1" => {
                found_s1 = true;
                reader.read_the_whole_node(el_item).unwrap();
            }
            "S2" => {
                found_s2 = true;
                reader.read_the_whole_node(el_item).unwrap();
            }
            _ => {}
        }
    }

    assert_eq!(true, found_s1);
    assert_eq!(true, found_s2);
    assert_eq!("</R>", reader.get_unread_slice().unwrap())
}
