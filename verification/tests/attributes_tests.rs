use my_xml_reader::AttributesIterator;

#[test]
fn test_tags_iterator_with_no_attrs() {
    let xml = "<test></test>";

    let mut attrs_iterator = AttributesIterator::new(xml.as_bytes());
    let next = attrs_iterator.get_next().unwrap();
    assert!(next.is_none());
}

#[test]
fn test_tags_iterator_with_no_attrs_case_2() {
    let xml = "<test/>";

    let mut attrs_iterator = AttributesIterator::new(xml.as_bytes());
    let next = attrs_iterator.get_next().unwrap();
    assert!(next.is_none());
}

#[test]
fn test_tags_iterator_with_no_attrs_case_3() {
    let xml = "<test />";

    let mut attrs_iterator = AttributesIterator::new(xml.as_bytes());
    let next = attrs_iterator.get_next().unwrap();
    assert!(next.is_none());
}

#[test]
fn test_tags_iterator_with_single_attribute() {
    let xml = "<test attr1=\"value1\" attr2=\"value2\"/>";

    let mut attrs_iterator = AttributesIterator::new(xml.as_bytes());
    let next = attrs_iterator.get_next().unwrap().unwrap();

    assert_eq!(next.0, "attr1");
    assert_eq!(next.1, "value1");

    let next = attrs_iterator.get_next().unwrap().unwrap();

    assert_eq!(next.0, "attr2");
    assert_eq!(next.1, "value2");
}
