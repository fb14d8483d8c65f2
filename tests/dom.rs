use robinson::{elem, text, AttrMap, ElementData, NodeType};

fn attrs(pairs: &[(&str, &str)]) -> AttrMap {
    let mut m = AttrMap::new();
    for (k, v) in pairs {
        m.insert(k.to_string(), v.to_string());
    }
    m
}

fn data(pairs: &[(&str, &str)]) -> ElementData {
    ElementData { tag_name: "p".to_string(), attributes: attrs(pairs) }
}

fn sorted_classes(e: &ElementData) -> Vec<String> {
    let mut cs = e.classes();
    cs.sort();
    cs
}

#[test]
fn text_node_has_no_children() {
    let n = text("abc".to_string());
    assert!(n.children.is_empty());
    match &n.node_type {
        NodeType::Text(t) => assert_eq!(t, "abc"),
        NodeType::Element(_) => panic!("expected text"),
    }
}

#[test]
fn element_node_keeps_its_parts() {
    let n = elem(
        "div".to_string(),
        attrs(&[("id", "x")]),
        vec![text("a".to_string()), text("b".to_string())],
    );
    assert_eq!(n.children.len(), 2);
    match &n.node_type {
        NodeType::Element(e) => {
            assert_eq!(e.tag_name, "div");
            assert_eq!(e.attributes.get("id").map(|s| s.as_str()), Some("x"));
        }
        NodeType::Text(_) => panic!("expected element"),
    }
}

#[test]
fn attr_map_insert_replaces() {
    let mut m = AttrMap::new();
    assert_eq!(m.len(), 0);
    m.insert("a".to_string(), "1".to_string());
    m.insert("b".to_string(), "2".to_string());
    m.insert("a".to_string(), "3".to_string());
    assert_eq!(m.len(), 2);
    assert_eq!(m.get("a").map(|s| s.as_str()), Some("3"));
    assert_eq!(m.get("b").map(|s| s.as_str()), Some("2"));
    assert_eq!(m.get("c"), None);
}

#[test]
fn classes_split_on_spaces() {
    assert_eq!(sorted_classes(&data(&[("class", "foo bar")])), vec!["bar", "foo"]);
}

#[test]
fn classes_without_class_attribute() {
    assert!(data(&[("id", "x")]).classes().is_empty());
    assert!(data(&[]).classes().is_empty());
}

#[test]
fn classes_keep_empty_pieces_and_drop_repeats() {
    assert_eq!(sorted_classes(&data(&[("class", "a  b a")])), vec!["", "a", "b"]);
    assert_eq!(sorted_classes(&data(&[("class", "")])), vec![""]);
    assert_eq!(sorted_classes(&data(&[("class", "solo")])), vec!["solo"]);
    assert_eq!(sorted_classes(&data(&[("class", " x ")])), vec!["", "x"]);
}

#[test]
fn classes_follow_later_edits() {
    let mut e = data(&[("class", "a")]);
    assert_eq!(sorted_classes(&e), vec!["a"]);
    e.attributes.insert("class".to_string(), "b c".to_string());
    assert_eq!(sorted_classes(&e), vec!["b", "c"]);
}

#[test]
fn id_present_and_absent() {
    assert_eq!(data(&[("id", "main")]).id().map(|s| s.as_str()), Some("main"));
    assert_eq!(data(&[("class", "x")]).id(), None);
}
