use robinson::{parse, AttrMap, ElementData, Node, NodeType, ParseError};

fn element(n: &Node) -> &ElementData {
    match &n.node_type {
        NodeType::Element(e) => e,
        NodeType::Text(t) => panic!("expected an element, found text {:?}", t),
    }
}

fn text_of(n: &Node) -> &str {
    match &n.node_type {
        NodeType::Text(t) => t.as_str(),
        NodeType::Element(e) => panic!("expected text, found element {:?}", e.tag_name),
    }
}

fn ok(s: &str) -> Node {
    parse(s.to_string()).expect("document parses")
}

fn err(s: &str) -> ParseError {
    match parse(s.to_string()) {
        Ok(n) => panic!("expected an error, parsed {:?}", n),
        Err(e) => e,
    }
}

fn value<'a>(a: &'a AttrMap, k: &str) -> Option<&'a str> {
    a.get(k).map(|v| v.as_str())
}

#[test]
fn same_input_gives_same_tree() {
    let src = "<div id='x'><p>hi</p> text <b></b></div>";
    let a = format!("{:?}", ok(src));
    let b = format!("{:?}", ok(src));
    assert_eq!(a, b);
}

#[test]
fn matching_tags_give_that_element() {
    for t in ["a", "div", "H1", "x9y"] {
        let n = ok(&format!("<{}></{}>", t, t));
        let e = element(&n);
        assert_eq!(e.tag_name, t);
        assert_eq!(e.attributes.len(), 0);
        assert!(n.children.is_empty());
    }
}

#[test]
fn mismatched_closing_tag() {
    assert_eq!(err("<a></b>"), ParseError::TagMismatch);
    assert_eq!(err("<a></ab>"), ParseError::TagMismatch);
    assert_eq!(err("<div><p>x</div></p>"), ParseError::TagMismatch);
    assert_eq!(err("<a></>"), ParseError::TagMismatch);
}

#[test]
fn attributes_in_both_quote_styles() {
    let n = ok("<a k1=\"v1\" k2='v2'></a>");
    let e = element(&n);
    assert_eq!(e.tag_name, "a");
    assert_eq!(e.attributes.len(), 2);
    assert_eq!(value(&e.attributes, "k1"), Some("v1"));
    assert_eq!(value(&e.attributes, "k2"), Some("v2"));
    assert_eq!(value(&e.attributes, "k3"), None);
}

#[test]
fn each_value_ends_at_its_own_quote() {
    let n = ok("<a x=\"it's\" y='say \"hi\"' z=\"a>b\"></a>");
    let e = element(&n);
    assert_eq!(value(&e.attributes, "x"), Some("it's"));
    assert_eq!(value(&e.attributes, "y"), Some("say \"hi\""));
    assert_eq!(value(&e.attributes, "z"), Some("a>b"));
}

#[test]
fn later_duplicate_attribute_wins() {
    let n = ok("<a k=\"1\" k='2'></a>");
    let e = element(&n);
    assert_eq!(e.attributes.len(), 1);
    assert_eq!(value(&e.attributes, "k"), Some("2"));
}

#[test]
fn bare_text_is_the_root() {
    let n = ok("hello");
    assert_eq!(text_of(&n), "hello");
    assert!(n.children.is_empty());
}

#[test]
fn two_roots_get_an_html_wrapper() {
    let n = ok("<a></a><b></b>");
    let e = element(&n);
    assert_eq!(e.tag_name, "html");
    assert_eq!(e.attributes.len(), 0);
    assert_eq!(n.children.len(), 2);
    assert_eq!(element(&n.children[0]).tag_name, "a");
    assert_eq!(element(&n.children[1]).tag_name, "b");
}

#[test]
fn empty_input_gives_empty_html() {
    for src in ["", "   \n\t "] {
        let n = ok(src);
        assert_eq!(element(&n).tag_name, "html");
        assert!(n.children.is_empty());
    }
}

#[test]
fn closing_tag_at_top_ends_the_document() {
    let n = ok("</a>");
    assert_eq!(element(&n).tag_name, "html");
    assert!(n.children.is_empty());
}

#[test]
fn nested_structure() {
    let n = ok("<div><p>hi</p></div>");
    let div = element(&n);
    assert_eq!(div.tag_name, "div");
    assert_eq!(n.children.len(), 1);
    let p = &n.children[0];
    assert_eq!(element(p).tag_name, "p");
    assert_eq!(p.children.len(), 1);
    assert_eq!(text_of(&p.children[0]), "hi");
    assert!(p.children[0].children.is_empty());
}

#[test]
fn whitespace_between_siblings_is_dropped() {
    let n = ok("<a></a>  <b></b>");
    assert_eq!(element(&n).tag_name, "html");
    assert_eq!(n.children.len(), 2);
    assert_eq!(element(&n.children[0]).tag_name, "a");
    assert_eq!(element(&n.children[1]).tag_name, "b");
}

#[test]
fn unicode_whitespace_is_skipped() {
    let n = ok("\u{3000}\u{a0}\t\n<a></a>\u{2003}");
    assert_eq!(element(&n).tag_name, "a");
}

#[test]
fn leading_whitespace_of_text_is_skipped_and_trailing_kept() {
    let n = ok("<p>  hello <b>world</b></p>");
    assert_eq!(n.children.len(), 2);
    assert_eq!(text_of(&n.children[0]), "hello ");
    let b = &n.children[1];
    assert_eq!(element(b).tag_name, "b");
    assert_eq!(text_of(&b.children[0]), "world");
}

#[test]
fn non_ascii_text_is_kept() {
    let n = ok("<p>héllo wörld ☃</p>");
    assert_eq!(text_of(&n.children[0]), "héllo wörld ☃");
}

#[test]
fn unterminated_tag() {
    assert_eq!(err("<a"), ParseError::UnexpectedEndOfInput);
    assert_eq!(err("<a k='v'"), ParseError::UnexpectedEndOfInput);
    assert_eq!(err("<a>"), ParseError::UnexpectedEndOfInput);
    assert_eq!(err("<a>text"), ParseError::UnexpectedEndOfInput);
    assert_eq!(err("<a></a"), ParseError::UnexpectedEndOfInput);
    assert_eq!(err("<a>\n  "), ParseError::UnexpectedEndOfInput);
    assert_eq!(err("<a></"), ParseError::TagMismatch);
}

#[test]
fn mismatched_or_missing_quote() {
    assert_eq!(err("<a k='v\"></a>"), ParseError::UnexpectedEndOfInput);
    assert_eq!(err("<a k=\"v></a>"), ParseError::UnexpectedEndOfInput);
    assert_eq!(err("<a k=v></a>"), ParseError::UnexpectedCharacter);
    assert_eq!(err("<a k="), ParseError::UnexpectedEndOfInput);
}

#[test]
fn missing_characters() {
    assert_eq!(err("<a></a x"), ParseError::UnexpectedCharacter);
    assert_eq!(err("<a b></a>"), ParseError::UnexpectedCharacter);
    assert_eq!(err("<a b c='1'></a>"), ParseError::UnexpectedCharacter);
    assert_eq!(err("<a -></a>"), ParseError::UnexpectedCharacter);
}

#[test]
fn empty_tag_name() {
    assert_eq!(err("<></>"), ParseError::EmptyTagName);
    assert_eq!(err("< a></a>"), ParseError::EmptyTagName);
    assert_eq!(err("<p><></></p>"), ParseError::EmptyTagName);
}

#[test]
fn empty_attribute_name_is_accepted() {
    let n = ok("<a =\"v\"></a>");
    assert_eq!(value(&element(&n).attributes, ""), Some("v"));
}

#[test]
fn id_and_classes_of_parsed_element() {
    let n = ok("<p id=\"main\" class=\"foo bar\"></p>");
    let e = element(&n);
    assert_eq!(e.id().map(|s| s.as_str()), Some("main"));
    let mut cs: Vec<String> = e.classes();
    cs.sort();
    assert_eq!(cs, vec!["bar".to_string(), "foo".to_string()]);
}
