use styletree::dom::{elem, text, AttrMap, Node, NodeType};
use styletree::error::{Expected, Found, SyntaxError};
use styletree::html::parse;
use styletree::scanner::Parser;

fn tag(node: &Node) -> &str {
    match &node.node_type {
        NodeType::Element(e) => e.tag_name.as_str(),
        NodeType::Text(_) => panic!("a text node has no tag"),
    }
}

fn content(node: &Node) -> &str {
    match &node.node_type {
        NodeType::Text(t) => t.as_str(),
        NodeType::Element(_) => panic!("an element has no text"),
    }
}

fn attributes(node: &Node) -> &AttrMap {
    match &node.node_type {
        NodeType::Element(e) => &e.attributes,
        NodeType::Text(_) => panic!("a text node has no attributes"),
    }
}

fn failure(source: &str) -> SyntaxError {
    match parse(source.to_string()) {
        Ok(_) => panic!("the parse should fail"),
        Err(e) => e,
    }
}

#[test]
fn empty_input_is_an_empty_html_element() {
    let root = parse(String::new()).unwrap();
    assert_eq!(tag(&root), "html");
    assert_eq!(attributes(&root).len(), 0);
    assert_eq!(root.children.len(), 0);
}

#[test]
fn whitespace_only_input_is_an_empty_html_element() {
    let root = parse(" \n\t ".to_string()).unwrap();
    assert_eq!(tag(&root), "html");
    assert_eq!(root.children.len(), 0);
}

#[test]
fn single_element_is_the_root() {
    let root = parse("<div class=\"a b\"><p>hi</p></div>".to_string()).unwrap();
    assert_eq!(tag(&root), "div");
    assert_eq!(attributes(&root).len(), 1);
    assert_eq!(attributes(&root).get("class").unwrap(), "a b");
    assert_eq!(root.children.len(), 1);
    let p = &root.children[0];
    assert_eq!(tag(p), "p");
    assert_eq!(attributes(p).len(), 0);
    assert_eq!(p.children.len(), 1);
    assert_eq!(content(&p.children[0]), "hi");
    assert_eq!(p.children[0].children.len(), 0);
}

#[test]
fn several_top_level_nodes_are_wrapped() {
    let root = parse("<a></a>text<b></b>".to_string()).unwrap();
    assert_eq!(tag(&root), "html");
    assert_eq!(attributes(&root).len(), 0);
    assert_eq!(root.children.len(), 3);
    assert_eq!(tag(&root.children[0]), "a");
    assert_eq!(content(&root.children[1]), "text");
    assert_eq!(tag(&root.children[2]), "b");
}

#[test]
fn root_is_an_element_unless_the_input_is_one_text() {
    for source in ["", "<p></p>", "<p></p><p></p>", "a<b></b>", "<b></b>a", "  <i>x</i>  "] {
        let root = parse(source.to_string()).unwrap();
        assert!(matches!(root.node_type, NodeType::Element(_)), "{:?}", source);
    }
    let lone = parse("just text".to_string()).unwrap();
    assert_eq!(content(&lone), "just text");
    assert_eq!(lone.children.len(), 0);
}

#[test]
fn reading_stops_at_an_unmatched_closing_tag() {
    let root = parse("<a></a></b>rest".to_string()).unwrap();
    assert_eq!(tag(&root), "a");
    let lone = parse("hello</b>".to_string()).unwrap();
    assert_eq!(content(&lone), "hello");
}

#[test]
fn attributes_take_either_quote() {
    let root = parse("<a x='1' y=\"two words\"  z='\"'\n></a>".to_string()).unwrap();
    let attrs = attributes(&root);
    assert_eq!(attrs.len(), 3);
    assert_eq!(attrs.get("x").unwrap(), "1");
    assert_eq!(attrs.get("y").unwrap(), "two words");
    assert_eq!(attrs.get("z").unwrap(), "\"");
}

#[test]
fn later_attribute_of_the_same_name_stays() {
    let root = parse("<a x='1' x='2'></a>".to_string()).unwrap();
    assert_eq!(attributes(&root).len(), 1);
    assert_eq!(attributes(&root).get("x").unwrap(), "2");
}

#[test]
fn whitespace_before_a_node_is_dropped_and_inside_text_kept() {
    let root = parse("<p>  hi  there  </p>".to_string()).unwrap();
    assert_eq!(root.children.len(), 1);
    assert_eq!(content(&root.children[0]), "hi  there  ");
}

#[test]
fn nested_elements_keep_their_order() {
    let root = parse("<ul><li>1</li><li>2</li><li><b>3</b></li></ul>".to_string()).unwrap();
    assert_eq!(tag(&root), "ul");
    assert_eq!(root.children.len(), 3);
    assert_eq!(content(&root.children[0].children[0]), "1");
    assert_eq!(content(&root.children[1].children[0]), "2");
    assert_eq!(tag(&root.children[2].children[0]), "b");
    assert_eq!(content(&root.children[2].children[0].children[0]), "3");
}

#[test]
fn empty_tag_name_is_read_as_a_name() {
    let root = parse("<>x</>".to_string()).unwrap();
    assert_eq!(tag(&root), "");
    assert_eq!(content(&root.children[0]), "x");
}

#[test]
fn mismatched_closing_tag_is_an_error() {
    assert_eq!(
        failure("<a><b></a>"),
        SyntaxError {
            position: 8,
            expected: Expected::ClosingTag("b".to_string()),
            found: Found::Name("a".to_string()),
        }
    );
}

#[test]
fn missing_closing_tag_is_an_error() {
    assert_eq!(
        failure("<a>text"),
        SyntaxError { position: 7, expected: Expected::Char('<'), found: Found::EndOfInput }
    );
}

#[test]
fn unfinished_closing_tag_is_an_error() {
    assert_eq!(
        failure("<a></a"),
        SyntaxError { position: 6, expected: Expected::Char('>'), found: Found::EndOfInput }
    );
    assert_eq!(
        failure("<a></a b>"),
        SyntaxError { position: 6, expected: Expected::Char('>'), found: Found::Char(' ') }
    );
}

#[test]
fn element_inside_text_needs_its_closing_slash() {
    // A `<` that starts no closing tag opens an element, and its tag must end in `>`.
    assert_eq!(
        failure("<a><b>x<"),
        SyntaxError { position: 8, expected: Expected::Char('>'), found: Found::EndOfInput }
    );
}

#[test]
fn missing_equals_sign_is_an_error() {
    assert_eq!(
        failure("<a x></a>"),
        SyntaxError { position: 4, expected: Expected::Char('='), found: Found::Char('>') }
    );
}

#[test]
fn stray_equals_sign_is_an_error() {
    assert_eq!(
        failure("<a ='1'></a>"),
        SyntaxError { position: 3, expected: Expected::AttributeName, found: Found::Char('=') }
    );
}

#[test]
fn unquoted_value_is_an_error() {
    assert_eq!(
        failure("<a x=1></a>"),
        SyntaxError { position: 5, expected: Expected::Quote, found: Found::Char('1') }
    );
    assert_eq!(
        failure("<a x="),
        SyntaxError { position: 5, expected: Expected::Quote, found: Found::EndOfInput }
    );
}

#[test]
fn missing_terminating_quote_is_an_error() {
    assert_eq!(
        failure("<a x='1></a>"),
        SyntaxError { position: 12, expected: Expected::Char('\''), found: Found::EndOfInput }
    );
}

#[test]
fn unfinished_opening_tag_is_an_error() {
    assert_eq!(
        failure("<a  "),
        SyntaxError { position: 4, expected: Expected::Char('>'), found: Found::EndOfInput }
    );
}

#[test]
fn positions_count_characters_not_bytes() {
    // Each of the first three characters takes more than one byte.
    assert_eq!(
        failure("\u{e9}\u{4e2d}\u{1f600}<a>"),
        SyntaxError { position: 6, expected: Expected::Char('<'), found: Found::EndOfInput }
    );
    let root = parse("<p>\u{e9}\u{4e2d}\u{1f600}</p>".to_string()).unwrap();
    assert_eq!(content(&root.children[0]), "\u{e9}\u{4e2d}\u{1f600}");
}

#[test]
fn unicode_whitespace_is_whitespace() {
    let root = parse("\u{a0}\u{2003}<p>\u{3000}x</p>".to_string()).unwrap();
    assert_eq!(tag(&root), "p");
    assert_eq!(content(&root.children[0]), "x");
}

#[test]
fn constructors_build_the_nodes_they_name() {
    let mut attrs = AttrMap::new();
    attrs.insert("k".to_string(), "v".to_string());
    let node = elem("div".to_string(), attrs, vec![text("t".to_string())]);
    assert_eq!(tag(&node), "div");
    assert_eq!(attributes(&node).get("k").unwrap(), "v");
    assert_eq!(node.children.len(), 1);
    assert_eq!(content(&node.children[0]), "t");
    assert_eq!(node.children[0].children.len(), 0);
}

#[test]
fn cursor_reads_one_character_at_a_time() {
    let mut p = Parser::new("a\u{e9}<");
    assert_eq!(p.offset(), 0);
    assert!(!p.eof());
    assert_eq!(p.next_char(), 'a');
    assert_eq!(p.consume_char(), 'a');
    assert_eq!(p.consume_char(), '\u{e9}');
    assert_eq!(p.offset(), 2);
    assert!(p.starts_with("<"));
    assert!(!p.starts_with("</"));
    assert!(p.starts_with(""));
    assert_eq!(p.found(), Found::Char('<'));
    assert_eq!(
        p.expect('>'),
        Err(SyntaxError { position: 2, expected: Expected::Char('>'), found: Found::Char('<') })
    );
    assert_eq!(p.offset(), 2);
    assert_eq!(p.expect('<'), Ok(()));
    assert!(p.eof());
    assert_eq!(p.found(), Found::EndOfInput);
}

#[test]
fn tag_name_is_a_run_of_letters_and_digits() {
    let mut p = Parser::new("h1-x");
    assert_eq!(p.parse_tag_name(), "h1");
    assert_eq!(p.offset(), 2);
    assert_eq!(p.parse_tag_name(), "");
    assert_eq!(p.offset(), 2);
}

#[test]
fn attribute_parts_are_read_in_turn() {
    let mut p = Parser::new("id='x' class=\"a b\">");
    assert_eq!(p.parse_attr(), Ok(("id".to_string(), "x".to_string())));
    assert_eq!(p.offset(), 6);
    p.consume_whitespace();
    assert_eq!(p.offset(), 7);
    assert_eq!(p.parse_tag_name(), "class");
    assert_eq!(p.expect('='), Ok(()));
    assert_eq!(p.parse_attr_value(), Ok("a b".to_string()));
    assert_eq!(p.next_char(), '>');
    let mut q = Parser::new(" a='1'  b='2' >");
    let attrs = q.parse_attributes().unwrap();
    assert_eq!(attrs.len(), 2);
    assert_eq!(attrs.get("a").unwrap(), "1");
    assert_eq!(attrs.get("b").unwrap(), "2");
    assert_eq!(q.next_char(), '>');
}

#[test]
fn nodes_are_read_up_to_a_closing_tag() {
    let mut p = Parser::new(" a<b></b> </x>");
    let nodes = p.parse_nodes().unwrap();
    assert_eq!(nodes.len(), 2);
    assert_eq!(content(&nodes[0]), "a");
    assert_eq!(tag(&nodes[1]), "b");
    assert_eq!(p.offset(), 10);
    assert_eq!(p.parse_closing_tag(&"x".to_string()), Ok(()));
    assert!(p.eof());
    let mut q = Parser::new("text<");
    assert_eq!(content(&q.parse_text()), "text");
    let mut r = Parser::new("<i>1</i>2");
    assert_eq!(tag(&r.parse_node().unwrap()), "i");
    assert_eq!(content(&r.parse_node().unwrap()), "2");
    let mut s = Parser::new("<i>1</i>");
    assert_eq!(tag(&s.parse_element().unwrap()), "i");
}
