use styletree::css;
use styletree::dom::{split_on_spaces, Node, NodeType};
use styletree::html;
use styletree::style::{
    match_rule, matches_simple_selector, matching_rules, specified_values, style_tree,
    StyledNode,
};
use styletree::stylesheet::{
    Color, Number, Selector, SimpleSelector, Stylesheet, Unit, Value,
};

fn document(source: &str) -> Node {
    html::parse(source.to_string()).unwrap()
}

fn sheet(source: &str) -> Stylesheet {
    css::parse(source.to_string()).unwrap()
}

fn word(w: &str) -> Value {
    Value::Keyword(w.to_string())
}

fn simple(tag: Option<&str>, id: Option<&str>, class: &[&str]) -> SimpleSelector {
    SimpleSelector {
        tag_name: tag.map(|s| s.to_string()),
        id: id.map(|s| s.to_string()),
        class: class.iter().map(|s| s.to_string()).collect(),
    }
}

fn element(source: &str) -> Node {
    let node = document(source);
    assert!(matches!(node.node_type, NodeType::Element(_)));
    node
}

fn holds(source: &str, selector: &SimpleSelector) -> bool {
    match &element(source).node_type {
        NodeType::Element(e) => matches_simple_selector(e, selector),
        NodeType::Text(_) => unreachable!(),
    }
}

/// Whether two styled trees have the same shape and, for each of `names`,
/// the same value at each node.
fn same(a: &StyledNode, b: &StyledNode, names: &[&str]) -> bool {
    std::ptr::eq(a.node, b.node)
        && a.specified_values.len() == b.specified_values.len()
        && names.iter().all(|n| a.specified_values.get(n) == b.specified_values.get(n))
        && a.children.len() == b.children.len()
        && a.children.iter().zip(b.children.iter()).all(|(x, y)| same(x, y, names))
}

fn count(node: &Node) -> usize {
    1 + node.children.iter().map(count).sum::<usize>()
}

fn styled_count(node: &StyledNode) -> usize {
    1 + node.children.iter().map(styled_count).sum::<usize>()
}

fn mirrors(styled: &StyledNode, node: &Node) -> bool {
    std::ptr::eq(styled.node, node)
        && styled.children.len() == node.children.len()
        && styled.children.iter().zip(node.children.iter()).all(|(s, n)| mirrors(s, n))
}

#[test]
fn class_rule_and_tag_rule_each_reach_their_element() {
    let doc = document("<div class=\"a b\"><p>hi</p></div>");
    let css = sheet(".a { color: keyword_red; } p { color: keyword_blue; }");
    let styled = style_tree(&doc, &css);
    assert_eq!(styled.specified_values.len(), 1);
    assert_eq!(styled.specified_values.get("color"), Some(&word("keyword_red")));
    assert_eq!(styled.children.len(), 1);
    let p = &styled.children[0];
    assert_eq!(p.specified_values.len(), 1);
    assert_eq!(p.specified_values.get("color"), Some(&word("keyword_blue")));
    assert_eq!(p.children.len(), 1);
    let hi = &p.children[0];
    assert_eq!(hi.specified_values.len(), 0);
    assert_eq!(hi.children.len(), 0);
    assert!(matches!(&hi.node.node_type, NodeType::Text(t) if t == "hi"));
}

#[test]
fn id_rule_overrides_tag_rule_in_either_order() {
    let doc = document("<p id=\"x\"></p>");
    for source in ["p{color:red;} #x{color:blue;}", "#x{color:blue;} p{color:red;}"] {
        let css1 = sheet(source);
        let styled = style_tree(&doc, &css1);
        assert_eq!(styled.specified_values.len(), 1);
        assert_eq!(styled.specified_values.get("color"), Some(&word("blue")), "{}", source);
    }
}

#[test]
fn class_rule_overrides_tag_rule_and_yields_to_id_rule() {
    let doc = document("<p id='x' class='c'></p>");
    let css = sheet("#x{a:id;} .c{a:class;b:class;} p{a:tag;b:tag;c:tag;}");
    let styled = style_tree(&doc, &css);
    assert_eq!(styled.specified_values.len(), 3);
    assert_eq!(styled.specified_values.get("a"), Some(&word("id")));
    assert_eq!(styled.specified_values.get("b"), Some(&word("class")));
    assert_eq!(styled.specified_values.get("c"), Some(&word("tag")));
}

#[test]
fn later_rule_wins_among_equal_specificity() {
    let doc = document("<p class='c d'></p>");
    let css2 = sheet(".c{a:first;} .d{a:second;}");
    let styled = style_tree(&doc, &css2);
    assert_eq!(styled.specified_values.get("a"), Some(&word("second")));
    let css3 = sheet(".d{a:second;} .c{a:first;}");
    let styled = style_tree(&doc, &css3);
    assert_eq!(styled.specified_values.get("a"), Some(&word("first")));
}

#[test]
fn later_declaration_wins_within_a_rule() {
    let doc = document("<p></p>");
    let css4 = sheet("p{a:one;a:two;b:x;a:three;}");
    let styled = style_tree(&doc, &css4);
    assert_eq!(styled.specified_values.len(), 2);
    assert_eq!(styled.specified_values.get("a"), Some(&word("three")));
    assert_eq!(styled.specified_values.get("b"), Some(&word("x")));
}

#[test]
fn rule_counts_with_its_most_specific_matching_selector() {
    let doc = document("<p class='c'></p>");
    // The first rule matches through `p.c`, which outranks `.c`.
    let css5 = sheet("p, #nope, p.c {a:list;} .c{a:class;}");
    let styled = style_tree(&doc, &css5);
    assert_eq!(styled.specified_values.get("a"), Some(&word("list")));
    // Here it matches through `p` alone, and `.c` outranks that.
    let css6 = sheet("p, #nope, p.z {a:list;} .c{a:class;}");
    let styled = style_tree(&doc, &css6);
    assert_eq!(styled.specified_values.get("a"), Some(&word("class")));
}

#[test]
fn values_of_every_kind_are_carried_over() {
    let doc = document("<p></p>");
    let css7 = sheet("p{w:-1.5px;c:#010203;k:none;}");
    let styled = style_tree(&doc, &css7);
    assert_eq!(
        styled.specified_values.get("w"),
        Some(&Value::Length(
            Number { negative: true, whole: "1".to_string(), fraction: "5".to_string() },
            Unit::Px
        ))
    );
    assert_eq!(
        styled.specified_values.get("c"),
        Some(&Value::ColorValue(Color { r: 1, g: 2, b: 3, a: 255 }))
    );
    assert_eq!(styled.specified_values.get("k"), Some(&word("none")));
}

#[test]
fn unmatched_element_and_text_have_no_properties() {
    let doc = document("<div>text<span></span></div>");
    let css8 = sheet("p{a:b;} .x{a:c;} #y{a:d;}");
    let styled = style_tree(&doc, &css8);
    assert_eq!(styled.specified_values.len(), 0);
    assert_eq!(styled.children[0].specified_values.len(), 0);
    assert_eq!(styled.children[1].specified_values.len(), 0);
}

#[test]
fn lone_text_document_has_no_properties() {
    let doc = document("only text");
    let css9 = sheet("*{a:b;}");
    let styled = style_tree(&doc, &css9);
    assert_eq!(styled.specified_values.len(), 0);
    assert_eq!(styled.children.len(), 0);
}

#[test]
fn universal_selector_matches_every_element() {
    let doc = document("<a><b></b>t</a>");
    let css10 = sheet("*{k:v;}");
    let styled = style_tree(&doc, &css10);
    assert_eq!(styled.specified_values.get("k"), Some(&word("v")));
    assert_eq!(styled.children[0].specified_values.get("k"), Some(&word("v")));
    assert_eq!(styled.children[1].specified_values.len(), 0);
}

#[test]
fn styling_twice_gives_the_same_tree() {
    let doc = document("<div id='m' class='a b'><p class='a'>x<i></i></p><p>y</p></div>");
    let css = sheet("#m{k:1px;} .a{k:2px;c:#ff0000;} p{k:3px;d:e;} *{z:z;}");
    let first = style_tree(&doc, &css);
    let second = style_tree(&doc, &css);
    assert!(same(&first, &second, &["k", "c", "d", "z", "none"]));
}

#[test]
fn styled_tree_has_the_shape_of_the_document() {
    for source in [
        "",
        "text",
        "<a></a>",
        "<a>1<b>2<c>3</c>4</b>5<d></d></a>",
        "<x></x><y><z></z></y>t",
    ] {
        let doc = document(source);
        let css = sheet("a{k:v;} c,d{k:w;}");
        let styled = style_tree(&doc, &css);
        assert!(mirrors(&styled, &doc), "{:?}", source);
        assert_eq!(styled_count(&styled), count(&doc), "{:?}", source);
    }
}

#[test]
fn simple_selector_matches_by_tag_id_and_classes() {
    let source = "<p id='x' class='a b'></p>";
    assert!(holds(source, &simple(None, None, &[])));
    assert!(holds(source, &simple(Some("p"), None, &[])));
    assert!(!holds(source, &simple(Some("div"), None, &[])));
    assert!(holds(source, &simple(None, Some("x"), &[])));
    assert!(!holds(source, &simple(None, Some("y"), &[])));
    assert!(holds(source, &simple(None, None, &["a"])));
    assert!(holds(source, &simple(None, None, &["b", "a", "a"])));
    assert!(!holds(source, &simple(None, None, &["a", "c"])));
    assert!(!holds(source, &simple(None, None, &["a b"])));
    assert!(holds(source, &simple(Some("p"), Some("x"), &["a", "b"])));
    assert!(!holds(source, &simple(Some("p"), Some("x"), &["a", "b", "c"])));
    assert!(!holds("<p></p>", &simple(None, Some("x"), &[])));
    assert!(!holds("<p></p>", &simple(None, Some(""), &[])));
    assert!(!holds("<p></p>", &simple(None, None, &["a"])));
    assert!(!holds("<p></p>", &simple(None, None, &[""])));
    assert!(holds("<p class=''></p>", &simple(None, None, &[""])));
    assert!(holds("<p class='a  b'></p>", &simple(None, None, &["", "a", "b"])));
}

#[test]
fn id_and_classes_come_from_the_attributes() {
    let node = element("<p id='x' class='a b a'></p>");
    let e = match &node.node_type {
        NodeType::Element(e) => e,
        NodeType::Text(_) => unreachable!(),
    };
    assert_eq!(e.id(), Some(&"x".to_string()));
    assert_eq!(e.attributes.get("class"), Some(&"a b a".to_string()));
    assert_eq!(e.attributes.get("none"), None);
    let classes = e.classes();
    assert_eq!(classes.len(), 2);
    assert!(classes.contains("a"));
    assert!(classes.contains("b"));
    assert!(!classes.contains("a b a"));
    let bare = element("<p></p>");
    let e = match &bare.node_type {
        NodeType::Element(e) => e,
        NodeType::Text(_) => unreachable!(),
    };
    assert_eq!(e.id(), None);
    assert_eq!(e.classes().len(), 0);
}

#[test]
fn splitting_on_single_spaces_keeps_empty_pieces() {
    let pieces = split_on_spaces("");
    assert_eq!(pieces.len(), 1);
    assert!(pieces.contains(""));
    let pieces = split_on_spaces("a");
    assert_eq!(pieces.len(), 1);
    assert!(pieces.contains("a"));
    let pieces = split_on_spaces("a  bc ");
    assert_eq!(pieces.len(), 3);
    assert!(pieces.contains("a"));
    assert!(pieces.contains("bc"));
    assert!(pieces.contains(""));
    let pieces = split_on_spaces("a\tb c");
    assert_eq!(pieces.len(), 2);
    assert!(pieces.contains("a\tb"));
    assert!(pieces.contains("c"));
}

#[test]
fn matching_rules_come_in_sheet_order_with_their_specificity() {
    let node = element("<p id='x' class='c'></p>");
    let e = match &node.node_type {
        NodeType::Element(e) => e,
        NodeType::Text(_) => unreachable!(),
    };
    let css = sheet("p{a:b;} div{a:c;} #x,p.c{a:d;} .c{a:e;}");
    let found = matching_rules(e, &css);
    assert_eq!(found.len(), 3);
    assert_eq!(found[0].0, (0, 0, 1));
    assert!(std::ptr::eq(found[0].1, &css.rules[0]));
    assert_eq!(found[1].0, (1, 0, 0));
    assert!(std::ptr::eq(found[1].1, &css.rules[2]));
    assert_eq!(found[2].0, (0, 1, 0));
    assert!(std::ptr::eq(found[2].1, &css.rules[3]));
    assert!(match_rule(e, &css.rules[1]).is_none());
    assert!(styletree::style::matches(e, &css.rules[2].selectors[1]));
    assert!(styletree::style::matches(e, &Selector::Simple(simple(None, None, &[]))));
    let values = specified_values(e, &css);
    assert_eq!(values.len(), 1);
    assert_eq!(values.get("a"), Some(&word("d")));
}
