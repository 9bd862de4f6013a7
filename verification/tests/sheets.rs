use styletree::css::{hex_digit, names_px, parse};
use styletree::error::{Expected, Found, SyntaxError};
use styletree::order::{is_overtaking, sort_by_specificity};
use styletree::scanner::Parser;
use styletree::stylesheet::{
    is_higher, Color, Declaration, Number, Rule, Selector, SimpleSelector, Specificity,
    Stylesheet, Unit, Value,
};

fn simple(tag: Option<&str>, id: Option<&str>, class: &[&str]) -> Selector {
    Selector::Simple(SimpleSelector {
        tag_name: tag.map(|s| s.to_string()),
        id: id.map(|s| s.to_string()),
        class: class.iter().map(|s| s.to_string()).collect(),
    })
}

fn keyword(name: &str, word: &str) -> Declaration {
    Declaration { name: name.to_string(), value: Value::Keyword(word.to_string()) }
}

fn length(negative: bool, whole: &str, fraction: &str) -> Value {
    Value::Length(
        Number { negative, whole: whole.to_string(), fraction: fraction.to_string() },
        Unit::Px,
    )
}

fn failure(source: &str) -> SyntaxError {
    match parse(source.to_string()) {
        Ok(_) => panic!("the parse should fail"),
        Err(e) => e,
    }
}

#[test]
fn specificity_counts_ids_classes_and_tags() {
    assert_eq!(simple(None, None, &[]).specificity(), (0, 0, 0));
    assert_eq!(simple(Some("p"), None, &[]).specificity(), (0, 0, 1));
    assert_eq!(simple(None, Some("x"), &[]).specificity(), (1, 0, 0));
    assert_eq!(simple(None, None, &["a", "b", "c"]).specificity(), (0, 3, 0));
    assert_eq!(simple(Some("p"), Some("x"), &["a", "a"]).specificity(), (1, 2, 1));
}

#[test]
fn an_id_beats_classes_and_a_class_beats_tags() {
    assert!(is_higher((1, 0, 0), (0, 5, 0)));
    assert!(is_higher((0, 5, 0), (0, 0, 1)));
    assert!(is_higher((1, 0, 0), (0, 0, 1)));
    assert!(!is_higher((0, 5, 0), (1, 0, 0)));
    assert!(!is_higher((0, 0, 1), (0, 5, 0)));
    assert!(is_higher((0, 2, 0), (0, 1, 9)));
    assert!(is_higher((1, 2, 0), (1, 1, 1)));
    assert!(is_higher((1, 1, 2), (1, 1, 1)));
    assert!(!is_higher((1, 1, 1), (1, 1, 1)));
    assert!(is_higher((1, 0, 0), (0, usize::MAX, usize::MAX)));
}

#[test]
fn overtaking_follows_the_direction() {
    assert!(is_overtaking((1, 0, 0), (0, 1, 0), true));
    assert!(!is_overtaking((1, 0, 0), (0, 1, 0), false));
    assert!(is_overtaking((0, 1, 0), (1, 0, 0), false));
    assert!(!is_overtaking((0, 1, 0), (0, 1, 0), true));
    assert!(!is_overtaking((0, 1, 0), (0, 1, 0), false));
}

#[test]
fn sorting_is_stable_in_both_directions() {
    let keys: Vec<Specificity> =
        vec![(0, 0, 1), (0, 1, 0), (0, 0, 1), (1, 0, 0), (0, 1, 0), (0, 0, 0)];
    let mut items = vec!['a', 'b', 'c', 'd', 'e', 'f'];
    let mut k = keys.clone();
    sort_by_specificity(&mut items, &mut k, true);
    assert_eq!(items, vec!['d', 'b', 'e', 'a', 'c', 'f']);
    assert_eq!(k, vec![(1, 0, 0), (0, 1, 0), (0, 1, 0), (0, 0, 1), (0, 0, 1), (0, 0, 0)]);
    let mut items = vec!['a', 'b', 'c', 'd', 'e', 'f'];
    let mut k = keys.clone();
    sort_by_specificity(&mut items, &mut k, false);
    assert_eq!(items, vec!['f', 'a', 'c', 'b', 'e', 'd']);
    assert_eq!(k, vec![(0, 0, 0), (0, 0, 1), (0, 0, 1), (0, 1, 0), (0, 1, 0), (1, 0, 0)]);
    let mut none: Vec<u8> = vec![];
    let mut no_keys: Vec<Specificity> = vec![];
    sort_by_specificity(&mut none, &mut no_keys, true);
    assert!(none.is_empty());
    let mut items = vec!['a', 'b'];
    let mut k: Vec<Specificity> = vec![(0, 0, 1)];
    sort_by_specificity(&mut items, &mut k, true);
    assert_eq!(items, vec!['a', 'b']);
    assert_eq!(k, vec![(0, 0, 1)]);
}

#[test]
fn empty_sheet_has_no_rules() {
    assert_eq!(parse(String::new()), Ok(Stylesheet { rules: vec![] }));
    assert_eq!(parse("  \n ".to_string()), Ok(Stylesheet { rules: vec![] }));
}

#[test]
fn rules_keep_their_order_and_their_declarations() {
    let sheet = parse(".a { color: keyword_red; } p { color: keyword_blue; }".to_string()).unwrap();
    assert_eq!(
        sheet,
        Stylesheet {
            rules: vec![
                Rule {
                    selectors: vec![simple(None, None, &["a"])],
                    declarations: vec![keyword("color", "keyword_red")],
                },
                Rule {
                    selectors: vec![simple(Some("p"), None, &[])],
                    declarations: vec![keyword("color", "keyword_blue")],
                },
            ],
        }
    );
}

#[test]
fn selectors_are_sorted_from_the_highest_specificity() {
    let sheet = parse("p, .a, #x, .b , div,h1.c#y.d{}".to_string()).unwrap();
    assert_eq!(
        sheet.rules[0].selectors,
        vec![
            simple(Some("h1"), Some("y"), &["c", "d"]),
            simple(None, Some("x"), &[]),
            simple(None, None, &["a"]),
            simple(None, None, &["b"]),
            simple(Some("p"), None, &[]),
            simple(Some("div"), None, &[]),
        ]
    );
    assert!(sheet.rules[0].declarations.is_empty());
}

#[test]
fn selector_parts_may_repeat() {
    let mut p = Parser::new("*a#x#y.c.c b");
    assert_eq!(
        Selector::Simple(p.parse_simple_selector()),
        simple(Some("a"), Some("y"), &["c", "c"])
    );
    assert_eq!(p.offset(), 10);
    let mut q = Parser::new("#x h1");
    assert_eq!(Selector::Simple(q.parse_simple_selector()), simple(None, Some("x"), &[]));
    let mut r = Parser::new("#.{");
    assert_eq!(Selector::Simple(r.parse_simple_selector()), simple(None, Some(""), &[""]));
    assert_eq!(r.next_char(), '{');
}

#[test]
fn universal_selector_asks_nothing() {
    let sheet = parse("* { margin: auto; }".to_string()).unwrap();
    assert_eq!(sheet.rules[0].selectors, vec![simple(None, None, &[])]);
    assert_eq!(sheet.rules[0].declarations, vec![keyword("margin", "auto")]);
}

#[test]
fn values_are_told_apart_by_their_first_character() {
    let sheet = parse(
        "a{width:10px;height: 2.5PX ;top:-3px;left:+0.25px;right:7.px;color:#1a2B3c;display:block;x:;}"
            .to_string(),
    )
    .unwrap();
    let d = &sheet.rules[0].declarations;
    assert_eq!(d.len(), 8);
    assert_eq!(d[0], Declaration { name: "width".to_string(), value: length(false, "10", "") });
    assert_eq!(d[1], Declaration { name: "height".to_string(), value: length(false, "2", "5") });
    assert_eq!(d[2], Declaration { name: "top".to_string(), value: length(true, "3", "") });
    assert_eq!(d[3], Declaration { name: "left".to_string(), value: length(false, "0", "25") });
    assert_eq!(d[4], Declaration { name: "right".to_string(), value: length(false, "7", "") });
    assert_eq!(
        d[5],
        Declaration {
            name: "color".to_string(),
            value: Value::ColorValue(Color { r: 0x1a, g: 0x2b, b: 0x3c, a: 255 }),
        }
    );
    assert_eq!(d[6], keyword("display", "block"));
    assert_eq!(d[7], keyword("x", ""));
}

#[test]
fn colours_cover_the_whole_range() {
    let sheet = parse("a{c:#000000;d:#ffffff;e:#FF0080;}".to_string()).unwrap();
    let d = &sheet.rules[0].declarations;
    assert_eq!(d[0].value, Value::ColorValue(Color { r: 0, g: 0, b: 0, a: 255 }));
    assert_eq!(d[1].value, Value::ColorValue(Color { r: 255, g: 255, b: 255, a: 255 }));
    assert_eq!(d[2].value, Value::ColorValue(Color { r: 255, g: 0, b: 128, a: 255 }));
}

#[test]
fn hexadecimal_digits_have_their_values() {
    let digits = "0123456789abcdef";
    for (n, c) in digits.chars().enumerate() {
        assert_eq!(hex_digit(c), Some(n as u8));
        assert_eq!(hex_digit(c.to_ascii_uppercase()), Some(n as u8));
    }
    for c in ['g', 'G', ' ', '/', ':', '@', '`', '\u{e9}', '\u{ff11}'] {
        assert_eq!(hex_digit(c), None);
    }
    let mut p = Parser::new("7f");
    assert_eq!(p.parse_hex_pair(), Ok(127));
    let mut q = Parser::new("a");
    assert_eq!(q.parse_hex_digit(), Ok(10));
    assert_eq!(
        q.parse_hex_digit(),
        Err(SyntaxError { position: 1, expected: Expected::HexDigit, found: Found::EndOfInput })
    );
}

#[test]
fn px_is_the_only_unit() {
    assert!(names_px("px"));
    assert!(names_px("PX"));
    assert!(names_px("pX"));
    assert!(names_px("Px"));
    assert!(!names_px("p"));
    assert!(!names_px("pxx"));
    assert!(!names_px("em"));
    assert!(!names_px(""));
    let mut p = Parser::new("px;");
    assert_eq!(p.parse_unit(), Ok(Unit::Px));
    assert_eq!(p.offset(), 2);
}

#[test]
fn unknown_unit_is_an_error() {
    assert_eq!(
        failure("a{w:10em;}"),
        SyntaxError { position: 6, expected: Expected::Unit, found: Found::Name("em".to_string()) }
    );
    assert_eq!(
        failure("a{w:10;}"),
        SyntaxError { position: 6, expected: Expected::Unit, found: Found::Name(String::new()) }
    );
    assert_eq!(
        failure("a{w:1.2.3px;}"),
        SyntaxError { position: 7, expected: Expected::Unit, found: Found::Name(String::new()) }
    );
}

#[test]
fn sign_without_digits_is_an_error() {
    assert_eq!(
        failure("a{w:-px;}"),
        SyntaxError { position: 5, expected: Expected::Digit, found: Found::Char('p') }
    );
    assert_eq!(
        failure("a{w:+"),
        SyntaxError { position: 5, expected: Expected::Digit, found: Found::EndOfInput }
    );
}

#[test]
fn short_colour_is_an_error() {
    assert_eq!(
        failure("a{c:#12345;}"),
        SyntaxError { position: 10, expected: Expected::HexDigit, found: Found::Char(';') }
    );
    assert_eq!(
        failure("a{c:#12g456;}"),
        SyntaxError { position: 7, expected: Expected::HexDigit, found: Found::Char('g') }
    );
    assert_eq!(
        failure("a{c:#"),
        SyntaxError { position: 5, expected: Expected::HexDigit, found: Found::EndOfInput }
    );
}

#[test]
fn unexpected_character_in_a_selector_list_is_an_error() {
    assert_eq!(
        failure("a b {}"),
        SyntaxError { position: 2, expected: Expected::Char('{'), found: Found::Char('b') }
    );
    assert_eq!(
        failure("a > b {}"),
        SyntaxError { position: 2, expected: Expected::Char('{'), found: Found::Char('>') }
    );
    assert_eq!(
        failure("a, b"),
        SyntaxError { position: 4, expected: Expected::Char('{'), found: Found::EndOfInput }
    );
}

#[test]
fn missing_colon_or_semicolon_is_an_error() {
    assert_eq!(
        failure("a{color red;}"),
        SyntaxError { position: 8, expected: Expected::Char(':'), found: Found::Char('r') }
    );
    assert_eq!(
        failure("a{color:red}"),
        SyntaxError { position: 11, expected: Expected::Char(';'), found: Found::Char('}') }
    );
    assert_eq!(
        failure("a{color:red blue;}"),
        SyntaxError { position: 12, expected: Expected::Char(';'), found: Found::Char('b') }
    );
}

#[test]
fn missing_closing_brace_is_an_error() {
    assert_eq!(
        failure("a{color:red; "),
        SyntaxError { position: 13, expected: Expected::Char('}'), found: Found::EndOfInput }
    );
    assert_eq!(
        failure("a{"),
        SyntaxError { position: 2, expected: Expected::Char('}'), found: Found::EndOfInput }
    );
}

#[test]
fn rule_parts_are_read_in_turn() {
    let mut p = Parser::new("b, #a {x:y;} rest");
    assert_eq!(
        p.parse_selectors(),
        Ok(vec![simple(None, Some("a"), &[]), simple(Some("b"), None, &[])])
    );
    assert_eq!(p.expect('{'), Ok(()));
    assert_eq!(p.parse_declarations(), Ok(vec![keyword("x", "y")]));
    assert_eq!(p.offset(), 12);
    let mut q = Parser::new("k : v ;");
    assert_eq!(q.parse_declaration(), Ok(keyword("k", "v")));
    assert!(q.eof());
    let mut r = Parser::new("a{} b{} ");
    let first = r.parse_rule().unwrap();
    assert_eq!(first.selectors, vec![simple(Some("a"), None, &[])]);
    assert_eq!(r.parse_rules().unwrap().len(), 1);
    let mut s = Parser::new("some-name_1!");
    assert_eq!(s.parse_identifier(), "some-name_1");
    let mut t = Parser::new("#0000ff");
    assert_eq!(t.parse_color(), Ok(Color { r: 0, g: 0, b: 255, a: 255 }));
    let mut u = Parser::new("12.50px");
    assert_eq!(u.parse_length(), Ok(length(false, "12", "50")));
    let mut v = Parser::new("red");
    assert_eq!(v.parse_value(), Ok(Value::Keyword("red".to_string())));
}

#[test]
fn values_clone_to_equal_values() {
    for value in [
        Value::Keyword("auto".to_string()),
        length(true, "1", "5"),
        Value::ColorValue(Color { r: 1, g: 2, b: 3, a: 4 }),
    ] {
        assert_eq!(value.clone(), value);
    }
}
