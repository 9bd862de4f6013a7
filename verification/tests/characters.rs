use styletree::chars::{to_chars, CharClass};

#[test]
fn whitespace_is_what_the_standard_library_calls_whitespace() {
    for n in 0..=0x10FFFFu32 {
        if let Some(c) = char::from_u32(n) {
            assert_eq!(CharClass::Whitespace.contains(c), c.is_whitespace(), "U+{:04X}", n);
        }
    }
}

#[test]
fn alphanumeric_is_ascii_letters_and_digits() {
    for n in 0..=0x10FFFFu32 {
        if let Some(c) = char::from_u32(n) {
            assert_eq!(
                CharClass::Alphanumeric.contains(c),
                c.is_ascii_alphanumeric(),
                "U+{:04X}",
                n
            );
            assert_eq!(CharClass::Digit.contains(c), c.is_ascii_digit(), "U+{:04X}", n);
            assert_eq!(
                CharClass::Identifier.contains(c),
                c.is_ascii_alphanumeric() || c == '-' || c == '_',
                "U+{:04X}",
                n
            );
        }
    }
}

#[test]
fn except_holds_of_every_other_character() {
    assert!(!CharClass::Except('<').contains('<'));
    assert!(CharClass::Except('<').contains('>'));
    assert!(CharClass::Except('"').contains('\''));
}

#[test]
fn text_becomes_its_characters() {
    let v = to_chars("a\u{e9}\u{1f600}");
    assert_eq!(v, vec!['a', '\u{e9}', '\u{1f600}']);
    assert_eq!(to_chars(""), Vec::<char>::new());
}
