//! Writing a style sheet as text, and the law that reading the text gives
//! the style sheet back.

use vstd::prelude::*;
use crate::chars::{is_digit, is_identifier_char, is_whitespace, CharClass};
use crate::css::{
    blank_selector, by_specificity, color_at, declaration_at, declarations_from, hex_pair_at,
    hex_value, highest_first, is_decimal, is_px, length_at, rule_at, rules_from, selectors_from,
    simple_selector_from, specificities, stylesheet_of, unit_at, value_at,
};
use crate::error::SyntaxErrorModel;
use crate::order::{lemma_arranged_in_turn, lemma_ordered_stays};
use crate::render::{
    lemma_holds_at_index, lemma_holds_at_nothing, lemma_holds_at_split, lemma_no_whitespace,
    lemma_run_over,
};
use crate::scanner::holds_at;
use crate::stylesheet::{
    Color, DeclarationModel, NumberModel, RuleModel, SelectorModel, SheetModel, SimpleModel, Unit,
    ValueModel,
};

verus! {

/// Whether every character of `word` may stand in an identifier.
pub open spec fn is_identifier(word: Seq<char>) -> bool {
    forall|k: int| 0 <= k < word.len() ==> is_identifier_char(#[trigger] word[k])
}

/// Whether `c` ends a simple selector: it starts no part of one.
pub open spec fn ends_selector(c: char) -> bool {
    c != '#' && c != '.' && c != '*' && !is_identifier_char(c)
}

/// The class names from the one at index `from` on, as they are written:
/// each behind a `.`.
pub open spec fn written_classes(class: Seq<Seq<char>>, from: int) -> Seq<char>
    decreases class.len() - from,
{
    if 0 <= from < class.len() {
        seq!['.'] + class[from] + written_classes(class, from + 1)
    } else {
        Seq::empty()
    }
}

/// The tag name of a selector as it is written: nothing where it has none.
pub open spec fn written_tag(selector: SimpleModel) -> Seq<char> {
    match selector.tag_name {
        Some(name) => name,
        None => Seq::empty(),
    }
}

/// The id of a selector as it is written: behind a `#`; nothing where it
/// has none.
pub open spec fn written_id(selector: SimpleModel) -> Seq<char> {
    match selector.id {
        Some(id) => seq!['#'] + id,
        None => Seq::empty(),
    }
}

/// A simple selector as it is written: the tag name, the id, the classes.
pub open spec fn written_simple(selector: SimpleModel) -> Seq<char> {
    written_tag(selector) + written_id(selector) + written_classes(selector.class, 0)
}

/// Whether a simple selector can be written so that reading gives it back:
/// its tag name, if it has one, is an identifier of at least one character,
/// and its id and its classes are identifiers.
pub open spec fn is_writable_simple(selector: SimpleModel) -> bool {
    &&& selector.tag_name matches Some(name) ==> name.len() > 0 && is_identifier(name)
    &&& selector.id matches Some(id) ==> is_identifier(id)
    &&& forall|k: int| 0 <= k < selector.class.len() ==> is_identifier(#[trigger] selector.class[k])
}

/// Written classes read back, onto what `acc` holds.
pub proof fn lemma_classes_read_back(
    s: Seq<char>,
    pos: int,
    class: Seq<Seq<char>>,
    from: int,
    acc: SimpleModel,
)
    requires
        0 <= from <= class.len(),
        forall|k: int| 0 <= k < class.len() ==> is_identifier(#[trigger] class[k]),
        holds_at(s, pos, written_classes(class, from)),
        pos + written_classes(class, from).len() < s.len() ==> ends_selector(
            s[pos + written_classes(class, from).len()],
        ),
    ensures
        simple_selector_from(s, pos, acc) == (
            SimpleModel { class: acc.class + class.subrange(from, class.len() as int), ..acc },
            pos + written_classes(class, from).len(),
        ),
    decreases class.len() - from,
{
    let n = class.len() as int;
    if from < n {
        let name = class[from];
        let others = written_classes(class, from + 1);
        let x1 = seq!['.'] + name;
        lemma_holds_at_split(s, pos, x1, others);
        lemma_holds_at_split(s, pos, seq!['.'], name);
        lemma_holds_at_index(s, pos, seq!['.'], 0);
        let end = pos + 1 + name.len();
        assert(is_identifier(name));
        assert(end < s.len() ==> !is_identifier_char(s[end])) by {
            if from + 1 < n {
                lemma_holds_at_index(s, end, others, 0);
            }
        }
        lemma_run_over(s, pos + 1, CharClass::Identifier, name);
        let next = SimpleModel { class: acc.class.push(name), ..acc };
        lemma_classes_read_back(s, end, class, from + 1, next);
        assert(acc.class.push(name) + class.subrange(from + 1, n) =~= acc.class + class.subrange(
            from,
            n,
        ));
    } else {
        assert(acc.class + class.subrange(from, n) =~= acc.class);
    }
}

/// A written simple selector reads back.
pub proof fn lemma_simple_reads_back(s: Seq<char>, pos: int, selector: SimpleModel)
    requires
        is_writable_simple(selector),
        holds_at(s, pos, written_simple(selector)),
        pos + written_simple(selector).len() < s.len() ==> ends_selector(
            s[pos + written_simple(selector).len()],
        ),
    ensures
        simple_selector_from(s, pos, blank_selector()) == (
            selector,
            pos + written_simple(selector).len(),
        ),
{
    let tag = written_tag(selector);
    let id = written_id(selector);
    let classes = written_classes(selector.class, 0);
    lemma_holds_at_split(s, pos, tag + id, classes);
    lemma_holds_at_split(s, pos, tag, id);
    let after_tag = pos + tag.len();
    let after_id = after_tag + id.len();
    // What stands behind the id, and behind the tag name, is no part of an
    // identifier.
    assert(after_id < s.len() ==> !is_identifier_char(s[after_id]) && s[after_id] != '#'
        && s[after_id] != '*') by {
        if classes.len() > 0 {
            lemma_holds_at_index(s, after_id, classes, 0);
        }
    }
    assert(after_tag < s.len() ==> !is_identifier_char(s[after_tag]) && s[after_tag] != '*') by {
        if id.len() > 0 {
            lemma_holds_at_index(s, after_tag, id, 0);
        }
    }
    let with_tag = SimpleModel { tag_name: selector.tag_name, ..blank_selector() };
    let with_id = SimpleModel { id: selector.id, ..with_tag };
    lemma_classes_read_back(s, after_id, selector.class, 0, with_id);
    assert(with_id.class + selector.class.subrange(0, selector.class.len() as int)
        =~= selector.class);
    assert(simple_selector_from(s, after_id, with_id) == (selector, after_id + classes.len()));
    assert(simple_selector_from(s, after_tag, with_tag) == (selector, after_id + classes.len()))
        by {
        match selector.id {
            Some(name) => {
                lemma_holds_at_split(s, after_tag, seq!['#'], name);
                lemma_holds_at_index(s, after_tag, seq!['#'], 0);
                lemma_run_over(s, after_tag + 1, CharClass::Identifier, name);
            },
            None => {},
        }
    }
    match selector.tag_name {
        Some(name) => {
            lemma_holds_at_index(s, pos, name, 0);
            assert(is_identifier_char(name[0]));
            lemma_run_over(s, pos, CharClass::Identifier, name);
        },
        None => {},
    }
}

/// A written simple selector does not start with whitespace, and ends
/// nothing that ends a selector.
pub proof fn lemma_written_simple_start(selector: SimpleModel)
    requires
        is_writable_simple(selector),
        written_simple(selector).len() > 0,
    ensures
        !is_whitespace(written_simple(selector)[0]),
        written_simple(selector)[0] != '{',
        written_simple(selector)[0] != ',',
{
    let tag = written_tag(selector);
    let id = written_id(selector);
    let classes = written_classes(selector.class, 0);
    let w = written_simple(selector);
    if tag.len() > 0 {
        assert(w[0] == tag[0]);
        assert(is_identifier_char(tag[0]));
    } else if id.len() > 0 {
        assert(w[0] == id[0]);
    } else {
        assert(w[0] == classes[0]);
    }
}

/// A selector as it is written.
pub open spec fn written_selector(selector: SelectorModel) -> Seq<char> {
    match selector {
        SelectorModel::Simple(simple) => written_simple(simple),
    }
}

/// Whether a selector can be written so that reading gives it back.
pub open spec fn is_writable_selector(selector: SelectorModel) -> bool {
    match selector {
        SelectorModel::Simple(simple) => is_writable_simple(simple),
    }
}

/// The selectors from the one at index `from` on, as they are written: with
/// a `,` between one and the next.
pub open spec fn written_selectors(selectors: Seq<SelectorModel>, from: int) -> Seq<char>
    decreases selectors.len() - from,
{
    if 0 <= from < selectors.len() {
        written_selector(selectors[from]) + (if from + 1 < selectors.len() {
            seq![','] + written_selectors(selectors, from + 1)
        } else {
            Seq::empty()
        })
    } else {
        Seq::empty()
    }
}

/// What stands where written selectors and the `{` behind them start is no
/// whitespace.
pub proof fn lemma_written_selectors_start(
    s: Seq<char>,
    pos: int,
    selectors: Seq<SelectorModel>,
    from: int,
)
    requires
        0 <= from < selectors.len(),
        forall|k: int|
            0 <= k < selectors.len() ==> is_writable_selector(#[trigger] selectors[k]),
        holds_at(s, pos, written_selectors(selectors, from)),
        holds_at(s, pos + written_selectors(selectors, from).len(), seq!['{']),
    ensures
        pos < s.len(),
        !is_whitespace(s[pos]),
{
    let first = written_selector(selectors[from]);
    let all = written_selectors(selectors, from);
    lemma_holds_at_index(s, pos + all.len(), seq!['{'], 0);
    assert(is_writable_selector(selectors[from]));
    if first.len() > 0 {
        lemma_written_simple_start(selectors[from]->Simple_0);
        lemma_holds_at_index(s, pos, all, 0);
        assert(all[0] == first[0]);
    } else if from + 1 < selectors.len() {
        lemma_holds_at_index(s, pos, all, 0);
        assert(all[0] == ',');
    } else {
        assert(all.len() == 0);
    }
}

/// Written selectors read back, up to the `{` behind them.
pub proof fn lemma_selectors_read_back(
    s: Seq<char>,
    pos: int,
    selectors: Seq<SelectorModel>,
    from: int,
    acc: Seq<SelectorModel>,
)
    requires
        0 <= from < selectors.len(),
        forall|k: int|
            0 <= k < selectors.len() ==> is_writable_selector(#[trigger] selectors[k]),
        holds_at(s, pos, written_selectors(selectors, from)),
        holds_at(s, pos + written_selectors(selectors, from).len(), seq!['{']),
    ensures
        selectors_from(s, pos, acc) == Ok::<_, SyntaxErrorModel>(
            (
                acc + selectors.subrange(from, selectors.len() as int),
                pos + written_selectors(selectors, from).len(),
            ),
        ),
    decreases selectors.len() - from,
{
    let n = selectors.len() as int;
    let selector = selectors[from];
    let simple = selector->Simple_0;
    let first = written_selector(selector);
    let all = written_selectors(selectors, from);
    let tail = if from + 1 < n {
        seq![','] + written_selectors(selectors, from + 1)
    } else {
        Seq::empty()
    };
    assert(all == first + tail);
    assert(is_writable_selector(selector));
    lemma_holds_at_split(s, pos, first, tail);
    lemma_holds_at_index(s, pos + all.len(), seq!['{'], 0);
    let end = pos + first.len();
    if from + 1 < n {
        let others = written_selectors(selectors, from + 1);
        lemma_holds_at_split(s, end, seq![','], others);
        lemma_holds_at_index(s, end, seq![','], 0);
        lemma_simple_reads_back(s, pos, simple);
        lemma_no_whitespace(s, end);
        lemma_written_selectors_start(s, end + 1, selectors, from + 1);
        lemma_no_whitespace(s, end + 1);
        lemma_selectors_read_back(s, end + 1, selectors, from + 1, acc.push(selector));
        assert(acc.push(selector) + selectors.subrange(from + 1, n) =~= acc + selectors.subrange(
            from,
            n,
        ));
    } else {
        lemma_simple_reads_back(s, pos, simple);
        lemma_no_whitespace(s, end);
        assert(acc.push(selector) =~= acc + selectors.subrange(from, n));
    }
}

/// The hexadecimal digit that writes a number below 16, in small letters.
pub open spec fn hex_char(digit: int) -> char {
    if digit < 10 {
        (digit + 48) as char
    } else {
        (digit + 87) as char
    }
}

/// The two hexadecimal digits that write a byte.
pub open spec fn written_byte(byte: u8) -> Seq<char> {
    seq![hex_char(byte as int / 16), hex_char(byte as int % 16)]
}

/// A written hexadecimal digit has the value that it writes.
pub proof fn lemma_hex_char(digit: int)
    requires
        0 <= digit < 16,
    ensures
        hex_value(hex_char(digit)) == Some(digit as u8),
{
}

/// A written byte reads back.
pub proof fn lemma_byte_reads_back(s: Seq<char>, pos: int, byte: u8)
    requires
        holds_at(s, pos, written_byte(byte)),
    ensures
        hex_pair_at(s, pos) == Ok::<_, SyntaxErrorModel>((byte, pos + 2)),
{
    lemma_holds_at_index(s, pos, written_byte(byte), 0);
    lemma_holds_at_index(s, pos, written_byte(byte), 1);
    lemma_hex_char(byte as int / 16);
    lemma_hex_char(byte as int % 16);
}

/// A colour as it is written: `#` and two hexadecimal digits each for red,
/// green and blue.
pub open spec fn written_color(color: Color) -> Seq<char> {
    seq!['#'] + written_byte(color.r) + written_byte(color.g) + written_byte(color.b)
}

/// A written colour reads back, if its alpha is 255.
pub proof fn lemma_color_reads_back(s: Seq<char>, pos: int, color: Color)
    requires
        color.a == 255,
        holds_at(s, pos, written_color(color)),
    ensures
        color_at(s, pos) == Ok::<_, SyntaxErrorModel>((color, pos + 7)),
        written_color(color).len() == 7,
{
    let x1 = seq!['#'] + written_byte(color.r);
    let x2 = x1 + written_byte(color.g);
    lemma_holds_at_split(s, pos, x2, written_byte(color.b));
    lemma_holds_at_split(s, pos, x1, written_byte(color.g));
    lemma_holds_at_split(s, pos, seq!['#'], written_byte(color.r));
    lemma_holds_at_index(s, pos, seq!['#'], 0);
    lemma_byte_reads_back(s, pos + 1, color.r);
    lemma_byte_reads_back(s, pos + 3, color.g);
    lemma_byte_reads_back(s, pos + 5, color.b);
}

/// The sign of a number as it is written: `-`, or nothing.
pub open spec fn written_sign(number: NumberModel) -> Seq<char> {
    if number.negative {
        seq!['-']
    } else {
        Seq::empty()
    }
}

/// The fraction of a number as it is written: behind a `.`, or nothing where
/// it has no digits.
pub open spec fn written_fraction(number: NumberModel) -> Seq<char> {
    if number.fraction.len() > 0 {
        seq!['.'] + number.fraction
    } else {
        Seq::empty()
    }
}

/// The unit `px` as it is written.
pub open spec fn written_px() -> Seq<char> {
    seq!['p', 'x']
}

/// A length as it is written: sign, digits, fraction and `px`.
pub open spec fn written_length(number: NumberModel) -> Seq<char> {
    written_sign(number) + number.whole + written_fraction(number) + written_px()
}

/// A written length reads back.
pub proof fn lemma_length_reads_back(s: Seq<char>, pos: int, number: NumberModel)
    requires
        is_decimal(number),
        holds_at(s, pos, written_length(number)),
        holds_at(s, pos + written_length(number).len(), seq![';']),
    ensures
        length_at(s, pos) == Ok::<_, SyntaxErrorModel>(
            (ValueModel::Length(number, Unit::Px), pos + written_length(number).len()),
        ),
        is_digit(s[pos]) || s[pos] == '-',
{
    let sign = written_sign(number);
    let fraction = written_fraction(number);
    let x1 = sign + number.whole;
    let x2 = x1 + fraction;
    lemma_holds_at_split(s, pos, x2, written_px());
    lemma_holds_at_split(s, pos, x1, fraction);
    lemma_holds_at_split(s, pos, sign, number.whole);
    let start = pos + sign.len();
    let whole_end = start + number.whole.len();
    let fraction_end = whole_end + fraction.len();
    lemma_holds_at_index(s, fraction_end, written_px(), 0);
    lemma_holds_at_index(s, fraction_end, written_px(), 1);
    lemma_holds_at_index(s, fraction_end + 2, seq![';'], 0);
    lemma_holds_at_index(s, start, number.whole, 0);
    assert(is_digit(number.whole[0]));
    if number.negative {
        lemma_holds_at_index(s, pos, sign, 0);
    }
    if number.fraction.len() > 0 {
        lemma_holds_at_split(s, whole_end, seq!['.'], number.fraction);
        lemma_holds_at_index(s, whole_end, seq!['.'], 0);
        lemma_run_over(s, whole_end + 1, CharClass::Digit, number.fraction);
    } else {
        lemma_holds_at_nothing(s, whole_end);
        lemma_run_over(s, whole_end, CharClass::Digit, Seq::empty());
        assert(s.subrange(whole_end, whole_end) =~= number.fraction);
    }
    lemma_run_over(s, start, CharClass::Digit, number.whole);
    lemma_run_over(s, fraction_end, CharClass::Identifier, written_px());
    assert(is_px(written_px()));
    assert(unit_at(s, fraction_end) == Ok::<_, SyntaxErrorModel>((Unit::Px, fraction_end + 2)));
}

/// A value as it is written.
pub open spec fn written_value(value: ValueModel) -> Seq<char> {
    match value {
        ValueModel::Keyword(word) => word,
        ValueModel::Length(number, _) => written_length(number),
        ValueModel::ColorValue(color) => written_color(color),
    }
}

/// Whether a value can be written so that reading gives it back: a keyword
/// is an identifier that starts with neither a digit nor `-`; the number of
/// a length is written as one; the alpha of a colour is 255.
pub open spec fn is_writable_value(value: ValueModel) -> bool {
    match value {
        ValueModel::Keyword(word) => is_identifier(word) && (word.len() > 0 ==> !is_digit(word[0])
            && word[0] != '-'),
        ValueModel::Length(number, _) => is_decimal(number),
        ValueModel::ColorValue(color) => color.a == 255,
    }
}

/// A written value reads back, up to the `;` behind it, and does not start
/// with whitespace.
pub proof fn lemma_value_reads_back(s: Seq<char>, pos: int, value: ValueModel)
    requires
        is_writable_value(value),
        holds_at(s, pos, written_value(value)),
        holds_at(s, pos + written_value(value).len(), seq![';']),
    ensures
        value_at(s, pos) == Ok::<_, SyntaxErrorModel>((value, pos + written_value(value).len())),
        !is_whitespace(s[pos]),
{
    let end = pos + written_value(value).len();
    lemma_holds_at_index(s, end, seq![';'], 0);
    match value {
        ValueModel::Keyword(word) => {
            if word.len() > 0 {
                lemma_holds_at_index(s, pos, word, 0);
                assert(is_identifier_char(word[0]));
            }
            lemma_run_over(s, pos, CharClass::Identifier, word);
        },
        ValueModel::Length(number, unit) => {
            lemma_length_reads_back(s, pos, number);
        },
        ValueModel::ColorValue(color) => {
            lemma_color_reads_back(s, pos, color);
            lemma_holds_at_index(s, pos, written_color(color), 0);
        },
    }
}

/// A declaration as it is written: the name, `:`, the value, `;`.
pub open spec fn written_declaration(declaration: DeclarationModel) -> Seq<char> {
    declaration.name + seq![':'] + written_value(declaration.value) + seq![';']
}

/// Whether a declaration can be written so that reading gives it back.
pub open spec fn is_writable_declaration(declaration: DeclarationModel) -> bool {
    is_identifier(declaration.name) && is_writable_value(declaration.value)
}

/// A written declaration reads back; it starts with neither whitespace nor
/// `}`.
pub proof fn lemma_declaration_reads_back(s: Seq<char>, pos: int, declaration: DeclarationModel)
    requires
        is_writable_declaration(declaration),
        holds_at(s, pos, written_declaration(declaration)),
    ensures
        declaration_at(s, pos) == Ok::<_, SyntaxErrorModel>(
            (declaration, pos + written_declaration(declaration).len()),
        ),
        !is_whitespace(s[pos]),
        s[pos] != '}',
{
    let name = declaration.name;
    let value = written_value(declaration.value);
    let x1 = name + seq![':'];
    let x2 = x1 + value;
    lemma_holds_at_split(s, pos, x2, seq![';']);
    lemma_holds_at_split(s, pos, x1, value);
    lemma_holds_at_split(s, pos, name, seq![':']);
    let colon = pos + name.len();
    lemma_holds_at_index(s, colon, seq![':'], 0);
    lemma_holds_at_index(s, colon + 1 + value.len(), seq![';'], 0);
    if name.len() > 0 {
        lemma_holds_at_index(s, pos, name, 0);
        assert(is_identifier_char(name[0]));
    }
    lemma_run_over(s, pos, CharClass::Identifier, name);
    lemma_no_whitespace(s, colon);
    lemma_value_reads_back(s, colon + 1, declaration.value);
    lemma_no_whitespace(s, colon + 1);
    lemma_no_whitespace(s, colon + 1 + value.len());
}

/// The declarations from the one at index `from` on, as they are written.
pub open spec fn written_declarations(declarations: Seq<DeclarationModel>, from: int) -> Seq<char>
    decreases declarations.len() - from,
{
    if 0 <= from < declarations.len() {
        written_declaration(declarations[from]) + written_declarations(declarations, from + 1)
    } else {
        Seq::empty()
    }
}

/// Written declarations read back, up to and with the `}` behind them.
pub proof fn lemma_declarations_read_back(
    s: Seq<char>,
    pos: int,
    declarations: Seq<DeclarationModel>,
    from: int,
    acc: Seq<DeclarationModel>,
)
    requires
        0 <= from <= declarations.len(),
        forall|k: int|
            0 <= k < declarations.len() ==> is_writable_declaration(#[trigger] declarations[k]),
        holds_at(s, pos, written_declarations(declarations, from)),
        holds_at(s, pos + written_declarations(declarations, from).len(), seq!['}']),
    ensures
        declarations_from(s, pos, acc) == Ok::<_, SyntaxErrorModel>(
            (
                acc + declarations.subrange(from, declarations.len() as int),
                pos + written_declarations(declarations, from).len() + 1,
            ),
        ),
    decreases declarations.len() - from,
{
    let n = declarations.len() as int;
    let all = written_declarations(declarations, from);
    lemma_holds_at_index(s, pos + all.len(), seq!['}'], 0);
    if from < n {
        let first = written_declaration(declarations[from]);
        let others = written_declarations(declarations, from + 1);
        lemma_holds_at_split(s, pos, first, others);
        lemma_declaration_reads_back(s, pos, declarations[from]);
        lemma_no_whitespace(s, pos);
        lemma_declarations_read_back(
            s,
            pos + first.len(),
            declarations,
            from + 1,
            acc.push(declarations[from]),
        );
        assert(acc.push(declarations[from]) + declarations.subrange(from + 1, n) =~= acc
            + declarations.subrange(from, n));
    } else {
        lemma_no_whitespace(s, pos);
        assert(acc + declarations.subrange(from, n) =~= acc);
    }
}

/// A rule as it is written: the selectors, `{`, the declarations, `}`.
pub open spec fn written_rule(rule: RuleModel) -> Seq<char> {
    written_selectors(rule.selectors, 0) + seq!['{'] + written_declarations(rule.declarations, 0)
        + seq!['}']
}

/// Whether a rule can be written so that reading gives it back: it has a
/// selector, its selectors stand from the highest specificity to the lowest,
/// and they and its declarations can be written.
pub open spec fn is_writable_rule(rule: RuleModel) -> bool {
    &&& rule.selectors.len() > 0
    &&& highest_first(rule.selectors)
    &&& forall|k: int|
        0 <= k < rule.selectors.len() ==> is_writable_selector(#[trigger] rule.selectors[k])
    &&& forall|k: int|
        0 <= k < rule.declarations.len() ==> is_writable_declaration(
            #[trigger] rule.declarations[k],
        )
}

/// A written rule reads back; it does not start with whitespace.
pub proof fn lemma_rule_reads_back(s: Seq<char>, pos: int, rule: RuleModel)
    requires
        is_writable_rule(rule),
        holds_at(s, pos, written_rule(rule)),
    ensures
        rule_at(s, pos) == Ok::<_, SyntaxErrorModel>((rule, pos + written_rule(rule).len())),
        pos < s.len(),
        !is_whitespace(s[pos]),
{
    let selectors = written_selectors(rule.selectors, 0);
    let declarations = written_declarations(rule.declarations, 0);
    let x1 = selectors + seq!['{'];
    let x2 = x1 + declarations;
    lemma_holds_at_split(s, pos, x2, seq!['}']);
    lemma_holds_at_split(s, pos, x1, declarations);
    lemma_holds_at_split(s, pos, selectors, seq!['{']);
    let brace = pos + selectors.len();
    lemma_written_selectors_start(s, pos, rule.selectors, 0);
    lemma_selectors_read_back(s, pos, rule.selectors, 0, Seq::empty());
    lemma_declarations_read_back(s, brace + 1, rule.declarations, 0, Seq::empty());
    assert(Seq::<SelectorModel>::empty() + rule.selectors.subrange(
        0,
        rule.selectors.len() as int,
    ) =~= rule.selectors);
    assert(Seq::<DeclarationModel>::empty() + rule.declarations.subrange(
        0,
        rule.declarations.len() as int,
    ) =~= rule.declarations);
    lemma_ordered_stays(specificities(rule.selectors), rule.selectors.len(), true);
    lemma_arranged_in_turn(rule.selectors);
    assert(by_specificity(rule.selectors) == rule.selectors);
}

/// The rules from the one at index `from` on, as they are written.
pub open spec fn written_rules(rules: Seq<RuleModel>, from: int) -> Seq<char>
    decreases rules.len() - from,
{
    if 0 <= from < rules.len() {
        written_rule(rules[from]) + written_rules(rules, from + 1)
    } else {
        Seq::empty()
    }
}

/// Written rules read back, to the end of the input.
pub proof fn lemma_rules_read_back(
    s: Seq<char>,
    pos: int,
    rules: Seq<RuleModel>,
    from: int,
    acc: Seq<RuleModel>,
)
    requires
        0 <= from <= rules.len(),
        forall|k: int| 0 <= k < rules.len() ==> is_writable_rule(#[trigger] rules[k]),
        holds_at(s, pos, written_rules(rules, from)),
        pos + written_rules(rules, from).len() == s.len(),
    ensures
        rules_from(s, pos, acc) == Ok::<_, SyntaxErrorModel>(
            acc + rules.subrange(from, rules.len() as int),
        ),
    decreases rules.len() - from,
{
    let n = rules.len() as int;
    if from < n {
        let first = written_rule(rules[from]);
        let others = written_rules(rules, from + 1);
        lemma_holds_at_split(s, pos, first, others);
        lemma_rule_reads_back(s, pos, rules[from]);
        lemma_no_whitespace(s, pos);
        lemma_rules_read_back(s, pos + first.len(), rules, from + 1, acc.push(rules[from]));
        assert(acc.push(rules[from]) + rules.subrange(from + 1, n) =~= acc + rules.subrange(
            from,
            n,
        ));
    } else {
        lemma_no_whitespace(s, pos);
        assert(acc + rules.subrange(from, n) =~= acc);
    }
}

/// A style sheet as it is written: its rules, one behind the other.
pub open spec fn written_sheet(sheet: SheetModel) -> Seq<char> {
    written_rules(sheet.rules, 0)
}

/// Whether a style sheet can be written so that reading gives it back.
pub open spec fn is_writable_sheet(sheet: SheetModel) -> bool {
    forall|k: int| 0 <= k < sheet.rules.len() ==> is_writable_rule(#[trigger] sheet.rules[k])
}

/// Reading what was written gives back what was written: the text of a
/// style sheet that can be written is a style sheet, and it is that one.
pub proof fn lemma_stylesheet_reads_back(sheet: SheetModel)
    requires
        is_writable_sheet(sheet),
    ensures
        stylesheet_of(written_sheet(sheet)) == Ok::<_, SyntaxErrorModel>(sheet),
{
    let s = written_sheet(sheet);
    assert(s.subrange(0, s.len() as int) =~= s);
    lemma_rules_read_back(s, 0, sheet.rules, 0, Seq::empty());
    assert(Seq::<RuleModel>::empty() + sheet.rules.subrange(0, sheet.rules.len() as int)
        =~= sheet.rules);
}

} // verus!
