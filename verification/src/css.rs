//! A parser for a small subset of CSS: rules of simple selectors and of
//! declarations whose values are keywords, lengths in `px` and colours
//! `#rrggbb`. Malformed input ends the parse with a `SyntaxError`.

use vstd::prelude::*;
use crate::chars::{is_digit, is_identifier_char, CharClass};
use crate::error::{
    missing_char, unexpected, Expected, ExpectedModel, Found, FoundModel, SyntaxError,
    SyntaxErrorModel,
};
use crate::order::{
    arranged, comes_before, is_reordering, lemma_stable_order, sort_by_specificity, stable_order,
};
use crate::scanner::{lemma_run_end, run_end, Parser};
use crate::stylesheet::{
    higher, lemma_views_push, specificity_of, views, Color, Declaration, DeclarationModel, Number,
    NumberModel, Rule, RuleModel, Selector, SelectorModel, SheetModel, SimpleModel,
    SimpleSelector, Specificity, Stylesheet, Unit, Value, ValueModel,
};

verus! {

broadcast use {Parser::lemma_position_not_negative, Parser::lemma_in_bounds};

/// The selector without a tag name, an id or a class: it asks nothing.
pub open spec fn blank_selector() -> SimpleModel {
    SimpleModel { tag_name: None, id: None, class: Seq::empty() }
}

/// A simple selector from `pos` on, starting from what `acc` holds. `#` and
/// an identifier set the id, `.` and an identifier add a class, `*` is
/// passed over, and an identifier alone sets the tag name. An identifier is a
/// run of ASCII letters, digits, `-` and `_`, and may be empty behind `#` and
/// `.`. The parts may come in any order and any number of times: a second id
/// or tag name replaces the first. The selector ends at the first character
/// that starts none of these, or at the end of the input.
pub open spec fn simple_selector_from(s: Seq<char>, pos: int, acc: SimpleModel) -> (
    SimpleModel,
    int,
)
    decreases s.len() - pos,
{
    if !(0 <= pos < s.len()) {
        (acc, pos)
    } else if s[pos] == '#' {
        let end = run_end(s, pos + 1, CharClass::Identifier);
        proof {
            lemma_run_end(s, pos + 1, CharClass::Identifier);
        }
        simple_selector_from(
            s,
            end,
            SimpleModel { id: Some(s.subrange(pos + 1, end)), ..acc },
        )
    } else if s[pos] == '.' {
        let end = run_end(s, pos + 1, CharClass::Identifier);
        proof {
            lemma_run_end(s, pos + 1, CharClass::Identifier);
        }
        simple_selector_from(
            s,
            end,
            SimpleModel { class: acc.class.push(s.subrange(pos + 1, end)), ..acc },
        )
    } else if s[pos] == '*' {
        simple_selector_from(s, pos + 1, acc)
    } else if is_identifier_char(s[pos]) {
        let end = run_end(s, pos, CharClass::Identifier);
        proof {
            lemma_run_end(s, pos + 1, CharClass::Identifier);
        }
        simple_selector_from(s, end, SimpleModel { tag_name: Some(s.subrange(pos, end)), ..acc })
    } else {
        (acc, pos)
    }
}

/// A simple selector ends at or after where it starts.
pub proof fn lemma_simple_selector_end(s: Seq<char>, pos: int, acc: SimpleModel)
    requires
        0 <= pos <= s.len(),
    ensures
        pos <= simple_selector_from(s, pos, acc).1 <= s.len(),
    decreases s.len() - pos,
{
    if pos < s.len() {
        lemma_run_end(s, pos + 1, CharClass::Identifier);
        if s[pos] == '#' {
            let end = run_end(s, pos + 1, CharClass::Identifier);
            lemma_simple_selector_end(
                s,
                end,
                SimpleModel { id: Some(s.subrange(pos + 1, end)), ..acc },
            );
        } else if s[pos] == '.' {
            let end = run_end(s, pos + 1, CharClass::Identifier);
            lemma_simple_selector_end(
                s,
                end,
                SimpleModel { class: acc.class.push(s.subrange(pos + 1, end)), ..acc },
            );
        } else if s[pos] == '*' {
            lemma_simple_selector_end(s, pos + 1, acc);
        } else if is_identifier_char(s[pos]) {
            let end = run_end(s, pos, CharClass::Identifier);
            lemma_simple_selector_end(
                s,
                end,
                SimpleModel { tag_name: Some(s.subrange(pos, end)), ..acc },
            );
        }
    }
}

/// The selectors of a rule from `pos` on, in the order in which they are
/// written, appended to `acc`: simple selectors with `,` between them, up to
/// the `{` that starts the declarations. Whitespace may stand before and after
/// each `,` and before the `{`. Gives the selectors and the position of the
/// `{`.
pub open spec fn selectors_from(s: Seq<char>, pos: int, acc: Seq<SelectorModel>) -> Result<
    (Seq<SelectorModel>, int),
    SyntaxErrorModel,
>
    decreases s.len() - pos,
    when 0 <= pos <= s.len()
{
    let (simple, end) = simple_selector_from(s, pos, blank_selector());
    let p = run_end(s, end, CharClass::Whitespace);
    let list = acc.push(SelectorModel::Simple(simple));
    if 0 <= p < s.len() && s[p] == ',' {
        proof {
            lemma_simple_selector_end(s, pos, blank_selector());
            lemma_run_end(s, end, CharClass::Whitespace);
            lemma_run_end(s, p + 1, CharClass::Whitespace);
        }
        selectors_from(s, run_end(s, p + 1, CharClass::Whitespace), list)
    } else if 0 <= p < s.len() && s[p] == '{' {
        Ok((list, p))
    } else {
        Err(missing_char(s, p, '{'))
    }
}

/// Where the selectors end, the `{` stands.
pub proof fn lemma_selectors_end(s: Seq<char>, pos: int, acc: Seq<SelectorModel>)
    requires
        0 <= pos <= s.len(),
    ensures
        match selectors_from(s, pos, acc) {
            Ok((list, brace)) => pos <= brace < s.len() && s[brace] == '{' && list.len()
                > acc.len(),
            Err(e) => pos <= e.position <= s.len(),
        },
    decreases s.len() - pos,
{
    let (simple, end) = simple_selector_from(s, pos, blank_selector());
    lemma_simple_selector_end(s, pos, blank_selector());
    lemma_run_end(s, end, CharClass::Whitespace);
    let p = run_end(s, end, CharClass::Whitespace);
    if p < s.len() && s[p] == ',' {
        lemma_run_end(s, p + 1, CharClass::Whitespace);
        lemma_selectors_end(
            s,
            run_end(s, p + 1, CharClass::Whitespace),
            acc.push(SelectorModel::Simple(simple)),
        );
    }
}

/// The specificities of selectors, one by one.
pub open spec fn specificities(selectors: Seq<SelectorModel>) -> Seq<Specificity> {
    Seq::new(selectors.len(), |i: int| specificity_of(selectors[i]))
}

/// The selectors from the highest specificity to the lowest; selectors of
/// equal specificity stay in the order in which they were written.
pub open spec fn by_specificity(selectors: Seq<SelectorModel>) -> Seq<SelectorModel> {
    arranged(selectors, stable_order(specificities(selectors), selectors.len(), true))
}

/// The value of a hexadecimal digit.
pub open spec fn hex_value(c: char) -> Option<u8> {
    if '0' <= c <= '9' {
        Some((c as int - '0' as int) as u8)
    } else if 'a' <= c <= 'f' {
        Some((c as int - 'a' as int + 10) as u8)
    } else if 'A' <= c <= 'F' {
        Some((c as int - 'A' as int + 10) as u8)
    } else {
        None
    }
}

/// Two hexadecimal digits at `pos`: the number they write, and the position
/// after them.
pub open spec fn hex_pair_at(s: Seq<char>, pos: int) -> Result<(u8, int), SyntaxErrorModel> {
    if !(0 <= pos < s.len() && hex_value(s[pos]) is Some) {
        Err(unexpected(s, pos, ExpectedModel::HexDigit))
    } else if !(pos + 1 < s.len() && hex_value(s[pos + 1]) is Some) {
        Err(unexpected(s, pos + 1, ExpectedModel::HexDigit))
    } else {
        Ok(((16 * hex_value(s[pos])->0 + hex_value(s[pos + 1])->0) as u8, pos + 2))
    }
}

/// A colour at `pos`: `#` and six hexadecimal digits, two each for red, green
/// and blue. Alpha is 255.
pub open spec fn color_at(s: Seq<char>, pos: int) -> Result<(Color, int), SyntaxErrorModel> {
    if !(0 <= pos < s.len() && s[pos] == '#') {
        Err(missing_char(s, pos, '#'))
    } else {
        match hex_pair_at(s, pos + 1) {
            Err(e) => Err(e),
            Ok((r, _)) => match hex_pair_at(s, pos + 3) {
                Err(e) => Err(e),
                Ok((g, _)) => match hex_pair_at(s, pos + 5) {
                    Err(e) => Err(e),
                    Ok((b, _)) => Ok((Color { r, g, b, a: 255 }, pos + 7)),
                },
            },
        }
    }
}

/// Whether `name` is `px`, in small or capital letters.
pub open spec fn is_px(name: Seq<char>) -> bool {
    &&& name.len() == 2
    &&& name[0] == 'p' || name[0] == 'P'
    &&& name[1] == 'x' || name[1] == 'X'
}

/// A unit at `pos`: an identifier that is `px`.
pub open spec fn unit_at(s: Seq<char>, pos: int) -> Result<(Unit, int), SyntaxErrorModel> {
    let end = run_end(s, pos, CharClass::Identifier);
    let name = s.subrange(pos, end);
    if is_px(name) {
        Ok((Unit::Px, end))
    } else {
        Err(
            SyntaxErrorModel {
                position: pos,
                expected: ExpectedModel::Unit,
                found: FoundModel::Name(name),
            },
        )
    }
}

/// A length at `pos`: an optional sign `+` or `-`, one or more digits, an
/// optional `.` with any digits behind it, and a unit.
pub open spec fn length_at(s: Seq<char>, pos: int) -> Result<(ValueModel, int), SyntaxErrorModel> {
    let signed = 0 <= pos < s.len() && (s[pos] == '+' || s[pos] == '-');
    let start = if signed {
        pos + 1
    } else {
        pos
    };
    let whole_end = run_end(s, start, CharClass::Digit);
    if whole_end == start {
        Err(unexpected(s, start, ExpectedModel::Digit))
    } else {
        let pointed = 0 <= whole_end < s.len() && s[whole_end] == '.';
        let fraction_start = if pointed {
            whole_end + 1
        } else {
            whole_end
        };
        let fraction_end = run_end(s, fraction_start, CharClass::Digit);
        match unit_at(s, fraction_end) {
            Err(e) => Err(e),
            Ok((unit, next)) => Ok(
                (
                    ValueModel::Length(
                        NumberModel {
                            negative: signed && s[pos] == '-',
                            whole: s.subrange(start, whole_end),
                            fraction: s.subrange(fraction_start, fraction_end),
                        },
                        unit,
                    ),
                    next,
                ),
            ),
        }
    }
}

/// A value at `pos`: a length where a digit or a sign stands, a colour where
/// `#` stands, else a keyword, which is an identifier and may be empty.
pub open spec fn value_at(s: Seq<char>, pos: int) -> Result<(ValueModel, int), SyntaxErrorModel> {
    if 0 <= pos < s.len() && (is_digit(s[pos]) || s[pos] == '+' || s[pos] == '-') {
        length_at(s, pos)
    } else if 0 <= pos < s.len() && s[pos] == '#' {
        match color_at(s, pos) {
            Err(e) => Err(e),
            Ok((color, next)) => Ok((ValueModel::ColorValue(color), next)),
        }
    } else {
        let end = run_end(s, pos, CharClass::Identifier);
        Ok((ValueModel::Keyword(s.subrange(pos, end)), end))
    }
}

/// A declaration at `pos`: a property name, which is an identifier and may
/// be empty, `:`, a value and `;`, with any whitespace between them.
pub open spec fn declaration_at(s: Seq<char>, pos: int) -> Result<
    (DeclarationModel, int),
    SyntaxErrorModel,
> {
    let name_end = run_end(s, pos, CharClass::Identifier);
    let colon = run_end(s, name_end, CharClass::Whitespace);
    if !(0 <= colon < s.len() && s[colon] == ':') {
        Err(missing_char(s, colon, ':'))
    } else {
        match value_at(s, run_end(s, colon + 1, CharClass::Whitespace)) {
            Err(e) => Err(e),
            Ok((value, value_end)) => {
                let semicolon = run_end(s, value_end, CharClass::Whitespace);
                if !(0 <= semicolon < s.len() && s[semicolon] == ';') {
                    Err(missing_char(s, semicolon, ';'))
                } else {
                    Ok(
                        (
                            DeclarationModel { name: s.subrange(pos, name_end), value },
                            semicolon + 1,
                        ),
                    )
                }
            },
        }
    }
}

/// A value ends at or after where it starts, within the text.
pub proof fn lemma_value_end(s: Seq<char>, pos: int)
    requires
        0 <= pos <= s.len(),
    ensures
        match value_at(s, pos) {
            Ok((_, next)) => pos <= next <= s.len(),
            Err(e) => pos <= e.position <= s.len(),
        },
{
    if pos < s.len() && (is_digit(s[pos]) || s[pos] == '+' || s[pos] == '-') {
        let start = if s[pos] == '+' || s[pos] == '-' {
            pos + 1
        } else {
            pos
        };
        lemma_run_end(s, start, CharClass::Digit);
        let whole_end = run_end(s, start, CharClass::Digit);
        if whole_end != start {
            let fraction_start = if whole_end < s.len() && s[whole_end] == '.' {
                whole_end + 1
            } else {
                whole_end
            };
            lemma_run_end(s, fraction_start, CharClass::Digit);
            lemma_run_end(s, run_end(s, fraction_start, CharClass::Digit), CharClass::Identifier);
        }
    } else if pos < s.len() && s[pos] == '#' {
    } else {
        lemma_run_end(s, pos, CharClass::Identifier);
    }
}

/// A declaration ends after where it starts.
pub proof fn lemma_declaration_advances(s: Seq<char>, pos: int)
    requires
        0 <= pos <= s.len(),
    ensures
        match declaration_at(s, pos) {
            Ok((_, next)) => pos < next <= s.len(),
            Err(e) => pos <= e.position <= s.len(),
        },
{
    lemma_run_end(s, pos, CharClass::Identifier);
    let name_end = run_end(s, pos, CharClass::Identifier);
    lemma_run_end(s, name_end, CharClass::Whitespace);
    let colon = run_end(s, name_end, CharClass::Whitespace);
    if colon < s.len() && s[colon] == ':' {
        lemma_run_end(s, colon + 1, CharClass::Whitespace);
        let value_start = run_end(s, colon + 1, CharClass::Whitespace);
        lemma_value_end(s, value_start);
        match value_at(s, value_start) {
            Err(_) => {},
            Ok((_, value_end)) => {
                lemma_run_end(s, value_end, CharClass::Whitespace);
            },
        }
    }
}

/// The declarations of a rule from `pos`, which is behind the `{`, on,
/// appended to `acc`, up to the `}`. Whitespace may stand before each
/// declaration and before the `}`. Gives the declarations and the position
/// after the `}`.
pub open spec fn declarations_from(s: Seq<char>, pos: int, acc: Seq<DeclarationModel>) -> Result<
    (Seq<DeclarationModel>, int),
    SyntaxErrorModel,
>
    decreases s.len() - pos,
    when 0 <= pos <= s.len()
{
    let p = run_end(s, pos, CharClass::Whitespace);
    if p >= s.len() {
        Err(missing_char(s, p, '}'))
    } else if s[p] == '}' {
        Ok((acc, p + 1))
    } else {
        proof {
            lemma_run_end(s, pos, CharClass::Whitespace);
            lemma_declaration_advances(s, p);
        }
        match declaration_at(s, p) {
            Err(e) => Err(e),
            Ok((declaration, next)) => declarations_from(s, next, acc.push(declaration)),
        }
    }
}

/// Declarations end after where they start.
pub proof fn lemma_declarations_end(s: Seq<char>, pos: int, acc: Seq<DeclarationModel>)
    requires
        0 <= pos <= s.len(),
    ensures
        match declarations_from(s, pos, acc) {
            Ok((_, next)) => pos < next <= s.len(),
            Err(e) => pos <= e.position <= s.len(),
        },
    decreases s.len() - pos,
{
    lemma_run_end(s, pos, CharClass::Whitespace);
    let p = run_end(s, pos, CharClass::Whitespace);
    if p < s.len() && s[p] != '}' {
        lemma_declaration_advances(s, p);
        match declaration_at(s, p) {
            Err(_) => {},
            Ok((declaration, next)) => {
                lemma_declarations_end(s, next, acc.push(declaration));
            },
        }
    }
}

/// A rule at `pos`: selectors, `{`, declarations, `}`. The rule holds its
/// selectors from the highest specificity to the lowest.
pub open spec fn rule_at(s: Seq<char>, pos: int) -> Result<(RuleModel, int), SyntaxErrorModel> {
    match selectors_from(s, pos, Seq::empty()) {
        Err(e) => Err(e),
        Ok((selectors, brace)) => match declarations_from(s, brace + 1, Seq::empty()) {
            Err(e) => Err(e),
            Ok((declarations, next)) => Ok(
                (RuleModel { selectors: by_specificity(selectors), declarations }, next),
            ),
        },
    }
}

/// A rule ends after where it starts.
pub proof fn lemma_rule_advances(s: Seq<char>, pos: int)
    requires
        0 <= pos <= s.len(),
    ensures
        match rule_at(s, pos) {
            Ok((_, next)) => pos < next <= s.len(),
            Err(e) => pos <= e.position <= s.len(),
        },
{
    lemma_selectors_end(s, pos, Seq::empty());
    match selectors_from(s, pos, Seq::empty()) {
        Err(_) => {},
        Ok((_, brace)) => {
            lemma_declarations_end(s, brace + 1, Seq::empty());
        },
    }
}

/// The rules from `pos` to the end of the input, appended to `acc`.
/// Whitespace may stand before each rule and at the end.
pub open spec fn rules_from(s: Seq<char>, pos: int, acc: Seq<RuleModel>) -> Result<
    Seq<RuleModel>,
    SyntaxErrorModel,
>
    decreases s.len() - pos,
    when 0 <= pos <= s.len()
{
    let p = run_end(s, pos, CharClass::Whitespace);
    if p >= s.len() {
        Ok(acc)
    } else {
        proof {
            lemma_run_end(s, pos, CharClass::Whitespace);
            lemma_rule_advances(s, p);
        }
        match rule_at(s, p) {
            Err(e) => Err(e),
            Ok((rule, next)) => rules_from(s, next, acc.push(rule)),
        }
    }
}

/// The style sheet that a text describes.
pub open spec fn stylesheet_of(s: Seq<char>) -> Result<SheetModel, SyntaxErrorModel> {
    match rules_from(s, 0, Seq::empty()) {
        Err(e) => Err(e),
        Ok(rules) => Ok(SheetModel { rules }),
    }
}

/// The error of rules that fail to parse lies at or after where they start,
/// within the text or at its end.
pub proof fn lemma_rules_error_position(s: Seq<char>, pos: int, acc: Seq<RuleModel>)
    requires
        0 <= pos <= s.len(),
    ensures
        rules_from(s, pos, acc) matches Err(e) ==> pos <= e.position <= s.len(),
    decreases s.len() - pos,
{
    lemma_run_end(s, pos, CharClass::Whitespace);
    let p = run_end(s, pos, CharClass::Whitespace);
    if p < s.len() {
        lemma_rule_advances(s, p);
        match rule_at(s, p) {
            Err(_) => {},
            Ok((rule, next)) => {
                lemma_rules_error_position(s, next, acc.push(rule));
            },
        }
    }
}

/// The error of a failed parse lies within the text or at its end.
pub proof fn lemma_error_position(s: Seq<char>)
    requires
        stylesheet_of(s) is Err,
    ensures
        0 <= stylesheet_of(s)->Err_0.position <= s.len(),
{
    lemma_rules_error_position(s, 0, Seq::empty());
}

/// Whether selectors stand from the highest specificity to the lowest.
pub open spec fn highest_first(selectors: Seq<SelectorModel>) -> bool {
    forall|a: int, b: int|
        0 <= a < b < selectors.len() ==> !higher(
            specificity_of(selectors[b]),
            specificity_of(selectors[a]),
        )
}

/// `by_specificity` holds the selectors it was given, each once, from the
/// highest specificity to the lowest.
pub proof fn lemma_by_specificity(selectors: Seq<SelectorModel>)
    ensures
        is_reordering(
            stable_order(specificities(selectors), selectors.len(), true),
            selectors.len(),
        ),
        by_specificity(selectors).len() == selectors.len(),
        highest_first(by_specificity(selectors)),
{
    let keys = specificities(selectors);
    let order = stable_order(keys, selectors.len(), true);
    lemma_stable_order(keys, selectors.len(), true);
    let sorted = by_specificity(selectors);
    assert forall|a: int, b: int| 0 <= a < b < sorted.len() implies !higher(
        specificity_of(sorted[b]),
        specificity_of(sorted[a]),
    ) by {
        assert(0 <= order[a] < selectors.len());
        assert(0 <= order[b] < selectors.len());
        assert(comes_before(keys, order[a], order[b], true));
    }
}

/// Every rule that `rules_from` adds holds its selectors from the highest
/// specificity to the lowest.
pub proof fn lemma_rules_highest_first(s: Seq<char>, pos: int, acc: Seq<RuleModel>)
    requires
        0 <= pos <= s.len(),
        forall|i: int| 0 <= i < acc.len() ==> highest_first(#[trigger] acc[i].selectors),
    ensures
        rules_from(s, pos, acc) matches Ok(rules) ==> forall|i: int|
            0 <= i < rules.len() ==> highest_first(#[trigger] rules[i].selectors),
    decreases s.len() - pos,
{
    lemma_run_end(s, pos, CharClass::Whitespace);
    let p = run_end(s, pos, CharClass::Whitespace);
    if p < s.len() {
        lemma_rule_advances(s, p);
        match rule_at(s, p) {
            Err(_) => {},
            Ok((rule, next)) => {
                lemma_by_specificity(selectors_from(s, p, Seq::empty())->Ok_0.0);
                lemma_rules_highest_first(s, next, acc.push(rule));
            },
        }
    }
}

/// In a parsed style sheet every rule holds its selectors from the highest
/// specificity to the lowest.
pub proof fn lemma_stylesheet_highest_first(s: Seq<char>)
    ensures
        stylesheet_of(s) matches Ok(sheet) ==> forall|i: int|
            0 <= i < sheet.rules.len() ==> highest_first(#[trigger] sheet.rules[i].selectors),
{
    lemma_rules_highest_first(s, 0, Seq::empty());
}

/// Whether a number is written as one: at least one digit before the point,
/// and digits only on either side of it.
pub open spec fn is_decimal(number: NumberModel) -> bool {
    &&& number.whole.len() > 0
    &&& forall|k: int| 0 <= k < number.whole.len() ==> is_digit(#[trigger] number.whole[k])
    &&& forall|k: int| 0 <= k < number.fraction.len() ==> is_digit(#[trigger] number.fraction[k])
}

/// The number of a parsed length is written as one.
pub proof fn lemma_length_is_decimal(s: Seq<char>, pos: int)
    requires
        0 <= pos <= s.len(),
    ensures
        length_at(s, pos) matches Ok((ValueModel::Length(number, _), _)) ==> is_decimal(number),
{
    let signed = pos < s.len() && (s[pos] == '+' || s[pos] == '-');
    let start = if signed {
        pos + 1
    } else {
        pos
    };
    lemma_run_end(s, start, CharClass::Digit);
    let whole_end = run_end(s, start, CharClass::Digit);
    if whole_end != start {
        let fraction_start = if whole_end < s.len() && s[whole_end] == '.' {
            whole_end + 1
        } else {
            whole_end
        };
        lemma_run_end(s, fraction_start, CharClass::Digit);
    }
}

/// The value of `c` as a hexadecimal digit, if it is one.
pub fn hex_digit(c: char) -> (r: Option<u8>)
    ensures
        r == hex_value(c),
{
    let n: u32 = c as u32;
    if '0' <= c && c <= '9' {
        Some((n - 0x30) as u8)
    } else if 'a' <= c && c <= 'f' {
        Some((n - 0x61 + 10) as u8)
    } else if 'A' <= c && c <= 'F' {
        Some((n - 0x41 + 10) as u8)
    } else {
        None
    }
}

/// Whether `name` is the unit `px`, in small or capital letters.
pub fn names_px(name: &str) -> (r: bool)
    ensures
        r == is_px(name@),
{
    if name.unicode_len() != 2 {
        return false;
    }
    let p = name.get_char(0);
    let x = name.get_char(1);
    (p == 'p' || p == 'P') && (x == 'x' || x == 'X')
}

impl Parser {
    /// Reads an identifier: a run of ASCII letters, digits, `-` and `_`.
    pub fn parse_identifier(&mut self) -> (name: String)
        ensures
            final(self).text() == old(self).text(),
            final(self).position() == run_end(
                old(self).text(),
                old(self).position(),
                CharClass::Identifier,
            ),
            old(self).position() <= final(self).position() <= old(self).text().len(),
            name@ == old(self).text().subrange(old(self).position(), final(self).position()),
    {
        self.consume_while(CharClass::Identifier)
    }

    /// Reads one simple selector, such as `type#id.class1.class2`.
    pub fn parse_simple_selector(&mut self) -> (selector: SimpleSelector)
        ensures
            final(self).text() == old(self).text(),
            simple_selector_from(old(self).text(), old(self).position(), blank_selector()) == (
                selector@,
                final(self).position(),
            ),
    {
        proof {
            use_type_invariant(&*self);
        }
        let mut selector = SimpleSelector { tag_name: None, id: None, class: Vec::new() };
        assert(selector@.class =~= Seq::empty());
        while !self.eof()
            invariant
                self.text() == old(self).text(),
                0 <= self.position() <= self.text().len(),
                simple_selector_from(old(self).text(), old(self).position(), blank_selector())
                    == simple_selector_from(self.text(), self.position(), selector@),
            ensures
                simple_selector_from(self.text(), self.position(), selector@) == (
                    selector@,
                    self.position(),
                ),
            decreases self.text().len() - self.position(),
        {
            let c = self.next_char();
            proof {
                lemma_run_end(self.text(), self.position() + 1, CharClass::Identifier);
            }
            if c == '#' {
                self.consume_char();
                selector.id = Some(self.parse_identifier());
            } else if c == '.' {
                self.consume_char();
                let name = self.parse_identifier();
                proof {
                    lemma_views_push(selector.class@, name);
                }
                selector.class.push(name);
            } else if c == '*' {
                self.consume_char();
            } else if CharClass::Identifier.contains(c) {
                selector.tag_name = Some(self.parse_identifier());
            } else {
                break ;
            }
        }
        selector
    }

    /// Reads the selectors of a rule, separated by commas, up to the `{`,
    /// which stays unread, and returns them from the highest specificity to
    /// the lowest.
    pub fn parse_selectors(&mut self) -> (r: Result<Vec<Selector>, SyntaxError>)
        ensures
            final(self).text() == old(self).text(),
            match r {
                Ok(selectors) => {
                    &&& selectors_from(old(self).text(), old(self).position(), Seq::empty()) is Ok
                    &&& views(selectors@) == by_specificity(
                        selectors_from(
                            old(self).text(),
                            old(self).position(),
                            Seq::empty(),
                        )->Ok_0.0,
                    )
                    &&& final(self).position() == selectors_from(
                        old(self).text(),
                        old(self).position(),
                        Seq::empty(),
                    )->Ok_0.1
                },
                Err(e) => selectors_from(old(self).text(), old(self).position(), Seq::empty())
                    == Err::<(Seq<SelectorModel>, int), _>(e@),
            },
    {
        proof {
            use_type_invariant(&*self);
        }
        let mut selectors: Vec<Selector> = Vec::new();
        let mut keys: Vec<Specificity> = Vec::new();
        assert(views(selectors@) =~= Seq::empty());
        loop
            invariant_except_break
                self.text() == old(self).text(),
                0 <= self.position() <= self.text().len(),
                selectors_from(old(self).text(), old(self).position(), Seq::empty())
                    == selectors_from(self.text(), self.position(), views(selectors@)),
            invariant
                self.text() == old(self).text(),
                keys@.len() == selectors@.len(),
                forall|i: int|
                    0 <= i < keys@.len() ==> keys@[i] == specificity_of(#[trigger] selectors@[i]@),
            ensures
                selectors_from(old(self).text(), old(self).position(), Seq::empty()) == Ok::<
                    _,
                    SyntaxErrorModel,
                >((views(selectors@), self.position())),
            decreases self.text().len() - self.position(),
        {
            let ghost start = self.position();
            let ghost listed = views(selectors@);
            proof {
                lemma_simple_selector_end(self.text(), start, blank_selector());
            }
            let selector = Selector::Simple(self.parse_simple_selector());
            proof {
                lemma_views_push(selectors@, selector);
                lemma_run_end(self.text(), self.position(), CharClass::Whitespace);
            }
            keys.push(selector.specificity());
            selectors.push(selector);
            self.consume_whitespace();
            if self.eof() {
                return Err(
                    SyntaxError {
                        position: self.offset(),
                        expected: Expected::Char('{'),
                        found: Found::EndOfInput,
                    },
                );
            }
            let c = self.next_char();
            if c == ',' {
                self.consume_char();
                proof {
                    lemma_run_end(self.text(), self.position(), CharClass::Whitespace);
                }
                self.consume_whitespace();
            } else if c == '{' {
                break ;
            } else {
                return Err(
                    SyntaxError {
                        position: self.offset(),
                        expected: Expected::Char('{'),
                        found: Found::Char(c),
                    },
                );
            }
        }
        let ghost written = selectors@;
        proof {
            assert(keys@ =~= specificities(views(written)));
            lemma_stable_order(keys@, keys@.len(), true);
        }
        sort_by_specificity(&mut selectors, &mut keys, true);
        proof {
            assert(views(selectors@) =~= by_specificity(views(written)));
        }
        Ok(selectors)
    }

    /// Reads two hexadecimal digits.
    pub fn parse_hex_pair(&mut self) -> (r: Result<u8, SyntaxError>)
        ensures
            final(self).text() == old(self).text(),
            match r {
                Ok(n) => hex_pair_at(old(self).text(), old(self).position()) == Ok::<
                    _,
                    SyntaxErrorModel,
                >((n, final(self).position())),
                Err(e) => hex_pair_at(old(self).text(), old(self).position()) == Err::<
                    (u8, int),
                    _,
                >(e@),
            },
    {
        let high = match self.parse_hex_digit() {
            Ok(d) => d,
            Err(e) => {
                return Err(e);
            },
        };
        let low = match self.parse_hex_digit() {
            Ok(d) => d,
            Err(e) => {
                return Err(e);
            },
        };
        Ok(16 * high + low)
    }

    /// Reads one hexadecimal digit.
    pub fn parse_hex_digit(&mut self) -> (r: Result<u8, SyntaxError>)
        ensures
            final(self).text() == old(self).text(),
            match r {
                Ok(d) => {
                    &&& old(self).position() < old(self).text().len()
                    &&& hex_value(old(self).text()[old(self).position()]) == Some(d)
                    &&& d < 16
                    &&& final(self).position() == old(self).position() + 1
                },
                Err(e) => {
                    &&& !(old(self).position() < old(self).text().len() && hex_value(
                        old(self).text()[old(self).position()],
                    ) is Some)
                    &&& e@ == unexpected(
                        old(self).text(),
                        old(self).position(),
                        ExpectedModel::HexDigit,
                    )
                },
            },
    {
        if self.eof() {
            return Err(
                SyntaxError {
                    position: self.offset(),
                    expected: Expected::HexDigit,
                    found: Found::EndOfInput,
                },
            );
        }
        let c = self.next_char();
        match hex_digit(c) {
            Some(d) => {
                self.consume_char();
                Ok(d)
            },
            None => Err(
                SyntaxError {
                    position: self.offset(),
                    expected: Expected::HexDigit,
                    found: Found::Char(c),
                },
            ),
        }
    }

    /// Reads a colour `#rrggbb`.
    pub fn parse_color(&mut self) -> (r: Result<Color, SyntaxError>)
        ensures
            final(self).text() == old(self).text(),
            match r {
                Ok(color) => color_at(old(self).text(), old(self).position()) == Ok::<
                    _,
                    SyntaxErrorModel,
                >((color, final(self).position())),
                Err(e) => color_at(old(self).text(), old(self).position()) == Err::<
                    (Color, int),
                    _,
                >(e@),
            },
    {
        match self.expect('#') {
            Ok(_) => {},
            Err(e) => {
                return Err(e);
            },
        }
        let r = match self.parse_hex_pair() {
            Ok(n) => n,
            Err(e) => {
                return Err(e);
            },
        };
        let g = match self.parse_hex_pair() {
            Ok(n) => n,
            Err(e) => {
                return Err(e);
            },
        };
        let b = match self.parse_hex_pair() {
            Ok(n) => n,
            Err(e) => {
                return Err(e);
            },
        };
        Ok(Color { r, g, b, a: 255 })
    }

    /// Reads a unit of length.
    pub fn parse_unit(&mut self) -> (r: Result<Unit, SyntaxError>)
        ensures
            final(self).text() == old(self).text(),
            match r {
                Ok(unit) => unit_at(old(self).text(), old(self).position()) == Ok::<
                    _,
                    SyntaxErrorModel,
                >((unit, final(self).position())),
                Err(e) => unit_at(old(self).text(), old(self).position()) == Err::<
                    (Unit, int),
                    _,
                >(e@),
            },
    {
        let start = self.offset();
        let name = self.parse_identifier();
        if names_px(name.as_str()) {
            Ok(Unit::Px)
        } else {
            Err(SyntaxError { position: start, expected: Expected::Unit, found: Found::Name(name) })
        }
    }

    /// Reads a length: a number and its unit.
    pub fn parse_length(&mut self) -> (r: Result<Value, SyntaxError>)
        ensures
            final(self).text() == old(self).text(),
            match r {
                Ok(value) => length_at(old(self).text(), old(self).position()) == Ok::<
                    _,
                    SyntaxErrorModel,
                >((value@, final(self).position())),
                Err(e) => length_at(old(self).text(), old(self).position()) == Err::<
                    (ValueModel, int),
                    _,
                >(e@),
            },
    {
        let mut negative = false;
        if !self.eof() {
            let c = self.next_char();
            if c == '+' || c == '-' {
                negative = c == '-';
                self.consume_char();
            }
        }
        let start = self.offset();
        let whole = self.consume_while(CharClass::Digit);
        if self.offset() == start {
            return Err(
                SyntaxError { position: start, expected: Expected::Digit, found: self.found() },
            );
        }
        let mut fraction = String::new();
        if !self.eof() && self.next_char() == '.' {
            self.consume_char();
            fraction = self.consume_while(CharClass::Digit);
        } else {
            proof {
                let p = self.position();
                assert(fraction@ =~= self.text().subrange(p, p));
                assert(run_end(self.text(), p, CharClass::Digit) == p) by {
                    lemma_run_end(self.text(), start as int, CharClass::Digit);
                }
            }
        }
        match self.parse_unit() {
            Ok(unit) => Ok(Value::Length(Number { negative, whole, fraction }, unit)),
            Err(e) => Err(e),
        }
    }

    /// Reads a value: a length, a colour or a keyword.
    pub fn parse_value(&mut self) -> (r: Result<Value, SyntaxError>)
        ensures
            final(self).text() == old(self).text(),
            match r {
                Ok(value) => value_at(old(self).text(), old(self).position()) == Ok::<
                    _,
                    SyntaxErrorModel,
                >((value@, final(self).position())),
                Err(e) => value_at(old(self).text(), old(self).position()) == Err::<
                    (ValueModel, int),
                    _,
                >(e@),
            },
    {
        if self.eof() {
            return Ok(Value::Keyword(self.parse_identifier()));
        }
        let c = self.next_char();
        if CharClass::Digit.contains(c) || c == '+' || c == '-' {
            self.parse_length()
        } else if c == '#' {
            match self.parse_color() {
                Ok(color) => Ok(Value::ColorValue(color)),
                Err(e) => Err(e),
            }
        } else {
            Ok(Value::Keyword(self.parse_identifier()))
        }
    }

    /// Reads one declaration, `name: value;`.
    pub fn parse_declaration(&mut self) -> (r: Result<Declaration, SyntaxError>)
        ensures
            final(self).text() == old(self).text(),
            match r {
                Ok(declaration) => declaration_at(old(self).text(), old(self).position()) == Ok::<
                    _,
                    SyntaxErrorModel,
                >((declaration@, final(self).position())),
                Err(e) => declaration_at(old(self).text(), old(self).position()) == Err::<
                    (DeclarationModel, int),
                    _,
                >(e@),
            },
    {
        let name = self.parse_identifier();
        self.consume_whitespace();
        match self.expect(':') {
            Ok(_) => {},
            Err(e) => {
                return Err(e);
            },
        }
        self.consume_whitespace();
        let value = match self.parse_value() {
            Ok(value) => value,
            Err(e) => {
                return Err(e);
            },
        };
        self.consume_whitespace();
        match self.expect(';') {
            Ok(_) => {},
            Err(e) => {
                return Err(e);
            },
        }
        Ok(Declaration { name, value })
    }

    /// Reads the declarations of a rule, from behind the `{` to the `}`,
    /// which is read too.
    pub fn parse_declarations(&mut self) -> (r: Result<Vec<Declaration>, SyntaxError>)
        ensures
            final(self).text() == old(self).text(),
            match r {
                Ok(declarations) => declarations_from(
                    old(self).text(),
                    old(self).position(),
                    Seq::empty(),
                ) == Ok::<_, SyntaxErrorModel>((views(declarations@), final(self).position())),
                Err(e) => declarations_from(old(self).text(), old(self).position(), Seq::empty())
                    == Err::<(Seq<DeclarationModel>, int), _>(e@),
            },
    {
        proof {
            use_type_invariant(&*self);
        }
        let mut declarations: Vec<Declaration> = Vec::new();
        assert(views(declarations@) =~= Seq::empty());
        loop
            invariant
                self.text() == old(self).text(),
                0 <= self.position() <= self.text().len(),
                declarations_from(old(self).text(), old(self).position(), Seq::empty())
                    == declarations_from(self.text(), self.position(), views(declarations@)),
            decreases self.text().len() - self.position(),
        {
            let ghost before = self.position();
            self.consume_whitespace();
            if self.eof() {
                return Err(
                    SyntaxError {
                        position: self.offset(),
                        expected: Expected::Char('}'),
                        found: Found::EndOfInput,
                    },
                );
            }
            if self.next_char() == '}' {
                self.consume_char();
                return Ok(declarations);
            }
            proof {
                lemma_run_end(self.text(), before, CharClass::Whitespace);
                lemma_declaration_advances(self.text(), self.position());
            }
            match self.parse_declaration() {
                Ok(declaration) => {
                    proof {
                        lemma_views_push(declarations@, declaration);
                    }
                    declarations.push(declaration);
                },
                Err(e) => {
                    return Err(e);
                },
            }
        }
    }

    /// Reads a rule: `selectors { declarations }`.
    pub fn parse_rule(&mut self) -> (r: Result<Rule, SyntaxError>)
        ensures
            final(self).text() == old(self).text(),
            match r {
                Ok(rule) => rule_at(old(self).text(), old(self).position()) == Ok::<
                    _,
                    SyntaxErrorModel,
                >((rule@, final(self).position())),
                Err(e) => rule_at(old(self).text(), old(self).position()) == Err::<
                    (RuleModel, int),
                    _,
                >(e@),
            },
    {
        proof {
            use_type_invariant(&*self);
            lemma_selectors_end(self.text(), self.position(), Seq::empty());
        }
        let selectors = match self.parse_selectors() {
            Ok(selectors) => selectors,
            Err(e) => {
                return Err(e);
            },
        };
        match self.expect('{') {
            Ok(_) => {},
            Err(e) => {
                return Err(e);
            },
        }
        let declarations = match self.parse_declarations() {
            Ok(declarations) => declarations,
            Err(e) => {
                return Err(e);
            },
        };
        Ok(Rule { selectors, declarations })
    }

    /// Reads rules to the end of the input.
    pub fn parse_rules(&mut self) -> (r: Result<Vec<Rule>, SyntaxError>)
        ensures
            final(self).text() == old(self).text(),
            match r {
                Ok(rules) => rules_from(old(self).text(), old(self).position(), Seq::empty())
                    == Ok::<_, SyntaxErrorModel>(views(rules@)),
                Err(e) => rules_from(old(self).text(), old(self).position(), Seq::empty()) == Err::<
                    Seq<RuleModel>,
                    _,
                >(e@),
            },
    {
        proof {
            use_type_invariant(&*self);
        }
        let mut rules: Vec<Rule> = Vec::new();
        assert(views(rules@) =~= Seq::empty());
        loop
            invariant
                self.text() == old(self).text(),
                0 <= self.position() <= self.text().len(),
                rules_from(old(self).text(), old(self).position(), Seq::empty()) == rules_from(
                    self.text(),
                    self.position(),
                    views(rules@),
                ),
            decreases self.text().len() - self.position(),
        {
            let ghost before = self.position();
            self.consume_whitespace();
            if self.eof() {
                return Ok(rules);
            }
            proof {
                lemma_run_end(self.text(), before, CharClass::Whitespace);
                lemma_rule_advances(self.text(), self.position());
            }
            match self.parse_rule() {
                Ok(rule) => {
                    proof {
                        lemma_views_push(rules@, rule);
                    }
                    rules.push(rule);
                },
                Err(e) => {
                    return Err(e);
                },
            }
        }
    }
}

/// Parses a style sheet.
pub fn parse(source: String) -> (r: Result<Stylesheet, SyntaxError>)
    ensures
        match r {
            Ok(sheet) => stylesheet_of(source@) == Ok::<_, SyntaxErrorModel>(sheet@),
            Err(e) => stylesheet_of(source@) == Err::<SheetModel, _>(e@),
        },
{
    let mut parser = Parser::new(source.as_str());
    match parser.parse_rules() {
        Ok(rules) => Ok(Stylesheet { rules }),
        Err(e) => Err(e),
    }
}

} // verus!
