//! The one failure a parse can end in.

use vstd::prelude::*;

verus! {

/// What the parser needed at the place where it stopped.
#[derive(Debug, PartialEq, Eq)]
pub enum Expected {
    /// This very character.
    Char(char),
    /// One of the two quote characters, `"` or `'`.
    Quote,
    /// An attribute name of at least one character.
    AttributeName,
    /// The name of the element that is being closed.
    ClosingTag(String),
    /// A decimal digit.
    Digit,
    /// A hexadecimal digit.
    HexDigit,
    /// A unit of length.
    Unit,
}

/// What the parser met instead.
#[derive(Debug, PartialEq, Eq)]
pub enum Found {
    /// A character.
    Char(char),
    /// A name, possibly empty.
    Name(String),
    /// The end of the input.
    EndOfInput,
}

/// A parse stopped: at `position`, counted in characters from the start of the
/// input, `expected` was required and `found` stood there.
#[derive(Debug, PartialEq, Eq)]
pub struct SyntaxError {
    pub position: usize,
    pub expected: Expected,
    pub found: Found,
}

/// The mathematical value of an `Expected`.
pub ghost enum ExpectedModel {
    Char(char),
    Quote,
    AttributeName,
    ClosingTag(Seq<char>),
    Digit,
    HexDigit,
    Unit,
}

/// The mathematical value of a `Found`.
pub ghost enum FoundModel {
    Char(char),
    Name(Seq<char>),
    EndOfInput,
}

/// The mathematical value of a `SyntaxError`.
pub ghost struct SyntaxErrorModel {
    pub position: int,
    pub expected: ExpectedModel,
    pub found: FoundModel,
}

impl View for Expected {
    type V = ExpectedModel;

    open spec fn view(&self) -> ExpectedModel {
        match self {
            Expected::Char(c) => ExpectedModel::Char(*c),
            Expected::Quote => ExpectedModel::Quote,
            Expected::AttributeName => ExpectedModel::AttributeName,
            Expected::ClosingTag(name) => ExpectedModel::ClosingTag(name@),
            Expected::Digit => ExpectedModel::Digit,
            Expected::HexDigit => ExpectedModel::HexDigit,
            Expected::Unit => ExpectedModel::Unit,
        }
    }
}

impl View for Found {
    type V = FoundModel;

    open spec fn view(&self) -> FoundModel {
        match self {
            Found::Char(c) => FoundModel::Char(*c),
            Found::Name(name) => FoundModel::Name(name@),
            Found::EndOfInput => FoundModel::EndOfInput,
        }
    }
}

impl View for SyntaxError {
    type V = SyntaxErrorModel;

    open spec fn view(&self) -> SyntaxErrorModel {
        SyntaxErrorModel {
            position: self.position as int,
            expected: self.expected@,
            found: self.found@,
        }
    }
}

impl Clone for Expected {
    fn clone(&self) -> (r: Expected)
        ensures
            r@ == self@,
    {
        match self {
            Expected::Char(c) => Expected::Char(*c),
            Expected::Quote => Expected::Quote,
            Expected::AttributeName => Expected::AttributeName,
            Expected::ClosingTag(name) => Expected::ClosingTag(name.clone()),
            Expected::Digit => Expected::Digit,
            Expected::HexDigit => Expected::HexDigit,
            Expected::Unit => Expected::Unit,
        }
    }
}

impl Clone for Found {
    fn clone(&self) -> (r: Found)
        ensures
            r@ == self@,
    {
        match self {
            Found::Char(c) => Found::Char(*c),
            Found::Name(name) => Found::Name(name.clone()),
            Found::EndOfInput => Found::EndOfInput,
        }
    }
}

impl Clone for SyntaxError {
    fn clone(&self) -> (r: SyntaxError)
        ensures
            r@ == self@,
    {
        SyntaxError {
            position: self.position,
            expected: self.expected.clone(),
            found: self.found.clone(),
        }
    }
}

/// What stands at `pos` in `s`: a character, or the end of the input.
pub open spec fn found_at(s: Seq<char>, pos: int) -> FoundModel {
    if 0 <= pos < s.len() {
        FoundModel::Char(s[pos])
    } else {
        FoundModel::EndOfInput
    }
}

/// The error of a parse that needed the character `c` at `pos`.
pub open spec fn missing_char(s: Seq<char>, pos: int, c: char) -> SyntaxErrorModel {
    SyntaxErrorModel { position: pos, expected: ExpectedModel::Char(c), found: found_at(s, pos) }
}

/// The error of a parse that needed `expected` at `pos` and met a character
/// or the end of the input.
pub open spec fn unexpected(s: Seq<char>, pos: int, expected: ExpectedModel) -> SyntaxErrorModel {
    SyntaxErrorModel { position: pos, expected, found: found_at(s, pos) }
}

} // verus!
