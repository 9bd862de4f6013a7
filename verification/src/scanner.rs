//! A cursor over a text, moving one character at a time.

use vstd::prelude::*;
use crate::chars::{to_chars, CharClass};
use crate::error::{found_at, missing_char, Expected, Found, SyntaxError};

verus! {

/// Where the run of characters of `class` that starts at `start` ends: the
/// first position from `start` on that holds a character outside the class,
/// or the length of `s`.
pub open spec fn run_end(s: Seq<char>, start: int, class: CharClass) -> int
    decreases s.len() - start,
{
    if 0 <= start < s.len() && class.holds(s[start]) {
        run_end(s, start + 1, class)
    } else {
        start
    }
}

/// `run_end` is the one position that ends a run: all before it is of the
/// class, and what stands at it is not.
pub proof fn lemma_run_end(s: Seq<char>, start: int, class: CharClass)
    requires
        0 <= start <= s.len(),
    ensures
        start <= run_end(s, start, class) <= s.len(),
        forall|k: int| start <= k < run_end(s, start, class) ==> class.holds(#[trigger] s[k]),
        run_end(s, start, class) < s.len() ==> !class.holds(s[run_end(s, start, class)]),
    decreases s.len() - start,
{
    if start < s.len() && class.holds(s[start]) {
        lemma_run_end(s, start + 1, class);
    }
}

/// Any position that ends a run from `start` is `run_end`.
pub proof fn lemma_run_end_unique(s: Seq<char>, start: int, class: CharClass, end: int)
    requires
        0 <= start <= end <= s.len(),
        forall|k: int| start <= k < end ==> class.holds(#[trigger] s[k]),
        end < s.len() ==> !class.holds(s[end]),
    ensures
        run_end(s, start, class) == end,
    decreases end - start,
{
    if start < end {
        lemma_run_end_unique(s, start + 1, class, end);
    }
}

/// Whether `s` holds `prefix` at `pos`.
pub open spec fn holds_at(s: Seq<char>, pos: int, prefix: Seq<char>) -> bool {
    &&& 0 <= pos
    &&& pos + prefix.len() <= s.len()
    &&& s.subrange(pos, pos + prefix.len()) == prefix
}

/// A text and a position in it: the index of the next character that has
/// not been read. A position is counted in characters, never in bytes.
pub struct Parser {
    pos: usize,
    input: Vec<char>,
}

impl Parser {
    /// The position lies within the text or at its end. This holds of every
    /// cursor.
    #[verifier::type_invariant]
    pub closed spec fn in_bounds(self) -> bool {
        self.pos <= self.input.len()
    }

    /// The whole text.
    pub closed spec fn text(&self) -> Seq<char> {
        self.input@
    }

    /// The index of the next unread character.
    pub closed spec fn position(&self) -> int {
        self.pos as int
    }

    /// A position is never negative.
    pub broadcast proof fn lemma_position_not_negative(self)
        ensures
            0 <= #[trigger] self.position(),
    {
    }

    /// What `in_bounds` says, over `position` and `text`.
    pub broadcast proof fn lemma_in_bounds(self)
        ensures
            #[trigger] self.in_bounds() ==> self.position() <= self.text().len(),
    {
    }

    /// A cursor at the start of `source`.
    pub fn new(source: &str) -> (p: Parser)
        ensures
            p.text() == source@,
            p.position() == 0,
    {
        Parser { pos: 0, input: to_chars(source) }
    }

    /// The index of the next unread character; never beyond the end.
    pub fn offset(&self) -> (n: usize)
        ensures
            n == self.position(),
            n <= self.text().len(),
    {
        proof {
            use_type_invariant(self);
        }
        self.pos
    }

    /// Whether all input is consumed.
    pub fn eof(&self) -> (r: bool)
        ensures
            r == (self.position() >= self.text().len()),
            self.position() <= self.text().len(),
    {
        proof {
            use_type_invariant(self);
        }
        self.pos >= self.input.len()
    }

    /// The next character, which stays unread.
    pub fn next_char(&self) -> (c: char)
        requires
            self.position() < self.text().len(),
        ensures
            c == self.text()[self.position()],
    {
        self.input[self.pos]
    }

    /// Whether the unread input starts with `s`.
    pub fn starts_with(&self, s: &str) -> (r: bool)
        ensures
            r == holds_at(self.text(), self.position(), s@),
    {
        proof {
            use_type_invariant(self);
        }
        let mut i: usize = self.pos;
        for c in it: s.chars()
            invariant
                self.pos <= i <= self.input.len(),
                i == self.pos + it.index(),
                it.seq() == s@,
                self.input@.subrange(self.pos as int, i as int) == s@.take(it.index() as int),
        {
            if i >= self.input.len() || self.input[i] != c {
                assert(!holds_at(self.text(), self.position(), s@)) by {
                    if holds_at(self.text(), self.position(), s@) {
                        assert(self.input@.subrange(self.pos as int, self.pos + s@.len())[i
                            - self.pos] == s@[i - self.pos]);
                    }
                }
                return false;
            }
            proof {
                assert(self.input@.subrange(self.pos as int, i + 1) =~= s@.take(
                    it.index() as int + 1,
                ));
            }
            i += 1;
        }
        proof {
            assert(s@.take(s@.len() as int) =~= s@);
        }
        true
    }

    /// What stands at the cursor.
    pub fn found(&self) -> (f: Found)
        ensures
            f@ == found_at(self.text(), self.position()),
    {
        if self.eof() {
            Found::EndOfInput
        } else {
            Found::Char(self.next_char())
        }
    }

    /// Reads the next character.
    pub fn consume_char(&mut self) -> (c: char)
        requires
            old(self).position() < old(self).text().len(),
        ensures
            c == old(self).text()[old(self).position()],
            final(self).text() == old(self).text(),
            final(self).position() == old(self).position() + 1,
    {
        assert(self.pos < self.input.len());
        let c = self.input[self.pos];
        self.pos = self.pos + 1;
        c
    }

    /// Reads the next character if it is `c`; if it is not, the cursor stays
    /// and the error says what stood there.
    pub fn expect(&mut self, c: char) -> (r: Result<(), SyntaxError>)
        ensures
            final(self).text() == old(self).text(),
            match r {
                Ok(_) => {
                    &&& old(self).position() < old(self).text().len()
                    &&& old(self).text()[old(self).position()] == c
                    &&& final(self).position() == old(self).position() + 1
                },
                Err(e) => {
                    &&& !(old(self).position() < old(self).text().len() && old(self).text()[old(
                        self,
                    ).position()] == c)
                    &&& final(self).position() == old(self).position()
                    &&& e@ == missing_char(old(self).text(), old(self).position(), c)
                },
            },
    {
        if !self.eof() && self.next_char() == c {
            self.consume_char();
            Ok(())
        } else {
            Err(SyntaxError { position: self.pos, expected: Expected::Char(c), found: self.found() })
        }
    }

    /// Reads characters for as long as they are of `class`, and returns them.
    pub fn consume_while(&mut self, class: CharClass) -> (run: String)
        ensures
            final(self).text() == old(self).text(),
            final(self).position() == run_end(old(self).text(), old(self).position(), class),
            old(self).position() <= final(self).position() <= old(self).text().len(),
            run@ == old(self).text().subrange(old(self).position(), final(self).position()),
    {
        proof {
            use_type_invariant(&*self);
        }
        let mut run = String::new();
        let ghost start = self.pos as int;
        while !self.eof() && class.contains(self.next_char())
            invariant
                self.text() == old(self).text(),
                start == old(self).position(),
                start <= self.position() <= self.text().len(),
                run_end(self.text(), start, class) == run_end(self.text(), self.position(), class),
                run@ == self.text().subrange(start, self.position()),
            decreases self.text().len() - self.position(),
        {
            let ghost before = self.position();
            let c = self.consume_char();
            run.push(c);
            proof {
                assert(self.text().subrange(start, before).push(c) =~= self.text().subrange(
                    start,
                    before + 1,
                ));
            }
        }
        run
    }

    /// Reads and discards whitespace, if any stands at the cursor.
    pub fn consume_whitespace(&mut self)
        ensures
            final(self).text() == old(self).text(),
            final(self).position() == run_end(
                old(self).text(),
                old(self).position(),
                CharClass::Whitespace,
            ),
            old(self).position() <= final(self).position() <= old(self).text().len(),
    {
        proof {
            use_type_invariant(&*self);
        }
        while !self.eof() && CharClass::Whitespace.contains(self.next_char())
            invariant
                self.text() == old(self).text(),
                old(self).position() <= self.position() <= self.text().len(),
                run_end(self.text(), old(self).position(), CharClass::Whitespace) == run_end(
                    self.text(),
                    self.position(),
                    CharClass::Whitespace,
                ),
            decreases self.text().len() - self.position(),
        {
            self.consume_char();
        }
    }
}

} // verus!
