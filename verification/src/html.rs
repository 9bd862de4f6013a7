//! A parser for a small subset of HTML: elements with quoted attributes, and
//! text. No comments, no doctype, no self-closing tags, no character
//! entities. Malformed input ends the parse with a `SyntaxError`.

use vstd::prelude::*;
use vstd::hash_map::StringHashMap;
use vstd::string::StringExecFns;
use crate::chars::CharClass;
use crate::dom::{
    attributes_model, elem, element_tree, lemma_attributes_insert, lemma_trees_push, text, text_tree, trees, AttrMap, Node,
    Tree,
};
use crate::error::{
    missing_char, unexpected, Expected, ExpectedModel, Found, FoundModel, SyntaxError,
    SyntaxErrorModel,
};
use crate::scanner::{holds_at, lemma_run_end, run_end, Parser};

verus! {

broadcast use {Parser::lemma_position_not_negative, Parser::lemma_in_bounds};

/// The two characters that open a closing tag.
pub open spec fn closing_mark() -> Seq<char> {
    seq!['<', '/']
}

/// The name of the element that wraps a document without a single root.
pub open spec fn html_name() -> Seq<char> {
    seq!['h', 't', 'm', 'l']
}

/// A quoted attribute value at `pos`: a quote character, `"` or `'`, then
/// everything up to the next occurrence of the same character, which is read
/// too. Gives the value between the quotes and the position after them.
pub open spec fn attribute_value_at(s: Seq<char>, pos: int) -> Result<
    (Seq<char>, int),
    SyntaxErrorModel,
> {
    if !(0 <= pos < s.len() && (s[pos] == '"' || s[pos] == '\'')) {
        Err(unexpected(s, pos, ExpectedModel::Quote))
    } else {
        let end = run_end(s, pos + 1, CharClass::Except(s[pos]));
        if end < s.len() {
            Ok((s.subrange(pos + 1, end), end + 1))
        } else {
            Err(missing_char(s, end, s[pos]))
        }
    }
}

/// One attribute at `pos`: a name of one or more ASCII letters and digits,
/// `=`, and a quoted value. Gives the name, the value and the position after.
pub open spec fn attribute_at(s: Seq<char>, pos: int) -> Result<
    ((Seq<char>, Seq<char>), int),
    SyntaxErrorModel,
> {
    let name_end = run_end(s, pos, CharClass::Alphanumeric);
    if name_end == pos {
        Err(unexpected(s, pos, ExpectedModel::AttributeName))
    } else if !(0 <= name_end < s.len() && s[name_end] == '=') {
        Err(missing_char(s, name_end, '='))
    } else {
        match attribute_value_at(s, name_end + 1) {
            Ok((value, next)) => Ok(((s.subrange(pos, name_end), value), next)),
            Err(e) => Err(e),
        }
    }
}

/// An attribute ends after where it starts.
pub proof fn lemma_attribute_advances(s: Seq<char>, pos: int)
    requires
        0 <= pos <= s.len(),
    ensures
        match attribute_at(s, pos) {
            Ok((_, next)) => pos < next <= s.len(),
            Err(e) => pos <= e.position <= s.len(),
        },
{
    lemma_run_end(s, pos, CharClass::Alphanumeric);
    let name_end = run_end(s, pos, CharClass::Alphanumeric);
    if name_end < s.len() && s[name_end] == '=' {
        if name_end + 1 < s.len() {
            lemma_run_end(s, name_end + 2, CharClass::Except(s[name_end + 1]));
        }
    }
}

/// The attributes from `pos` up to the `>` that ends the opening tag, added
/// to `acc` in the order in which they stand, so that of two attributes of
/// one name the later stays. Whitespace before each attribute and before the
/// `>` is passed over. Gives the attributes and the position of the `>`.
pub open spec fn attributes_from(
    s: Seq<char>,
    pos: int,
    acc: Map<Seq<char>, Seq<char>>,
) -> Result<(Map<Seq<char>, Seq<char>>, int), SyntaxErrorModel>
    decreases s.len() - pos,
    when 0 <= pos <= s.len()
{
    let p = run_end(s, pos, CharClass::Whitespace);
    if p >= s.len() {
        Err(missing_char(s, p, '>'))
    } else if s[p] == '>' {
        Ok((acc, p))
    } else {
        proof {
            lemma_run_end(s, pos, CharClass::Whitespace);
            lemma_attribute_advances(s, p);
        }
        match attribute_at(s, p) {
            Ok(((name, value), next)) => attributes_from(s, next, acc.insert(name, value)),
            Err(e) => Err(e),
        }
    }
}

/// Where the attributes end, the `>` stands.
pub proof fn lemma_attributes_end(s: Seq<char>, pos: int, acc: Map<Seq<char>, Seq<char>>)
    requires
        0 <= pos <= s.len(),
    ensures
        match attributes_from(s, pos, acc) {
            Ok((_, gt)) => pos <= gt < s.len() && s[gt] == '>',
            Err(e) => pos <= e.position <= s.len(),
        },
    decreases s.len() - pos,
{
    lemma_run_end(s, pos, CharClass::Whitespace);
    let p = run_end(s, pos, CharClass::Whitespace);
    if p < s.len() && s[p] != '>' {
        lemma_attribute_advances(s, p);
        match attribute_at(s, p) {
            Ok(((name, value), next)) => {
                lemma_attributes_end(s, next, acc.insert(name, value));
            },
            Err(_) => {},
        }
    }
}

/// The closing tag of an element named `tag` at `pos`: `<`, `/`, a run of
/// ASCII letters and digits that equals `tag`, and `>`. Gives the position
/// after the `>`.
pub open spec fn closing_tag_at(s: Seq<char>, pos: int, tag: Seq<char>) -> Result<
    int,
    SyntaxErrorModel,
> {
    if !(0 <= pos < s.len() && s[pos] == '<') {
        Err(missing_char(s, pos, '<'))
    } else if !(pos + 1 < s.len() && s[pos + 1] == '/') {
        Err(missing_char(s, pos + 1, '/'))
    } else {
        let name_end = run_end(s, pos + 2, CharClass::Alphanumeric);
        let name = s.subrange(pos + 2, name_end);
        if name != tag {
            Err(
                SyntaxErrorModel {
                    position: pos + 2,
                    expected: ExpectedModel::ClosingTag(tag),
                    found: FoundModel::Name(name),
                },
            )
        } else if !(name_end < s.len() && s[name_end] == '>') {
            Err(missing_char(s, name_end, '>'))
        } else {
            Ok(name_end + 1)
        }
    }
}

/// An element at `pos`: `<`, a tag name (a run of ASCII letters and digits,
/// which may be empty), attributes, `>`, child nodes, and the closing tag of
/// the same name. Gives the element and the position after its closing tag.
pub open spec fn element_at(s: Seq<char>, pos: int) -> Result<(Tree, int), SyntaxErrorModel>
    decreases s.len() - pos, 0int,
    when 0 <= pos <= s.len()
{
    if !(pos < s.len() && s[pos] == '<') {
        Err(missing_char(s, pos, '<'))
    } else {
        let name_end = run_end(s, pos + 1, CharClass::Alphanumeric);
        let tag = s.subrange(pos + 1, name_end);
        proof {
            lemma_run_end(s, pos + 1, CharClass::Alphanumeric);
            lemma_attributes_end(s, name_end, Map::empty());
        }
        match attributes_from(s, name_end, Map::empty()) {
            Err(e) => Err(e),
            Ok((attributes, gt)) => match nodes_from(s, gt + 1, Seq::empty()) {
                Err(e) => Err(e),
                Ok((children, close)) => match closing_tag_at(s, close, tag) {
                    Err(e) => Err(e),
                    Ok(next) => Ok((element_tree(tag, attributes, children), next)),
                },
            },
        }
    }
}

/// One node at `pos`: an element where a `<` stands, else a text node that
/// holds everything up to the next `<` or the end of the input.
pub open spec fn node_at(s: Seq<char>, pos: int) -> Result<(Tree, int), SyntaxErrorModel>
    decreases s.len() - pos, 1int,
    when 0 <= pos <= s.len()
{
    if pos < s.len() && s[pos] == '<' {
        element_at(s, pos)
    } else {
        let end = run_end(s, pos, CharClass::Except('<'));
        Ok((text_tree(s.subrange(pos, end)), end))
    }
}

/// The sibling nodes from `pos` on, appended to `acc`. Whitespace before each
/// node is passed over; the sequence ends at the end of the input or where
/// `</` stands, and the position given is that place. Every node ends after
/// where it starts (`lemma_node_advances`), so the test on `next` always
/// succeeds; it is there to make the definition well-founded.
pub open spec fn nodes_from(s: Seq<char>, pos: int, acc: Seq<Tree>) -> Result<
    (Seq<Tree>, int),
    SyntaxErrorModel,
>
    decreases s.len() - pos, 2int,
    when 0 <= pos <= s.len()
{
    let p = run_end(s, pos, CharClass::Whitespace);
    if p >= s.len() || holds_at(s, p, closing_mark()) {
        Ok((acc, p))
    } else {
        proof {
            lemma_run_end(s, pos, CharClass::Whitespace);
        }
        match node_at(s, p) {
            Err(e) => Err(e),
            Ok((node, next)) => if p < next <= s.len() {
                nodes_from(s, next, acc.push(node))
            } else {
                Ok((acc.push(node), next))
            },
        }
    }
}

/// The document that a text describes. The top-level nodes are read as any
/// sequence of siblings is, so reading stops at the end of the input or at the
/// first `</` that closes no element, and what follows that is not read. A
/// single top-level node is the document; any other number of them becomes
/// the children of an element `html` without attributes.
pub open spec fn document_of(s: Seq<char>) -> Result<Tree, SyntaxErrorModel> {
    match nodes_from(s, 0, Seq::empty()) {
        Err(e) => Err(e),
        Ok((nodes, _)) => Ok(
            if nodes.len() == 1 {
                nodes[0]
            } else {
                element_tree(html_name(), Map::empty(), nodes)
            },
        ),
    }
}

/// A closing tag ends after where it starts.
pub proof fn lemma_closing_tag_end(s: Seq<char>, pos: int, tag: Seq<char>)
    requires
        0 <= pos <= s.len(),
    ensures
        match closing_tag_at(s, pos, tag) {
            Ok(next) => pos < next <= s.len(),
            Err(e) => pos <= e.position <= s.len(),
        },
{
    if pos + 1 < s.len() {
        lemma_run_end(s, pos + 2, CharClass::Alphanumeric);
    }
}

/// An element ends after where it starts, and an error lies at or after it.
pub proof fn lemma_element_advances(s: Seq<char>, pos: int)
    requires
        0 <= pos <= s.len(),
    ensures
        match element_at(s, pos) {
            Ok((_, next)) => pos < next <= s.len(),
            Err(e) => pos <= e.position <= s.len(),
        },
    decreases s.len() - pos, 0int,
{
    if pos < s.len() && s[pos] == '<' {
        let name_end = run_end(s, pos + 1, CharClass::Alphanumeric);
        let tag = s.subrange(pos + 1, name_end);
        lemma_run_end(s, pos + 1, CharClass::Alphanumeric);
        lemma_attributes_end(s, name_end, Map::empty());
        match attributes_from(s, name_end, Map::empty()) {
            Err(_) => {},
            Ok((_, gt)) => {
                lemma_nodes_end(s, gt + 1, Seq::empty());
                match nodes_from(s, gt + 1, Seq::empty()) {
                    Err(_) => {},
                    Ok((_, close)) => {
                        lemma_closing_tag_end(s, close, tag);
                    },
                }
            },
        }
    }
}

/// A node that starts before the end of the input ends after where it
/// starts.
pub proof fn lemma_node_advances(s: Seq<char>, pos: int)
    requires
        0 <= pos < s.len(),
    ensures
        match node_at(s, pos) {
            Ok((_, next)) => pos < next <= s.len(),
            Err(e) => pos <= e.position <= s.len(),
        },
    decreases s.len() - pos, 1int,
{
    if s[pos] == '<' {
        lemma_element_advances(s, pos);
    } else {
        lemma_run_end(s, pos + 1, CharClass::Except('<'));
    }
}

/// A sequence of siblings ends at or after where it starts, at the end of the
/// input or at a `</`, and holds what `acc` held and then the nodes read.
pub proof fn lemma_nodes_end(s: Seq<char>, pos: int, acc: Seq<Tree>)
    requires
        0 <= pos <= s.len(),
    ensures
        match nodes_from(s, pos, acc) {
            Ok((nodes, end)) => {
                &&& pos <= end <= s.len()
                &&& end == s.len() || holds_at(s, end, closing_mark())
                &&& acc.len() <= nodes.len()
                &&& nodes.take(acc.len() as int) == acc
            },
            Err(e) => pos <= e.position <= s.len(),
        },
    decreases s.len() - pos, 2int,
{
    lemma_run_end(s, pos, CharClass::Whitespace);
    let p = run_end(s, pos, CharClass::Whitespace);
    if p < s.len() && !holds_at(s, p, closing_mark()) {
        lemma_node_advances(s, p);
        match node_at(s, p) {
            Err(_) => {},
            Ok((node, next)) => {
                lemma_nodes_end(s, next, acc.push(node));
                match nodes_from(s, next, acc.push(node)) {
                    Ok((nodes, _)) => {
                        assert(nodes.take(acc.len() as int) =~= nodes.take(acc.len() as int + 1).take(
                            acc.len() as int,
                        ));
                        assert(acc.push(node).take(acc.len() as int) =~= acc);
                    },
                    Err(_) => {},
                }
            },
        }
    } else {
        assert(acc.take(acc.len() as int) =~= acc);
    }
}

/// Whether `s` is a single run of text at the top level: after leading
/// whitespace stands a character other than `<`, and the text that starts
/// there runs to the end of the input or to a `</`.
pub open spec fn is_lone_text(s: Seq<char>) -> bool {
    let start = run_end(s, 0, CharClass::Whitespace);
    let end = run_end(s, start, CharClass::Except('<'));
    &&& start < s.len()
    &&& s[start] != '<'
    &&& end == s.len() || holds_at(s, end, closing_mark())
}

/// The root of a document is an element, unless the input is a single run of
/// text: that text node is then the document.
pub proof fn lemma_root_is_element(s: Seq<char>)
    requires
        document_of(s) is Ok,
    ensures
        !is_lone_text(s) ==> document_of(s)->Ok_0.kind is Element,
        is_lone_text(s) ==> document_of(s)->Ok_0.kind is Text,
{
    let none = Seq::<Tree>::empty();
    lemma_run_end(s, 0, CharClass::Whitespace);
    let start = run_end(s, 0, CharClass::Whitespace);
    if start < s.len() && !holds_at(s, start, closing_mark()) {
        lemma_node_advances(s, start);
        let (first, next) = node_at(s, start)->Ok_0;
        let one = none.push(first);
        lemma_nodes_end(s, next, one);
        let (nodes, _) = nodes_from(s, next, one)->Ok_0;
        assert(nodes[0] == nodes.take(1)[0]);
        assert(nodes[0] == first);
        if s[start] != '<' {
            lemma_run_end(s, start, CharClass::Except('<'));
            lemma_run_end(s, next, CharClass::Whitespace);
            assert(run_end(s, next, CharClass::Whitespace) == next);
            if !is_lone_text(s) {
                lemma_node_advances(s, next);
                let (second, after) = node_at(s, next)->Ok_0;
                lemma_nodes_end(s, after, one.push(second));
            }
        }
    }
}

/// The empty input is an element `html` without attributes or children.
pub proof fn lemma_empty_document()
    ensures
        document_of(Seq::empty()) == Ok::<_, SyntaxErrorModel>(
            element_tree(html_name(), Map::empty(), Seq::empty()),
        ),
{
}

/// The error of a failed parse lies within the text or at its end.
pub proof fn lemma_error_position(s: Seq<char>)
    requires
        document_of(s) is Err,
    ensures
        0 <= document_of(s)->Err_0.position <= s.len(),
{
    lemma_nodes_end(s, 0, Seq::empty());
}

impl Parser {
    /// Reads a tag or attribute name: a run of ASCII letters and digits.
    pub fn parse_tag_name(&mut self) -> (name: String)
        ensures
            final(self).text() == old(self).text(),
            final(self).position() == run_end(
                old(self).text(),
                old(self).position(),
                CharClass::Alphanumeric,
            ),
            old(self).position() <= final(self).position() <= old(self).text().len(),
            name@ == old(self).text().subrange(old(self).position(), final(self).position()),
    {
        self.consume_while(CharClass::Alphanumeric)
    }

    /// Reads a quoted value.
    pub fn parse_attr_value(&mut self) -> (r: Result<String, SyntaxError>)
        ensures
            final(self).text() == old(self).text(),
            match r {
                Ok(value) => attribute_value_at(old(self).text(), old(self).position()) == Ok::<
                    _,
                    SyntaxErrorModel,
                >((value@, final(self).position())),
                Err(e) => attribute_value_at(old(self).text(), old(self).position()) == Err::<
                    (Seq<char>, int),
                    _,
                >(e@),
            },
    {
        if self.eof() {
            return Err(
                SyntaxError {
                    position: self.offset(),
                    expected: Expected::Quote,
                    found: Found::EndOfInput,
                },
            );
        }
        let open_quote = self.next_char();
        if open_quote != '"' && open_quote != '\'' {
            return Err(
                SyntaxError {
                    position: self.offset(),
                    expected: Expected::Quote,
                    found: Found::Char(open_quote),
                },
            );
        }
        self.consume_char();
        proof {
            lemma_run_end(self.text(), self.position(), CharClass::Except(open_quote));
        }
        let value = self.consume_while(CharClass::Except(open_quote));
        match self.expect(open_quote) {
            Ok(_) => Ok(value),
            Err(e) => Err(e),
        }
    }

    /// Reads a single `name="value"` pair.
    pub fn parse_attr(&mut self) -> (r: Result<(String, String), SyntaxError>)
        ensures
            final(self).text() == old(self).text(),
            match r {
                Ok((name, value)) => attribute_at(old(self).text(), old(self).position()) == Ok::<
                    _,
                    SyntaxErrorModel,
                >(((name@, value@), final(self).position())),
                Err(e) => attribute_at(old(self).text(), old(self).position()) == Err::<
                    ((Seq<char>, Seq<char>), int),
                    _,
                >(e@),
            },
    {
        let start = self.offset();
        let name = self.parse_tag_name();
        if self.offset() == start {
            return Err(
                SyntaxError {
                    position: start,
                    expected: Expected::AttributeName,
                    found: self.found(),
                },
            );
        }
        match self.expect('=') {
            Ok(_) => {},
            Err(e) => {
                return Err(e);
            },
        }
        match self.parse_attr_value() {
            Ok(value) => Ok((name, value)),
            Err(e) => Err(e),
        }
    }

    /// Reads the `name="value"` pairs of an opening tag, separated by
    /// whitespace, up to the `>` that ends the tag, which stays unread.
    pub fn parse_attributes(&mut self) -> (r: Result<AttrMap, SyntaxError>)
        ensures
            final(self).text() == old(self).text(),
            match r {
                Ok(attributes) => attributes_from(
                    old(self).text(),
                    old(self).position(),
                    Map::empty(),
                ) == Ok::<_, SyntaxErrorModel>(
                    (attributes_model(attributes@), final(self).position()),
                ),
                Err(e) => attributes_from(old(self).text(), old(self).position(), Map::empty())
                    == Err::<(Map<Seq<char>, Seq<char>>, int), _>(e@),
            },
    {
        proof {
            use_type_invariant(&*self);
        }
        let mut attributes: AttrMap = StringHashMap::new();
        assert(attributes_model(attributes@) =~= Map::empty());
        loop
            invariant
                self.text() == old(self).text(),
                0 <= self.position() <= self.text().len(),
                attributes_from(old(self).text(), old(self).position(), Map::empty())
                    == attributes_from(
                    self.text(),
                    self.position(),
                    attributes_model(attributes@),
                ),
            decreases self.text().len() - self.position(),
        {
            let ghost before = self.position();
            self.consume_whitespace();
            if self.eof() {
                return Err(
                    SyntaxError {
                        position: self.offset(),
                        expected: Expected::Char('>'),
                        found: Found::EndOfInput,
                    },
                );
            }
            if self.next_char() == '>' {
                return Ok(attributes);
            }
            proof {
                lemma_run_end(self.text(), before, CharClass::Whitespace);
                lemma_attribute_advances(self.text(), self.position());
            }
            match self.parse_attr() {
                Ok((name, value)) => {
                    proof {
                        lemma_attributes_insert(attributes@, name@, value);
                    }
                    attributes.insert(name, value);
                },
                Err(e) => {
                    return Err(e);
                },
            }
        }
    }

    /// Reads a text node: everything up to the next `<`.
    pub fn parse_text(&mut self) -> (node: Node)
        ensures
            final(self).text() == old(self).text(),
            final(self).position() == run_end(
                old(self).text(),
                old(self).position(),
                CharClass::Except('<'),
            ),
            node@ == text_tree(
                old(self).text().subrange(old(self).position(), final(self).position()),
            ),
    {
        text(self.consume_while(CharClass::Except('<')))
    }

    /// Reads the closing tag of the element named `tag_name`.
    pub fn parse_closing_tag(&mut self, tag_name: &String) -> (r: Result<(), SyntaxError>)
        ensures
            final(self).text() == old(self).text(),
            match r {
                Ok(_) => closing_tag_at(old(self).text(), old(self).position(), tag_name@) == Ok::<
                    _,
                    SyntaxErrorModel,
                >(final(self).position()),
                Err(e) => closing_tag_at(old(self).text(), old(self).position(), tag_name@)
                    == Err::<int, _>(e@),
            },
    {
        proof {
            use_type_invariant(&*self);
        }
        match self.expect('<') {
            Ok(_) => {},
            Err(e) => {
                return Err(e);
            },
        }
        match self.expect('/') {
            Ok(_) => {},
            Err(e) => {
                return Err(e);
            },
        }
        let start = self.offset();
        let name = self.parse_tag_name();
        if !(name == *tag_name) {
            return Err(
                SyntaxError {
                    position: start,
                    expected: Expected::ClosingTag(tag_name.clone()),
                    found: Found::Name(name),
                },
            );
        }
        self.expect('>')
    }

    /// Reads a single element: its opening tag, its contents and its closing
    /// tag.
    pub fn parse_element(&mut self) -> (r: Result<Node, SyntaxError>)
        ensures
            final(self).text() == old(self).text(),
            match r {
                Ok(node) => element_at(old(self).text(), old(self).position()) == Ok::<
                    _,
                    SyntaxErrorModel,
                >((node@, final(self).position())),
                Err(e) => element_at(old(self).text(), old(self).position()) == Err::<
                    (Tree, int),
                    _,
                >(e@),
            },
        decreases old(self).text().len() - old(self).position(), 0int,
    {
        proof {
            use_type_invariant(&*self);
        }
        match self.expect('<') {
            Ok(_) => {},
            Err(e) => {
                return Err(e);
            },
        }
        let tag_name = self.parse_tag_name();
        proof {
            lemma_attributes_end(self.text(), self.position(), Map::empty());
        }
        let attrs = match self.parse_attributes() {
            Ok(attrs) => attrs,
            Err(e) => {
                return Err(e);
            },
        };
        match self.expect('>') {
            Ok(_) => {},
            Err(e) => {
                return Err(e);
            },
        }
        let children = match self.parse_nodes() {
            Ok(children) => children,
            Err(e) => {
                return Err(e);
            },
        };
        match self.parse_closing_tag(&tag_name) {
            Ok(_) => {},
            Err(e) => {
                return Err(e);
            },
        }
        Ok(elem(tag_name, attrs, children))
    }

    /// Reads a single node: an element where a `<` stands, else text.
    pub fn parse_node(&mut self) -> (r: Result<Node, SyntaxError>)
        ensures
            final(self).text() == old(self).text(),
            match r {
                Ok(node) => node_at(old(self).text(), old(self).position()) == Ok::<
                    _,
                    SyntaxErrorModel,
                >((node@, final(self).position())),
                Err(e) => node_at(old(self).text(), old(self).position()) == Err::<
                    (Tree, int),
                    _,
                >(e@),
            },
        decreases old(self).text().len() - old(self).position(), 1int,
    {
        if !self.eof() && self.next_char() == '<' {
            self.parse_element()
        } else {
            Ok(self.parse_text())
        }
    }

    /// Reads a sequence of sibling nodes, up to the end of the input or to a
    /// `</`, which stays unread.
    pub fn parse_nodes(&mut self) -> (r: Result<Vec<Node>, SyntaxError>)
        ensures
            final(self).text() == old(self).text(),
            match r {
                Ok(nodes) => nodes_from(old(self).text(), old(self).position(), Seq::empty())
                    == Ok::<_, SyntaxErrorModel>((trees(nodes@), final(self).position())),
                Err(e) => nodes_from(old(self).text(), old(self).position(), Seq::empty()) == Err::<
                    (Seq<Tree>, int),
                    _,
                >(e@),
            },
        decreases old(self).text().len() - old(self).position(), 2int,
    {
        proof {
            use_type_invariant(&*self);
        }
        let mut nodes: Vec<Node> = Vec::new();
        assert(trees(nodes@) =~= Seq::empty());
        loop
            invariant
                self.text() == old(self).text(),
                old(self).position() <= self.position() <= self.text().len(),
                nodes_from(old(self).text(), old(self).position(), Seq::empty()) == nodes_from(
                    self.text(),
                    self.position(),
                    trees(nodes@),
                ),
            decreases self.text().len() - self.position(),
        {
            let ghost before = self.position();
            self.consume_whitespace();
            proof {
                reveal_strlit("</");
                assert("</"@ =~= closing_mark());
            }
            if self.eof() || self.starts_with("</") {
                return Ok(nodes);
            }
            proof {
                lemma_run_end(self.text(), before, CharClass::Whitespace);
                lemma_node_advances(self.text(), self.position());
            }
            match self.parse_node() {
                Ok(node) => {
                    proof {
                        lemma_trees_push(nodes@, node);
                    }
                    nodes.push(node);
                },
                Err(e) => {
                    return Err(e);
                },
            }
        }
    }
}

/// Parses an HTML document and returns its root.
pub fn parse(source: String) -> (r: Result<Node, SyntaxError>)
    ensures
        match r {
            Ok(root) => document_of(source@) == Ok::<_, SyntaxErrorModel>(root@),
            Err(e) => document_of(source@) == Err::<Tree, _>(e@),
        },
{
    let mut parser = Parser::new(source.as_str());
    let mut nodes = match parser.parse_nodes() {
        Ok(nodes) => nodes,
        Err(e) => {
            return Err(e);
        },
    };
    if nodes.len() == 1 {
        let root = nodes.remove(0);
        Ok(root)
    } else {
        proof {
            reveal_strlit("html");
            assert("html"@ =~= html_name());
        }
        let attributes: AttrMap = StringHashMap::new();
        assert(attributes_model(attributes@) =~= Map::empty());
        Ok(elem(String::from_str("html"), attributes, nodes))
    }
}

} // verus!
