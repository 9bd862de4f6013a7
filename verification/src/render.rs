//! Writing a document as text, and the law that reading the text gives the
//! document back.

use vstd::prelude::*;
use crate::chars::{is_alphanumeric, is_whitespace, CharClass};
use crate::dom::{element_tree, text_tree, Tree};
use crate::error::SyntaxErrorModel;
use crate::html::{
    attribute_at, attributes_from, closing_mark, closing_tag_at, document_of,
    element_at, node_at, nodes_from,
};
use crate::scanner::{holds_at, lemma_run_end_unique, run_end};

verus! {

/// A document as it is written: text, or an element with its attributes in
/// the order in which they stand.
pub ghost enum Markup {
    Text(Seq<char>),
    Element { tag: Seq<char>, attributes: Seq<(Seq<char>, Seq<char>)>, children: Seq<Markup> },
}

/// Where `s` holds `word` at `pos`, it holds each character of it.
pub proof fn lemma_holds_at_index(s: Seq<char>, pos: int, word: Seq<char>, k: int)
    requires
        holds_at(s, pos, word),
        0 <= k < word.len(),
    ensures
        pos + k < s.len(),
        s[pos + k] == word[k],
{
    assert(s.subrange(pos, pos + word.len())[k] == word[k]);
}

/// Every position of `s` holds the empty word.
pub proof fn lemma_holds_at_nothing(s: Seq<char>, pos: int)
    requires
        0 <= pos <= s.len(),
    ensures
        holds_at(s, pos, Seq::empty()),
{
    assert(s.subrange(pos, pos) =~= Seq::<char>::empty());
}

/// Where no whitespace stands at `pos`, none is passed over.
pub proof fn lemma_no_whitespace(s: Seq<char>, pos: int)
    requires
        0 <= pos <= s.len(),
        pos < s.len() ==> !is_whitespace(s[pos]),
    ensures
        run_end(s, pos, CharClass::Whitespace) == pos,
{
    lemma_holds_at_nothing(s, pos);
    lemma_run_over(s, pos, CharClass::Whitespace, Seq::empty());
}

/// Where `s` holds `a + b` at `pos`, it holds `a` there and `b` behind it.
pub proof fn lemma_holds_at_split(s: Seq<char>, pos: int, a: Seq<char>, b: Seq<char>)
    requires
        holds_at(s, pos, a + b),
    ensures
        holds_at(s, pos, a),
        holds_at(s, pos + a.len(), b),
{
    let whole = s.subrange(pos, pos + (a + b).len());
    assert(s.subrange(pos, pos + a.len()) =~= whole.subrange(0, a.len() as int));
    assert((a + b).subrange(0, a.len() as int) =~= a);
    assert(s.subrange(pos + a.len(), pos + a.len() + b.len()) =~= whole.subrange(
        a.len() as int,
        (a + b).len() as int,
    ));
    assert((a + b).subrange(a.len() as int, (a + b).len() as int) =~= b);
}

/// Where `s` holds at `pos` a word of characters of `class`, and what
/// follows the word is not of the class, the run from `pos` is the word.
pub proof fn lemma_run_over(s: Seq<char>, pos: int, class: CharClass, word: Seq<char>)
    requires
        holds_at(s, pos, word),
        forall|k: int| 0 <= k < word.len() ==> class.holds(#[trigger] word[k]),
        pos + word.len() < s.len() ==> !class.holds(s[pos + word.len()]),
    ensures
        run_end(s, pos, class) == pos + word.len(),
        s.subrange(pos, pos + word.len()) == word,
{
    assert forall|k: int| pos <= k < pos + word.len() implies class.holds(#[trigger] s[k]) by {
        lemma_holds_at_index(s, pos, word, k - pos);
    }
    lemma_run_end_unique(s, pos, class, pos + word.len());
}

/// Whether every character of `word` is an ASCII letter or digit.
pub open spec fn is_name(word: Seq<char>) -> bool {
    forall|k: int| 0 <= k < word.len() ==> is_alphanumeric(#[trigger] word[k])
}

/// Whether an attribute can be written between double quotes: the name is a
/// name of at least one character, and the value holds no double quote.
pub open spec fn is_writable_attribute(attribute: (Seq<char>, Seq<char>)) -> bool {
    &&& attribute.0.len() > 0
    &&& is_name(attribute.0)
    &&& forall|k: int| 0 <= k < attribute.1.len() ==> (#[trigger] attribute.1[k]) != '"'
}

/// An attribute as it is written: a space, the name, `=`, and the value
/// between double quotes.
pub open spec fn written_attribute(attribute: (Seq<char>, Seq<char>)) -> Seq<char> {
    seq![' '] + attribute.0 + seq!['=', '"'] + attribute.1 + seq!['"']
}

/// A written attribute reads back: the space is passed over, and the
/// attribute that follows is the one that was written.
pub proof fn lemma_attribute_reads_back(s: Seq<char>, pos: int, attribute: (Seq<char>, Seq<char>))
    requires
        is_writable_attribute(attribute),
        holds_at(s, pos, written_attribute(attribute)),
    ensures
        run_end(s, pos, CharClass::Whitespace) == pos + 1,
        s[pos + 1] != '>',
        attribute_at(s, pos + 1) == Ok::<_, SyntaxErrorModel>(
            (attribute, pos + written_attribute(attribute).len()),
        ),
{
    let (name, value) = attribute;
    let a = seq![' '];
    let b = a + name;
    let c = b + seq!['=', '"'];
    let d = c + value;
    lemma_holds_at_split(s, pos, d, seq!['"']);
    lemma_holds_at_split(s, pos, c, value);
    lemma_holds_at_split(s, pos, b, seq!['=', '"']);
    lemma_holds_at_split(s, pos, a, name);
    lemma_holds_at_index(s, pos, a, 0);
    lemma_holds_at_index(s, pos + 1, name, 0);
    lemma_holds_at_index(s, pos + 1 + name.len(), seq!['=', '"'], 0);
    lemma_holds_at_index(s, pos + 1 + name.len(), seq!['=', '"'], 1);
    lemma_holds_at_index(s, pos + 3 + name.len() + value.len(), seq!['"'], 0);
    assert(is_alphanumeric(name[0]));
    lemma_run_over(s, pos, CharClass::Whitespace, a);
    lemma_run_over(s, pos + 1, CharClass::Alphanumeric, name);
    lemma_run_over(s, pos + 3 + name.len(), CharClass::Except('"'), value);
}

/// The attributes from the one at index `from` on, as they are written.
pub open spec fn written_attributes(attributes: Seq<(Seq<char>, Seq<char>)>, from: int) -> Seq<
    char,
>
    decreases attributes.len() - from,
{
    if 0 <= from < attributes.len() {
        written_attribute(attributes[from]) + written_attributes(attributes, from + 1)
    } else {
        Seq::empty()
    }
}

/// `acc` after the attributes from the one at index `from` on were put into
/// it, in their order.
pub open spec fn attributes_onto(
    acc: Map<Seq<char>, Seq<char>>,
    attributes: Seq<(Seq<char>, Seq<char>)>,
    from: int,
) -> Map<Seq<char>, Seq<char>>
    decreases attributes.len() - from,
{
    if 0 <= from < attributes.len() {
        attributes_onto(acc.insert(attributes[from].0, attributes[from].1), attributes, from + 1)
    } else {
        acc
    }
}

/// Written attributes read back, up to the `>` behind them.
pub proof fn lemma_attributes_read_back(
    s: Seq<char>,
    pos: int,
    attributes: Seq<(Seq<char>, Seq<char>)>,
    from: int,
    acc: Map<Seq<char>, Seq<char>>,
)
    requires
        0 <= from <= attributes.len(),
        forall|k: int|
            0 <= k < attributes.len() ==> is_writable_attribute(#[trigger] attributes[k]),
        holds_at(s, pos, written_attributes(attributes, from)),
        holds_at(s, pos + written_attributes(attributes, from).len(), seq!['>']),
    ensures
        attributes_from(s, pos, acc) == Ok::<_, SyntaxErrorModel>(
            (
                attributes_onto(acc, attributes, from),
                pos + written_attributes(attributes, from).len(),
            ),
        ),
    decreases attributes.len() - from,
{
    let rest = written_attributes(attributes, from);
    lemma_holds_at_index(s, pos + rest.len(), seq!['>'], 0);
    if from < attributes.len() {
        let first = written_attribute(attributes[from]);
        let others = written_attributes(attributes, from + 1);
        lemma_holds_at_split(s, pos, first, others);
        lemma_attribute_reads_back(s, pos, attributes[from]);
        lemma_attributes_read_back(
            s,
            pos + first.len(),
            attributes,
            from + 1,
            acc.insert(attributes[from].0, attributes[from].1),
        );
    } else {
        lemma_no_whitespace(s, pos);
    }
}

/// A document as it is written: text as it is; an element as its opening
/// tag with its attributes, its children one behind the other, and its
/// closing tag.
pub open spec fn written(markup: Markup) -> Seq<char>
    decreases markup, 0int,
{
    match markup {
        Markup::Text(text) => text,
        Markup::Element { tag, attributes, children } => seq!['<'] + tag + written_attributes(
            attributes,
            0,
        ) + seq!['>'] + written_children(children, 0) + closing_mark() + tag + seq!['>'],
    }
}

/// The children from the one at index `from` on, as they are written.
pub open spec fn written_children(children: Seq<Markup>, from: int) -> Seq<char>
    decreases children, children.len() - from,
{
    if 0 <= from < children.len() {
        written(children[from]) + written_children(children, from + 1)
    } else {
        Seq::empty()
    }
}

/// The tree that a written document stands for.
pub open spec fn tree_of(markup: Markup) -> Tree
    decreases markup,
{
    match markup {
        Markup::Text(text) => text_tree(text),
        Markup::Element { tag, attributes, children } => element_tree(
            tag,
            attributes_onto(Map::empty(), attributes, 0),
            Seq::new(
                children.len(),
                |i: int|
                    if 0 <= i < children.len() {
                        tree_of(children[i])
                    } else {
                        arbitrary()
                    },
            ),
        ),
    }
}

/// The trees that written documents stand for, one by one.
pub open spec fn trees_of(children: Seq<Markup>) -> Seq<Tree> {
    Seq::new(children.len(), |i: int| tree_of(children[i]))
}

/// Whether a document can be written so that reading gives it back. Text
/// is not empty, holds no `<` and does not start with whitespace. The tag
/// name of an element is a name, its attributes can be written, no two of
/// its children that follow each other are both text, and its children can
/// be written.
pub open spec fn is_writable(markup: Markup) -> bool
    decreases markup,
{
    match markup {
        Markup::Text(text) => {
            &&& text.len() > 0
            &&& !is_whitespace(text[0])
            &&& forall|k: int| 0 <= k < text.len() ==> (#[trigger] text[k]) != '<'
        },
        Markup::Element { tag, attributes, children } => {
            &&& is_name(tag)
            &&& forall|k: int|
                0 <= k < attributes.len() ==> is_writable_attribute(#[trigger] attributes[k])
            &&& forall|i: int| 0 <= i < children.len() ==> is_writable(#[trigger] children[i])
            &&& forall|i: int|
                0 <= i < children.len() - 1 ==> !((#[trigger] children[i]) is Text && children[i
                    + 1] is Text)
        },
    }
}

/// A written element starts with `<`, and no `/` follows that.
pub proof fn lemma_written_element_start(markup: Markup)
    requires
        markup is Element,
        is_writable(markup),
    ensures
        written(markup).len() >= 2,
        written(markup)[0] == '<',
        written(markup)[1] != '/',
        !is_whitespace(written(markup)[0]),
{
    let tag = markup->tag;
    let attributes = markup->attributes;
    let a = written_attributes(attributes, 0);
    let x1 = seq!['<'] + tag;
    let x2 = x1 + a;
    let x3 = x2 + seq!['>'];
    let x4 = x3 + written_children(markup->children, 0);
    let x5 = x4 + closing_mark();
    let x6 = x5 + tag;
    assert(written(markup) == x6 + seq!['>']);
    assert(x3.len() >= 2);
    assert(written(markup)[0] == x3[0]);
    assert(written(markup)[1] == x3[1]);
    if tag.len() > 0 {
        assert(x3[1] == tag[0]);
        assert(is_alphanumeric(tag[0]));
    } else if a.len() > 0 {
        assert(x3[1] == a[0]);
        assert(a[0] == written_attribute(attributes[0])[0]);
    } else {
        assert(x3[1] == '>');
    }
}

/// Written children read back, up to the `</` behind them.
pub proof fn lemma_children_read_back(
    s: Seq<char>,
    pos: int,
    children: Seq<Markup>,
    from: int,
    acc: Seq<Tree>,
)
    requires
        0 <= from <= children.len(),
        forall|i: int| 0 <= i < children.len() ==> is_writable(#[trigger] children[i]),
        forall|i: int|
            0 <= i < children.len() - 1 ==> !((#[trigger] children[i]) is Text && children[i
                + 1] is Text),
        holds_at(s, pos, written_children(children, from)),
        holds_at(s, pos + written_children(children, from).len(), closing_mark()),
    ensures
        nodes_from(s, pos, acc) == Ok::<_, SyntaxErrorModel>(
            (
                acc + trees_of(children).subrange(from, children.len() as int),
                pos + written_children(children, from).len(),
            ),
        ),
    decreases children, children.len() - from,
{
    let n = children.len() as int;
    let all = written_children(children, from);
    lemma_holds_at_index(s, pos + all.len(), closing_mark(), 0);
    lemma_holds_at_index(s, pos + all.len(), closing_mark(), 1);
    if from < n {
        let child = children[from];
        let first = written(child);
        let others = written_children(children, from + 1);
        lemma_holds_at_split(s, pos, first, others);
        assert(is_writable(child));
        let end = pos + first.len();
        assert(all.len() == first.len() + others.len());
        match child {
            Markup::Text(text) => {
                // Behind text stands an element or the closing tag: a `<`.
                assert(s[end] == '<') by {
                    if from + 1 < n {
                        let next = children[from + 1];
                        assert(is_writable(next));
                        assert(!(children[from] is Text && children[from + 1] is Text));
                        lemma_written_element_start(next);
                        lemma_holds_at_split(
                            s,
                            end,
                            written(next),
                            written_children(children, from + 2),
                        );
                        lemma_holds_at_index(s, end, written(next), 0);
                    }
                }
                lemma_holds_at_index(s, pos, text, 0);
                lemma_run_over(s, pos, CharClass::Except('<'), text);
            },
            Markup::Element { .. } => {
                lemma_written_element_start(child);
                lemma_holds_at_index(s, pos, first, 0);
                lemma_holds_at_index(s, pos, first, 1);
                lemma_element_reads_back(s, pos, child);
            },
        }
        lemma_no_whitespace(s, pos);
        assert(!holds_at(s, pos, closing_mark())) by {
            if holds_at(s, pos, closing_mark()) {
                lemma_holds_at_index(s, pos, closing_mark(), 0);
                lemma_holds_at_index(s, pos, closing_mark(), 1);
            }
        }
        assert(node_at(s, pos) == Ok::<_, SyntaxErrorModel>((tree_of(child), end)));
        lemma_children_read_back(s, end, children, from + 1, acc.push(tree_of(child)));
        assert(acc.push(tree_of(child)) + trees_of(children).subrange(from + 1, n) =~= acc
            + trees_of(children).subrange(from, n));
    } else {
        lemma_no_whitespace(s, pos);
        assert(acc + trees_of(children).subrange(from, n) =~= acc);
    }
}

/// A written element reads back.
pub proof fn lemma_element_reads_back(s: Seq<char>, pos: int, markup: Markup)
    requires
        markup is Element,
        is_writable(markup),
        holds_at(s, pos, written(markup)),
    ensures
        element_at(s, pos) == Ok::<_, SyntaxErrorModel>(
            (tree_of(markup), pos + written(markup).len()),
        ),
    decreases markup, 0int,
{
    let tag = markup->tag;
    let attributes = markup->attributes;
    let children = markup->children;
    let a = written_attributes(attributes, 0);
    let c = written_children(children, 0);
    let open = seq!['<'];
    let close = seq!['>'];
    let x1 = open + tag;
    let x2 = x1 + a;
    let x3 = x2 + close;
    let x4 = x3 + c;
    let x5 = x4 + closing_mark();
    let x6 = x5 + tag;
    assert(written(markup) == x6 + close);
    lemma_holds_at_split(s, pos, x6, close);
    lemma_holds_at_split(s, pos, x5, tag);
    lemma_holds_at_split(s, pos, x4, closing_mark());
    lemma_holds_at_split(s, pos, x3, c);
    lemma_holds_at_split(s, pos, x2, close);
    lemma_holds_at_split(s, pos, x1, a);
    lemma_holds_at_split(s, pos, open, tag);
    let name_end = pos + 1 + tag.len();
    let gt = name_end + a.len();
    let end_tag = gt + 1 + c.len();
    lemma_holds_at_index(s, pos, open, 0);
    lemma_holds_at_index(s, gt, close, 0);
    lemma_holds_at_index(s, end_tag, closing_mark(), 0);
    lemma_holds_at_index(s, end_tag, closing_mark(), 1);
    lemma_holds_at_index(s, end_tag + 2 + tag.len(), close, 0);
    // The tag name ends where the attributes, or the `>`, start.
    assert(!is_alphanumeric(s[name_end])) by {
        if a.len() > 0 {
            lemma_holds_at_index(s, name_end, a, 0);
            assert(a[0] == written_attribute(attributes[0])[0]);
        }
    }
    lemma_run_over(s, pos + 1, CharClass::Alphanumeric, tag);
    lemma_attributes_read_back(s, name_end, attributes, 0, Map::empty());
    lemma_children_read_back(s, gt + 1, children, 0, Seq::empty());
    lemma_run_over(s, end_tag + 2, CharClass::Alphanumeric, tag);
    assert(closing_tag_at(s, end_tag, tag) == Ok::<_, SyntaxErrorModel>(
        end_tag + 2 + tag.len() + 1,
    ));
    assert(Seq::<Tree>::empty() + trees_of(children).subrange(0, children.len() as int)
        =~= tree_of(markup).children);
}

/// Reading what was written gives back what was written: the text of an
/// element that can be written is a document, and the document is the tree
/// that the element stands for.
pub proof fn lemma_document_reads_back(markup: Markup)
    requires
        markup is Element,
        is_writable(markup),
    ensures
        document_of(written(markup)) == Ok::<_, SyntaxErrorModel>(tree_of(markup)),
{
    let s = written(markup);
    let n = s.len() as int;
    lemma_written_element_start(markup);
    assert(s.subrange(0, n) =~= s);
    lemma_element_reads_back(s, 0, markup);
    lemma_no_whitespace(s, 0);
    assert(!holds_at(s, 0, closing_mark())) by {
        if holds_at(s, 0, closing_mark()) {
            lemma_holds_at_index(s, 0, closing_mark(), 1);
        }
    }
    lemma_no_whitespace(s, n);
    let one = Seq::<Tree>::empty().push(tree_of(markup));
    assert(nodes_from(s, n, one) == Ok::<_, SyntaxErrorModel>((one, n)));
    assert(s[0] == '<');
    assert(node_at(s, 0) == Ok::<_, SyntaxErrorModel>((tree_of(markup), n)));
    assert(nodes_from(s, 0, Seq::empty()) == Ok::<_, SyntaxErrorModel>((one, n)));
}

} // verus!
