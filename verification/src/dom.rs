//! The document tree: elements and text.

use vstd::prelude::*;
use vstd::hash_map::StringHashMap;
use vstd::hash_set::StringHashSet;

verus! {

/// The attributes of an element, by name. A name occurs once; no order is kept.
pub type AttrMap = StringHashMap<String>;

/// A tag name and the attributes that the opening tag carried.
pub struct ElementData {
    pub tag_name: String,
    pub attributes: AttrMap,
}

/// What a node is: an element or a run of text.
pub enum NodeType {
    Element(ElementData),
    Text(String),
}

/// A node of the document tree. It owns its children, in document order.
pub struct Node {
    pub children: Vec<Node>,
    pub node_type: NodeType,
}

/// The mathematical value of an `ElementData`.
pub ghost struct ElementModel {
    pub tag_name: Seq<char>,
    pub attributes: Map<Seq<char>, Seq<char>>,
}

/// The mathematical value of a `NodeType`.
pub ghost enum NodeKind {
    Element(ElementModel),
    Text(Seq<char>),
}

/// The mathematical value of a `Node`.
pub ghost struct Tree {
    pub children: Seq<Tree>,
    pub kind: NodeKind,
}

/// The mathematical value of an attribute map.
pub open spec fn attributes_model(attributes: Map<Seq<char>, String>) -> Map<
    Seq<char>,
    Seq<char>,
> {
    attributes.map_values(|v: String| v@)
}

/// Inserting a pair and then taking the values' views is taking the views
/// and then inserting the pair's.
pub proof fn lemma_attributes_insert(attributes: Map<Seq<char>, String>, name: Seq<char>, value: String)
    ensures
        attributes_model(attributes.insert(name, value)) == attributes_model(attributes).insert(
            name,
            value@,
        ),
{
    assert(attributes_model(attributes.insert(name, value)) =~= attributes_model(attributes).insert(
        name,
        value@,
    ));
}

impl View for ElementData {
    type V = ElementModel;

    open spec fn view(&self) -> ElementModel {
        ElementModel {
            tag_name: self.tag_name@,
            attributes: attributes_model(self.attributes@),
        }
    }
}

impl View for NodeType {
    type V = NodeKind;

    open spec fn view(&self) -> NodeKind {
        match self {
            NodeType::Element(e) => NodeKind::Element(e@),
            NodeType::Text(t) => NodeKind::Text(t@),
        }
    }
}

impl Node {
    /// The value of the node: its kind, and the values of its children.
    pub open spec fn model(&self) -> Tree
        decreases self,
    {
        Tree {
            children: Seq::new(
                self.children@.len(),
                |i: int|
                    if 0 <= i < self.children@.len() {
                        self.children@[i].model()
                    } else {
                        arbitrary()
                    },
            ),
            kind: self.node_type@,
        }
    }
}

impl View for Node {
    type V = Tree;

    open spec fn view(&self) -> Tree {
        self.model()
    }
}

/// The values of a sequence of nodes, one by one.
pub open spec fn trees(nodes: Seq<Node>) -> Seq<Tree> {
    Seq::new(nodes.len(), |i: int| nodes[i]@)
}

/// The children of a node's value are the values of its children.
pub proof fn lemma_children_view(node: Node)
    ensures
        node@.children == trees(node.children@),
{
    assert(node@.children.len() == node.children@.len());
    assert forall|i: int| 0 <= i < node.children@.len() implies node@.children[i] == trees(
        node.children@,
    )[i] by {
        assert(node@.children[i] == node.children@[i]@);
    }
    assert(node@.children =~= trees(node.children@));
}

/// Appending a node appends its value.
pub proof fn lemma_trees_push(nodes: Seq<Node>, node: Node)
    ensures
        trees(nodes.push(node)) == trees(nodes).push(node@),
{
    assert(trees(nodes.push(node)) =~= trees(nodes).push(node@));
}

/// A text node without children.
pub open spec fn text_tree(data: Seq<char>) -> Tree {
    Tree { children: Seq::empty(), kind: NodeKind::Text(data) }
}

/// An element with the given name, attributes and children.
pub open spec fn element_tree(
    name: Seq<char>,
    attributes: Map<Seq<char>, Seq<char>>,
    children: Seq<Tree>,
) -> Tree {
    Tree { children, kind: NodeKind::Element(ElementModel { tag_name: name, attributes }) }
}

/// The number of nodes in a tree.
pub open spec fn node_count(tree: Tree) -> nat
    decreases tree,
{
    1 + forest_count(tree.children, tree.children.len())
}

/// The number of nodes in the first `n` trees of `trees`.
pub open spec fn forest_count(trees: Seq<Tree>, n: nat) -> nat
    decreases trees, n,
{
    if n == 0 || n > trees.len() {
        0
    } else {
        forest_count(trees, (n - 1) as nat) + node_count(trees[n - 1])
    }
}

/// The name of the attribute that holds an element's id.
pub open spec fn id_name() -> Seq<char> {
    seq!['i', 'd']
}

/// The name of the attribute that holds an element's classes.
pub open spec fn class_name() -> Seq<char> {
    seq!['c', 'l', 'a', 's', 's']
}

/// The id of an element: the value of its attribute `id`, if it has one.
pub open spec fn element_id(e: ElementModel) -> Option<Seq<char>> {
    if e.attributes.contains_key(id_name()) {
        Some(e.attributes[id_name()])
    } else {
        None
    }
}

/// Whether `s[start..end]` is one of the pieces into which the single spaces
/// of `s` divide it: it holds no space, and a space or an end of `s` stands
/// on either side.
pub open spec fn is_piece(s: Seq<char>, start: int, end: int) -> bool {
    &&& 0 <= start <= end <= s.len()
    &&& start == 0 || s[start - 1] == ' '
    &&& end == s.len() || s[end] == ' '
    &&& forall|k: int| start <= k < end ==> s[k] != ' '
}

/// The pieces into which the single spaces of `s` divide it. Two spaces in a
/// row, a space at either end, and the empty text each give the empty piece.
pub open spec fn space_separated(s: Seq<char>) -> Set<Seq<char>> {
    Set::new(|w: Seq<char>| exists|a: int, b: int| is_piece(s, a, b) && w == s.subrange(a, b))
}

/// The classes of an element: the pieces of its attribute `class`; none
/// where it has no such attribute.
pub open spec fn element_classes(e: ElementModel) -> Set<Seq<char>> {
    if e.attributes.contains_key(class_name()) {
        space_separated(e.attributes[class_name()])
    } else {
        Set::empty()
    }
}

/// A text node.
pub fn text(data: String) -> (node: Node)
    ensures
        node@ == text_tree(data@),
{
    let node = Node { children: Vec::new(), node_type: NodeType::Text(data) };
    assert(node@.children =~= Seq::empty());
    node
}

/// An element node.
pub fn elem(name: String, attrs: AttrMap, children: Vec<Node>) -> (node: Node)
    ensures
        node@ == element_tree(name@, attributes_model(attrs@), trees(children@)),
{
    let node = Node {
        children: children,
        node_type: NodeType::Element(ElementData { tag_name: name, attributes: attrs }),
    };
    assert(node@.children =~= trees(node.children@));
    node
}

/// The pieces of `s`, as `space_separated` defines them.
pub fn split_on_spaces(s: &str) -> (pieces: StringHashSet)
    ensures
        pieces@ == space_separated(s@),
{
    let mut pieces = StringHashSet::new();
    let mut current = String::new();
    let ghost mut start: int = 0;
    for c in it: s.chars()
        invariant
            it.seq() == s@,
            0 <= start <= it.index(),
            start == 0 || s@[start - 1] == ' ',
            forall|k: int| start <= k < it.index() ==> s@[k] != ' ',
            current@ == s@.subrange(start, it.index() as int),
            forall|w: Seq<char>|
                pieces@.contains(w) <==> exists|a: int, b: int|
                    is_piece(s@, a, b) && b < start && w == s@.subrange(a, b),
    {
        let ghost i = it.index() as int;
        if c == ' ' {
            proof {
                assert(is_piece(s@, start, i));
                assert forall|a: int, b: int| is_piece(s@, a, b) && start <= b < i + 1 implies a
                    == start && b == i by {
                    if b < i {
                        assert(s@[b] == ' ');
                    }
                    if a < start {
                        assert(s@[start - 1] == ' ');
                    }
                    if a > start {
                        assert(s@[a - 1] == ' ');
                    }
                }
            }
            pieces.insert(current);
            current = String::new();
            proof {
                start = i + 1;
                assert(current@ =~= s@.subrange(start, i + 1));
            }
        } else {
            current.push(c);
            proof {
                assert(current@ =~= s@.subrange(start, i + 1));
            }
        }
    }
    proof {
        let n = s@.len() as int;
        assert(is_piece(s@, start, n));
        assert forall|a: int, b: int| is_piece(s@, a, b) && start <= b implies a == start && b
            == n by {
            if b < n {
                assert(s@[b] == ' ');
            }
            if a < start {
                assert(s@[start - 1] == ' ');
            }
            if a > start {
                assert(s@[a - 1] == ' ');
            }
        }
    }
    pieces.insert(current);
    assert(pieces@ =~= space_separated(s@));
    pieces
}

impl ElementData {
    /// The element's id.
    pub fn id(&self) -> (r: Option<&String>)
        ensures
            match r {
                Some(v) => element_id(self@) == Some(v@),
                None => element_id(self@) is None,
            },
    {
        proof {
            reveal_strlit("id");
            assert("id"@ =~= id_name());
        }
        self.attributes.get("id")
    }

    /// The element's classes.
    pub fn classes(&self) -> (r: StringHashSet)
        ensures
            r@ == element_classes(self@),
    {
        proof {
            reveal_strlit("class");
            assert("class"@ =~= class_name());
        }
        match self.attributes.get("class") {
            Some(classlist) => split_on_spaces(classlist.as_str()),
            None => StringHashSet::new(),
        }
    }
}

} // verus!
