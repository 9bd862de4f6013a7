//! Style sheets: rules, selectors, declarations and values.

use vstd::prelude::*;

verus! {

/// How specific a selector is: the number of ids, of class names and of tag
/// names in it. Specificities are ordered as triples: ids count before
/// classes, classes before tags.
pub type Specificity = (usize, usize, usize);

/// A colour, by its red, green, blue and alpha parts.
#[derive(Clone, Copy, Debug, PartialEq, Eq)]
pub struct Color {
    pub r: u8,
    pub g: u8,
    pub b: u8,
    pub a: u8,
}

/// A unit of length.
#[derive(Clone, Copy, Debug, PartialEq, Eq)]
pub enum Unit {
    Px,
}

/// A decimal number as it was written: a sign, the digits before the point and
/// the digits after it.
#[derive(Debug, PartialEq, Eq)]
pub struct Number {
    pub negative: bool,
    pub whole: String,
    pub fraction: String,
}

/// The value of a declaration.
#[derive(Debug, PartialEq, Eq)]
pub enum Value {
    Keyword(String),
    Length(Number, Unit),
    ColorValue(Color),
}

/// A property name and the value given to it.
#[derive(Debug, PartialEq, Eq)]
pub struct Declaration {
    pub name: String,
    pub value: Value,
}

/// A selector that one element decides alone: an optional tag name, an
/// optional id, and class names. A class name that is written twice is held,
/// and counted, twice.
#[derive(Debug, PartialEq, Eq)]
pub struct SimpleSelector {
    pub tag_name: Option<String>,
    pub id: Option<String>,
    pub class: Vec<String>,
}

/// A selector.
#[derive(Debug, PartialEq, Eq)]
pub enum Selector {
    Simple(SimpleSelector),
}

/// Selectors and the declarations that hold of every element that one of
/// them matches.
#[derive(Debug, PartialEq, Eq)]
pub struct Rule {
    pub selectors: Vec<Selector>,
    pub declarations: Vec<Declaration>,
}

/// Rules, in the order in which they were written.
#[derive(Debug, PartialEq, Eq)]
pub struct Stylesheet {
    pub rules: Vec<Rule>,
}

/// The mathematical value of a `Number`.
pub ghost struct NumberModel {
    pub negative: bool,
    pub whole: Seq<char>,
    pub fraction: Seq<char>,
}

/// The mathematical value of a `Value`.
pub ghost enum ValueModel {
    Keyword(Seq<char>),
    Length(NumberModel, Unit),
    ColorValue(Color),
}

/// The mathematical value of a `Declaration`.
pub ghost struct DeclarationModel {
    pub name: Seq<char>,
    pub value: ValueModel,
}

/// The mathematical value of a `SimpleSelector`.
pub ghost struct SimpleModel {
    pub tag_name: Option<Seq<char>>,
    pub id: Option<Seq<char>>,
    pub class: Seq<Seq<char>>,
}

/// The mathematical value of a `Selector`.
pub ghost enum SelectorModel {
    Simple(SimpleModel),
}

/// The mathematical value of a `Rule`.
pub ghost struct RuleModel {
    pub selectors: Seq<SelectorModel>,
    pub declarations: Seq<DeclarationModel>,
}

/// The mathematical value of a `Stylesheet`.
pub ghost struct SheetModel {
    pub rules: Seq<RuleModel>,
}

impl View for Number {
    type V = NumberModel;

    open spec fn view(&self) -> NumberModel {
        NumberModel { negative: self.negative, whole: self.whole@, fraction: self.fraction@ }
    }
}

impl View for Value {
    type V = ValueModel;

    open spec fn view(&self) -> ValueModel {
        match self {
            Value::Keyword(k) => ValueModel::Keyword(k@),
            Value::Length(n, u) => ValueModel::Length(n@, *u),
            Value::ColorValue(c) => ValueModel::ColorValue(*c),
        }
    }
}

impl View for Declaration {
    type V = DeclarationModel;

    open spec fn view(&self) -> DeclarationModel {
        DeclarationModel { name: self.name@, value: self.value@ }
    }
}

/// The text of an optional string.
pub open spec fn optional_text(s: Option<String>) -> Option<Seq<char>> {
    match s {
        Some(s) => Some(s@),
        None => None,
    }
}

/// The values of a sequence, one by one.
pub open spec fn views<T: View>(items: Seq<T>) -> Seq<T::V> {
    Seq::new(items.len(), |i: int| items[i]@)
}

/// Appending an item appends its value.
pub proof fn lemma_views_push<T: View>(items: Seq<T>, item: T)
    ensures
        views(items.push(item)) == views(items).push(item@),
{
    assert(views(items.push(item)) =~= views(items).push(item@));
}

impl View for SimpleSelector {
    type V = SimpleModel;

    open spec fn view(&self) -> SimpleModel {
        SimpleModel {
            tag_name: optional_text(self.tag_name),
            id: optional_text(self.id),
            class: views(self.class@),
        }
    }
}

impl View for Selector {
    type V = SelectorModel;

    open spec fn view(&self) -> SelectorModel {
        match self {
            Selector::Simple(s) => SelectorModel::Simple(s@),
        }
    }
}

impl View for Rule {
    type V = RuleModel;

    open spec fn view(&self) -> RuleModel {
        RuleModel { selectors: views(self.selectors@), declarations: views(self.declarations@) }
    }
}

impl View for Stylesheet {
    type V = SheetModel;

    open spec fn view(&self) -> SheetModel {
        SheetModel { rules: views(self.rules@) }
    }
}

/// Whether `a` is higher than `b`: more ids; or as many ids and more
/// classes; or as many of both and more tags.
pub open spec fn higher(a: Specificity, b: Specificity) -> bool {
    ||| a.0 > b.0
    ||| a.0 == b.0 && a.1 > b.1
    ||| a.0 == b.0 && a.1 == b.1 && a.2 > b.2
}

/// Whether `a` is higher than `b`.
pub fn is_higher(a: Specificity, b: Specificity) -> (r: bool)
    ensures
        r == higher(a, b),
{
    a.0 > b.0 || (a.0 == b.0 && a.1 > b.1) || (a.0 == b.0 && a.1 == b.1 && a.2 > b.2)
}

/// One id outranks any number of classes and tags.
pub proof fn lemma_id_outranks(a: Specificity, b: Specificity)
    requires
        a.0 > b.0,
    ensures
        higher(a, b),
{
}

/// With as many ids, one class more outranks any number of tags.
pub proof fn lemma_class_outranks(a: Specificity, b: Specificity)
    requires
        a.0 == b.0,
        a.1 > b.1,
    ensures
        higher(a, b),
{
}

/// `higher` is a strict total order: nothing is higher than itself, of two
/// different specificities exactly one is the higher, and higher than higher
/// is higher.
pub proof fn lemma_higher_is_total_order(a: Specificity, b: Specificity, c: Specificity)
    ensures
        !higher(a, a),
        a != b ==> (higher(a, b) <==> !higher(b, a)),
        higher(a, b) && higher(b, c) ==> higher(a, c),
{
}

/// The specificity of a selector: one for an id, the number of class names,
/// one for a tag name.
pub open spec fn specificity_of(selector: SelectorModel) -> Specificity {
    match selector {
        SelectorModel::Simple(simple) => (
            if simple.id is Some {
                1usize
            } else {
                0usize
            },
            simple.class.len() as usize,
            if simple.tag_name is Some {
                1usize
            } else {
                0usize
            },
        ),
    }
}

impl Selector {
    /// The selector's specificity.
    pub fn specificity(&self) -> (r: Specificity)
        ensures
            r == specificity_of(self@),
    {
        match self {
            Selector::Simple(simple) => {
                let a: usize = if simple.id.is_some() {
                    1
                } else {
                    0
                };
                let b: usize = simple.class.len();
                let c: usize = if simple.tag_name.is_some() {
                    1
                } else {
                    0
                };
                (a, b, c)
            },
        }
    }
}

impl Clone for Number {
    fn clone(&self) -> (r: Number)
        ensures
            r@ == self@,
    {
        Number {
            negative: self.negative,
            whole: self.whole.clone(),
            fraction: self.fraction.clone(),
        }
    }
}

impl Clone for Value {
    fn clone(&self) -> (r: Value)
        ensures
            r@ == self@,
    {
        match self {
            Value::Keyword(k) => Value::Keyword(k.clone()),
            Value::Length(n, u) => Value::Length(n.clone(), *u),
            Value::ColorValue(c) => Value::ColorValue(*c),
        }
    }
}

} // verus!
