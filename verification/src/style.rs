//! Matching selectors against elements, and the cascade: which declarations
//! hold of an element, and which of them prevail.

use vstd::prelude::*;
use vstd::hash_map::StringHashMap;
use crate::css::highest_first;
use crate::dom::{
    element_classes, element_id, lemma_children_view, ElementData, ElementModel, Node, NodeKind,
    NodeType, Tree,
};
use crate::order::{
    arranged, comes_before, lemma_stable_order, lists,
    sort_by_specificity, stable_order,
};
use crate::stylesheet::{
    higher, specificity_of, views, DeclarationModel, Rule, RuleModel, Selector,
    SelectorModel, SheetModel, SimpleModel, SimpleSelector, Specificity, Stylesheet, Value,
    ValueModel,
};

verus! {

/// The properties of a node, by name.
pub type PropertyMap = StringHashMap<Value>;

/// A rule together with the specificity with which it holds of an element.
pub type MatchedRule<'a> = (Specificity, &'a Rule);

/// Whether a simple selector matches an element: the tag name, if the
/// selector has one, is the element's; the id, if it has one, is the
/// element's; and each of its classes is among the element's.
pub open spec fn matches_simple(elem: ElementModel, selector: SimpleModel) -> bool {
    &&& selector.tag_name matches Some(name) ==> elem.tag_name == name
    &&& selector.id matches Some(id) ==> element_id(elem) == Some(id)
    &&& forall|k: int|
        0 <= k < selector.class.len() ==> element_classes(elem).contains(
            #[trigger] selector.class[k],
        )
}

/// Whether a selector matches an element.
pub open spec fn selector_matches(elem: ElementModel, selector: SelectorModel) -> bool {
    match selector {
        SelectorModel::Simple(simple) => matches_simple(elem, simple),
    }
}

/// The index of the first selector from `from` on that matches the element.
pub open spec fn first_match(elem: ElementModel, selectors: Seq<SelectorModel>, from: int) -> Option<
    int,
>
    decreases selectors.len() - from,
{
    if !(0 <= from < selectors.len()) {
        None
    } else if selector_matches(elem, selectors[from]) {
        Some(from)
    } else {
        first_match(elem, selectors, from + 1)
    }
}

/// The specificity with which a rule holds of an element: that of the first
/// of its selectors that matches the element. `None` where none of them does.
pub open spec fn rule_rank(elem: ElementModel, rule: RuleModel) -> Option<Specificity> {
    match first_match(elem, rule.selectors, 0) {
        Some(k) => Some(specificity_of(rule.selectors[k])),
        None => None,
    }
}

/// `first_match` gives a selector that matches, with none before it that
/// does; it gives none only where no selector matches.
pub proof fn lemma_first_match(elem: ElementModel, selectors: Seq<SelectorModel>, from: int)
    requires
        0 <= from,
    ensures
        match first_match(elem, selectors, from) {
            Some(k) => {
                &&& from <= k < selectors.len()
                &&& selector_matches(elem, selectors[k])
                &&& forall|j: int| from <= j < k ==> !selector_matches(elem, selectors[j])
            },
            None => forall|j: int|
                from <= j < selectors.len() ==> !selector_matches(elem, selectors[j]),
        },
    decreases selectors.len() - from,
{
    if from < selectors.len() && !selector_matches(elem, selectors[from]) {
        lemma_first_match(elem, selectors, from + 1);
    }
}

/// Where a rule holds its selectors from the highest specificity to the
/// lowest, the specificity with which it holds of an element is the highest
/// among its selectors that match the element.
pub proof fn lemma_rank_is_highest(elem: ElementModel, rule: RuleModel, k: int)
    requires
        highest_first(rule.selectors),
        0 <= k < rule.selectors.len(),
        selector_matches(elem, rule.selectors[k]),
    ensures
        rule_rank(elem, rule) is Some,
        !higher(specificity_of(rule.selectors[k]), rule_rank(elem, rule)->0),
{
    lemma_first_match(elem, rule.selectors, 0);
}

/// Whether `selector` matches `elem`.
pub fn matches_simple_selector(elem: &ElementData, selector: &SimpleSelector) -> (r: bool)
    ensures
        r == matches_simple(elem@, selector@),
{
    match &selector.tag_name {
        Some(name) => {
            if !(elem.tag_name == *name) {
                return false;
            }
        },
        None => {},
    }
    match &selector.id {
        Some(id) => {
            match elem.id() {
                Some(value) => {
                    if !(*value == *id) {
                        return false;
                    }
                },
                None => {
                    return false;
                },
            }
        },
        None => {},
    }
    let elem_classes = elem.classes();
    let mut k: usize = 0;
    while k < selector.class.len()
        invariant
            k <= selector.class.len(),
            elem_classes@ == element_classes(elem@),
            forall|j: int|
                0 <= j < k ==> element_classes(elem@).contains(#[trigger] selector@.class[j]),
        decreases selector.class.len() - k,
    {
        if !elem_classes.contains(selector.class[k].as_str()) {
            assert(selector@.class[k as int] == selector.class@[k as int]@);
            return false;
        }
        assert(selector@.class[k as int] == selector.class@[k as int]@);
        k += 1;
    }
    true
}

/// Whether `selector` matches `elem`.
pub fn matches(elem: &ElementData, selector: &Selector) -> (r: bool)
    ensures
        r == selector_matches(elem@, selector@),
{
    match selector {
        Selector::Simple(simple_selector) => matches_simple_selector(elem, simple_selector),
    }
}

/// If `rule` holds of `elem`, the rule with the specificity of its first
/// selector that matches.
pub fn match_rule<'a>(elem: &ElementData, rule: &'a Rule) -> (r: Option<MatchedRule<'a>>)
    ensures
        match r {
            Some((specificity, matched)) => {
                &&& *matched == *rule
                &&& rule_rank(elem@, rule@) == Some(specificity)
            },
            None => rule_rank(elem@, rule@) is None,
        },
{
    let mut k: usize = 0;
    while k < rule.selectors.len()
        invariant
            k <= rule.selectors.len(),
            first_match(elem@, rule@.selectors, 0) == first_match(elem@, rule@.selectors, k as int),
        decreases rule.selectors.len() - k,
    {
        assert(rule@.selectors[k as int] == rule.selectors@[k as int]@);
        if matches(elem, &rule.selectors[k]) {
            return Some((rule.selectors[k].specificity(), rule));
        }
        k += 1;
    }
    None
}

/// The indices of the rules among the first `n` that hold of the element,
/// in rising order.
pub open spec fn candidates(elem: ElementModel, sheet: SheetModel, n: nat) -> Seq<int>
    decreases n,
{
    if n == 0 {
        Seq::empty()
    } else if rule_rank(elem, sheet.rules[n - 1]) is Some {
        candidates(elem, sheet, (n - 1) as nat).push(n - 1)
    } else {
        candidates(elem, sheet, (n - 1) as nat)
    }
}

/// `candidates` lists the rules that hold of the element, each once and in
/// rising order, and no others.
pub proof fn lemma_candidates(elem: ElementModel, sheet: SheetModel, n: nat)
    requires
        n <= sheet.rules.len(),
    ensures
        forall|k: int|
            0 <= k < candidates(elem, sheet, n).len() ==> {
                &&& 0 <= #[trigger] candidates(elem, sheet, n)[k] < n
                &&& rule_rank(elem, sheet.rules[candidates(elem, sheet, n)[k]]) is Some
            },
        forall|a: int, b: int|
            0 <= a < b < candidates(elem, sheet, n).len() ==> candidates(elem, sheet, n)[a]
                < candidates(elem, sheet, n)[b],
        forall|i: int|
            0 <= i < n && rule_rank(elem, sheet.rules[i]) is Some ==> #[trigger] lists(
                candidates(elem, sheet, n),
                i,
            ),
    decreases n,
{
    if n > 0 {
        lemma_candidates(elem, sheet, (n - 1) as nat);
        let before = candidates(elem, sheet, (n - 1) as nat);
        let now = candidates(elem, sheet, n);
        assert forall|i: int| 0 <= i < n && rule_rank(elem, sheet.rules[i]) is Some implies lists(
            now,
            i,
        ) by {
            if i < n - 1 {
                assert(lists(before, i));
                let a = choose|a: int| 0 <= a < before.len() && before[a] == i;
                assert(now[a] == i);
            } else {
                assert(now[now.len() - 1] == i);
            }
        }
    }
}

/// Whether `matched` is the rule at index `i` of `rules`, with the
/// specificity with which that rule holds of `elem`.
pub open spec fn is_candidate(
    matched: MatchedRule,
    elem: ElementModel,
    rules: Seq<Rule>,
    i: int,
) -> bool {
    &&& 0 <= i < rules.len()
    &&& *matched.1 == rules[i]
    &&& rule_rank(elem, rules[i]@) == Some(matched.0)
}

/// The rules of `stylesheet` that hold of `elem`, in the order of the sheet,
/// each with the specificity with which it holds.
pub fn matching_rules<'a>(elem: &ElementData, stylesheet: &'a Stylesheet) -> (r: Vec<
    MatchedRule<'a>,
>)
    ensures
        r@.len() == candidates(elem@, stylesheet@, stylesheet@.rules.len()).len(),
        forall|k: int|
            0 <= k < r@.len() ==> is_candidate(
                #[trigger] r@[k],
                elem@,
                stylesheet.rules@,
                candidates(elem@, stylesheet@, stylesheet@.rules.len())[k],
            ),
{
    let mut found: Vec<MatchedRule<'a>> = Vec::new();
    let mut n: usize = 0;
    while n < stylesheet.rules.len()
        invariant
            n <= stylesheet.rules.len(),
            stylesheet@.rules.len() == stylesheet.rules@.len(),
            found@.len() == candidates(elem@, stylesheet@, n as nat).len(),
            forall|k: int|
                0 <= k < found@.len() ==> is_candidate(
                    #[trigger] found@[k],
                    elem@,
                    stylesheet.rules@,
                    candidates(elem@, stylesheet@, n as nat)[k],
                ),
        decreases stylesheet.rules.len() - n,
    {
        assert(stylesheet@.rules[n as int] == stylesheet.rules@[n as int]@);
        let ghost before = candidates(elem@, stylesheet@, n as nat);
        let ghost found_before = found@;
        match match_rule(elem, &stylesheet.rules[n]) {
            Some(matched) => {
                found.push(matched);
            },
            None => {},
        }
        proof {
            let now = candidates(elem@, stylesheet@, (n + 1) as nat);
            assert(found@.len() == now.len());
            assert forall|k: int| 0 <= k < found@.len() implies is_candidate(
                #[trigger] found@[k],
                elem@,
                stylesheet.rules@,
                now[k],
            ) by {
                if k < before.len() {
                    assert(now[k] == before[k]);
                    assert(found@[k] == found_before[k]);
                } else {
                    assert(now[k] == n);
                }
            }
        }
        n += 1;
    }
    found
}

/// The mathematical value of a property map.
pub open spec fn properties_model(properties: Map<Seq<char>, Value>) -> Map<
    Seq<char>,
    ValueModel,
> {
    properties.map_values(|v: Value| v@)
}

/// Inserting a pair and then taking the values' views is taking the views
/// and then inserting the pair's.
pub proof fn lemma_properties_insert(properties: Map<Seq<char>, Value>, name: Seq<char>, value: Value)
    ensures
        properties_model(properties.insert(name, value)) == properties_model(properties).insert(
            name,
            value@,
        ),
{
    assert(properties_model(properties.insert(name, value)) =~= properties_model(
        properties,
    ).insert(name, value@));
}

/// `start` after the first `n` of `declarations` were written into it, one
/// after the other.
pub open spec fn apply_declarations(
    declarations: Seq<DeclarationModel>,
    n: nat,
    start: Map<Seq<char>, ValueModel>,
) -> Map<Seq<char>, ValueModel>
    decreases n,
{
    if n == 0 {
        start
    } else {
        apply_declarations(declarations, (n - 1) as nat, start).insert(
            declarations[n - 1].name,
            declarations[n - 1].value,
        )
    }
}

/// `start` after the declarations of the first `n` rules that `order` lists
/// were written into it, rule after rule.
pub open spec fn apply_rules(
    sheet: SheetModel,
    order: Seq<int>,
    n: nat,
    start: Map<Seq<char>, ValueModel>,
) -> Map<Seq<char>, ValueModel>
    decreases n,
{
    if n == 0 {
        start
    } else {
        let declarations = sheet.rules[order[n - 1]].declarations;
        apply_declarations(
            declarations,
            declarations.len(),
            apply_rules(sheet, order, (n - 1) as nat, start),
        )
    }
}

/// The specificities with which the rules at the indices `indices` hold of
/// the element.
pub open spec fn ranks(elem: ElementModel, sheet: SheetModel, indices: Seq<int>) -> Seq<
    Specificity,
> {
    Seq::new(indices.len(), |k: int| rule_rank(elem, sheet.rules[indices[k]])->Some_0)
}

/// The indices of the rules that hold of the element, in the order in which
/// the cascade applies them: from the lowest specificity to the highest, and
/// in the order of the sheet where the specificity is the same.
pub open spec fn application_order(elem: ElementModel, sheet: SheetModel) -> Seq<int> {
    let found = candidates(elem, sheet, sheet.rules.len());
    arranged(found, stable_order(ranks(elem, sheet, found), found.len(), false))
}

/// The properties of an element under a style sheet: the declarations of
/// every rule that holds of the element, written into one map in the order
/// of `application_order`, each rule's in the order in which they stand. A
/// later declaration of a property replaces an earlier one.
/// `lemma_cascade_prevails` says which declaration that leaves in place.
pub open spec fn cascade(elem: ElementModel, sheet: SheetModel) -> Map<Seq<char>, ValueModel> {
    let order = application_order(elem, sheet);
    apply_rules(sheet, order, order.len(), Map::empty())
}

/// Whether declaration `j` of rule `i` is one that holds of the element
/// and speaks of the property `name`.
pub open spec fn declares(
    elem: ElementModel,
    sheet: SheetModel,
    name: Seq<char>,
    i: int,
    j: int,
) -> bool {
    &&& 0 <= i < sheet.rules.len()
    &&& 0 <= j < sheet.rules[i].declarations.len()
    &&& rule_rank(elem, sheet.rules[i]) is Some
    &&& sheet.rules[i].declarations[j].name == name
}

/// Whether declaration `j2` of rule `i2` gives way to declaration `j` of
/// rule `i`: its rule holds of the element with a lower specificity; or with
/// the same, and stands earlier in the sheet; or it is the same rule, and the
/// declaration stands no later in it.
pub open spec fn gives_way(
    elem: ElementModel,
    sheet: SheetModel,
    i2: int,
    j2: int,
    i: int,
    j: int,
) -> bool {
    let r2 = rule_rank(elem, sheet.rules[i2])->Some_0;
    let r = rule_rank(elem, sheet.rules[i])->Some_0;
    higher(r, r2) || (r == r2 && (i2 < i || (i2 == i && j2 <= j)))
}

/// Whether declaration `j` of rule `i` prevails for the property `name`: it
/// is one that holds of the element and speaks of `name`, and every such
/// declaration gives way to it.
pub open spec fn prevails(
    elem: ElementModel,
    sheet: SheetModel,
    name: Seq<char>,
    i: int,
    j: int,
) -> bool {
    &&& declares(elem, sheet, name, i, j)
    &&& forall|i2: int, j2: int| #[trigger]
        declares(elem, sheet, name, i2, j2) ==> gives_way(elem, sheet, i2, j2, i, j)
}

/// The index of the last of the first `n` declarations that speaks of
/// `name`; -1 where none does.
pub open spec fn last_named(declarations: Seq<DeclarationModel>, n: nat, name: Seq<char>) -> int
    decreases n,
{
    if n == 0 {
        -1
    } else if declarations[n - 1].name == name {
        n - 1
    } else {
        last_named(declarations, (n - 1) as nat, name)
    }
}

/// What `last_named` finds, and what writing the declarations leaves in the
/// map for `name`: the value of the last declaration that speaks of it, or
/// what was there before.
pub proof fn lemma_apply_declarations(
    declarations: Seq<DeclarationModel>,
    n: nat,
    start: Map<Seq<char>, ValueModel>,
    name: Seq<char>,
)
    requires
        n <= declarations.len(),
    ensures
        -1 <= last_named(declarations, n, name) < n,
        forall|j: int|
            last_named(declarations, n, name) < j < n ==> (#[trigger] declarations[j]).name
                != name,
        last_named(declarations, n, name) >= 0 ==> {
            let j = last_named(declarations, n, name);
            &&& declarations[j].name == name
            &&& apply_declarations(declarations, n, start).contains_key(name)
            &&& apply_declarations(declarations, n, start)[name] == declarations[j].value
        },
        last_named(declarations, n, name) < 0 ==> {
            &&& apply_declarations(declarations, n, start).contains_key(name)
                == start.contains_key(name)
            &&& apply_declarations(declarations, n, start)[name] == start[name]
        },
    decreases n,
{
    if n > 0 {
        lemma_apply_declarations(declarations, (n - 1) as nat, start, name);
    }
}

/// The place in `order`, among the first `n`, of the last rule that has a
/// declaration that speaks of `name`; -1 where none has.
pub open spec fn last_declaring(sheet: SheetModel, order: Seq<int>, n: nat, name: Seq<char>) -> int
    decreases n,
{
    if n == 0 {
        -1
    } else {
        let declarations = sheet.rules[order[n - 1]].declarations;
        if last_named(declarations, declarations.len(), name) >= 0 {
            n - 1
        } else {
            last_declaring(sheet, order, (n - 1) as nat, name)
        }
    }
}

/// What `last_declaring` finds, and what writing the rules' declarations
/// leaves in an empty map for `name`: the value of the last declaration of
/// the last rule that speaks of it, or nothing.
pub proof fn lemma_apply_rules(sheet: SheetModel, order: Seq<int>, n: nat, name: Seq<char>)
    requires
        n <= order.len(),
    ensures
        -1 <= last_declaring(sheet, order, n, name) < n,
        forall|a: int|
            last_declaring(sheet, order, n, name) < a < n ==> last_named(
                sheet.rules[#[trigger] order[a]].declarations,
                sheet.rules[order[a]].declarations.len(),
                name,
            ) < 0,
        last_declaring(sheet, order, n, name) >= 0 ==> {
            let declarations = sheet.rules[order[last_declaring(
                sheet,
                order,
                n,
                name,
            )]].declarations;
            let j = last_named(declarations, declarations.len(), name);
            &&& j >= 0
            &&& apply_rules(sheet, order, n, Map::empty()).contains_key(name)
            &&& apply_rules(sheet, order, n, Map::empty())[name] == declarations[j].value
        },
        last_declaring(sheet, order, n, name) < 0 ==> !apply_rules(
            sheet,
            order,
            n,
            Map::empty(),
        ).contains_key(name),
    decreases n,
{
    if n > 0 {
        lemma_apply_rules(sheet, order, (n - 1) as nat, name);
        let declarations = sheet.rules[order[n - 1]].declarations;
        lemma_apply_declarations(
            declarations,
            declarations.len(),
            apply_rules(sheet, order, (n - 1) as nat, Map::empty()),
            name,
        );
    }
}

/// The order in which the cascade applies rules: it lists the rules that
/// hold of the element, each once and no others, and each stands before the
/// ones of higher specificity and, where the specificity is the same, before
/// the ones that stand later in the sheet.
pub proof fn lemma_application_order(elem: ElementModel, sheet: SheetModel)
    ensures
        forall|a: int|
            0 <= a < application_order(elem, sheet).len() ==> {
                &&& 0 <= #[trigger] application_order(elem, sheet)[a] < sheet.rules.len()
                &&& rule_rank(elem, sheet.rules[application_order(elem, sheet)[a]]) is Some
            },
        forall|i: int|
            0 <= i < sheet.rules.len() && rule_rank(elem, sheet.rules[i]) is Some
                ==> #[trigger] lists(application_order(elem, sheet), i),
        forall|a: int, b: int|
            0 <= a < b < application_order(elem, sheet).len() ==> {
                let ra = rule_rank(elem, sheet.rules[application_order(elem, sheet)[a]])->Some_0;
                let rb = rule_rank(elem, sheet.rules[application_order(elem, sheet)[b]])->Some_0;
                higher(rb, ra) || (ra == rb && #[trigger] application_order(elem, sheet)[a]
                    < #[trigger] application_order(elem, sheet)[b])
            },
{
    let found = candidates(elem, sheet, sheet.rules.len());
    let keys = ranks(elem, sheet, found);
    let turn = stable_order(keys, found.len(), false);
    let order = application_order(elem, sheet);
    lemma_candidates(elem, sheet, sheet.rules.len());
    lemma_stable_order(keys, found.len(), false);
    assert forall|a: int| 0 <= a < order.len() implies {
        &&& 0 <= #[trigger] order[a] < sheet.rules.len()
        &&& rule_rank(elem, sheet.rules[order[a]]) is Some
    } by {
        assert(0 <= turn[a] < found.len());
        assert(order[a] == found[turn[a]]);
    }
    assert forall|i: int|
        0 <= i < sheet.rules.len() && rule_rank(elem, sheet.rules[i]) is Some implies lists(
        order,
        i,
    ) by {
        assert(lists(found, i));
        let k = choose|k: int| 0 <= k < found.len() && found[k] == i;
        assert(lists(turn, k));
        let a = choose|a: int| 0 <= a < turn.len() && turn[a] == k;
        assert(order[a] == i);
    }
    assert forall|a: int, b: int| 0 <= a < b < order.len() implies {
        let ra = rule_rank(elem, sheet.rules[order[a]])->Some_0;
        let rb = rule_rank(elem, sheet.rules[order[b]])->Some_0;
        higher(rb, ra) || (ra == rb && #[trigger] order[a] < #[trigger] order[b])
    } by {
        assert(0 <= turn[a] < found.len());
        assert(0 <= turn[b] < found.len());
        assert(comes_before(keys, turn[a], turn[b], false));
        assert(order[a] == found[turn[a]]);
        assert(order[b] == found[turn[b]]);
        if turn[a] < turn[b] {
            assert(found[turn[a]] < found[turn[b]]);
        }
    }
}

/// Which declaration the cascade leaves in place. A property is in the
/// element's map exactly where some declaration that holds of the element
/// speaks of it; one such declaration then prevails, and the map holds the
/// value of the declaration that prevails. So a higher specificity wins
/// whatever the order of the rules; with the same specificity the later rule
/// wins; and within a rule the later declaration.
pub proof fn lemma_cascade_prevails(elem: ElementModel, sheet: SheetModel, name: Seq<char>)
    ensures
        cascade(elem, sheet).contains_key(name) <==> exists|i: int, j: int|
            declares(elem, sheet, name, i, j),
        cascade(elem, sheet).contains_key(name) ==> exists|i: int, j: int|
            prevails(elem, sheet, name, i, j),
        forall|i: int, j: int| #[trigger]
            prevails(elem, sheet, name, i, j) ==> cascade(elem, sheet).contains_key(name)
                && cascade(elem, sheet)[name] == sheet.rules[i].declarations[j].value,
{
    let order = application_order(elem, sheet);
    let n = order.len();
    lemma_application_order(elem, sheet);
    lemma_apply_rules(sheet, order, n, name);
    let last = last_declaring(sheet, order, n, name);
    assert forall|i2: int, j2: int| #[trigger] declares(elem, sheet, name, i2, j2) implies last
        >= 0 && {
        let a2 = choose|a: int| 0 <= a < n && order[a] == i2;
        &&& 0 <= a2 <= last
        &&& order[a2] == i2
        &&& a2 == last ==> j2 <= last_named(
            sheet.rules[i2].declarations,
            sheet.rules[i2].declarations.len(),
            name,
        )
    } by {
        assert(lists(order, i2));
        let a2 = choose|a: int| 0 <= a < n && order[a] == i2;
        let declarations = sheet.rules[i2].declarations;
        lemma_apply_declarations(declarations, declarations.len(), Map::empty(), name);
        assert(declarations[j2].name == name);
    }
    if last >= 0 {
        let i = order[last];
        let declarations = sheet.rules[i].declarations;
        let j = last_named(declarations, declarations.len(), name);
        lemma_apply_declarations(declarations, declarations.len(), Map::empty(), name);
        assert(declares(elem, sheet, name, i, j));
        assert forall|i2: int, j2: int| #[trigger]
            declares(elem, sheet, name, i2, j2) implies gives_way(elem, sheet, i2, j2, i, j) by {
            let a2 = choose|a: int| 0 <= a < n && order[a] == i2;
            if a2 < last {
                assert(order[a2] == i2 && order[last] == i);
            }
        }
        assert(prevails(elem, sheet, name, i, j));
        assert forall|i3: int, j3: int| #[trigger]
            prevails(elem, sheet, name, i3, j3) implies i3 == i && j3 == j by {
            assert(declares(elem, sheet, name, i3, j3));
            assert(gives_way(elem, sheet, i, j, i3, j3));
            assert(gives_way(elem, sheet, i3, j3, i, j));
        }
    }
}

/// A declaration of a rule that holds of the element with a higher
/// specificity than any other rule that speaks of the property decides the
/// property, if it is the last in its rule that speaks of it, wherever its
/// rule stands in the sheet.
pub proof fn lemma_higher_specificity_overrides(
    elem: ElementModel,
    sheet: SheetModel,
    name: Seq<char>,
    i: int,
    j: int,
)
    requires
        declares(elem, sheet, name, i, j),
        forall|j2: int| #[trigger] declares(elem, sheet, name, i, j2) ==> j2 <= j,
        forall|i2: int, j2: int| #[trigger]
            declares(elem, sheet, name, i2, j2) && i2 != i ==> higher(
                rule_rank(elem, sheet.rules[i])->Some_0,
                rule_rank(elem, sheet.rules[i2])->Some_0,
            ),
    ensures
        cascade(elem, sheet).contains_key(name),
        cascade(elem, sheet)[name] == sheet.rules[i].declarations[j].value,
{
    assert(prevails(elem, sheet, name, i, j));
    lemma_cascade_prevails(elem, sheet, name);
}

/// The properties that `stylesheet` gives to `elem`.
pub fn specified_values(elem: &ElementData, stylesheet: &Stylesheet) -> (values: PropertyMap)
    ensures
        properties_model(values@) == cascade(elem@, stylesheet@),
{
    let mut values: PropertyMap = StringHashMap::new();
    let mut rules = matching_rules(elem, stylesheet);
    let ghost found = candidates(elem@, stylesheet@, stylesheet@.rules.len());
    let ghost rules0 = rules@;
    let mut keys: Vec<Specificity> = Vec::new();
    let mut k: usize = 0;
    while k < rules.len()
        invariant
            k <= rules.len(),
            keys@.len() == k,
            forall|t: int| 0 <= t < k ==> #[trigger] keys@[t] == rules@[t].0,
        decreases rules.len() - k,
    {
        keys.push(rules[k].0);
        k += 1;
    }
    proof {
        assert(keys@ =~= ranks(elem@, stylesheet@, found)) by {
            assert forall|t: int| 0 <= t < keys@.len() implies keys@[t] == ranks(
                elem@,
                stylesheet@,
                found,
            )[t] by {
                assert(is_candidate(rules@[t], elem@, stylesheet.rules@, found[t]));
                assert(stylesheet@.rules[found[t]] == stylesheet.rules@[found[t]]@);
            }
        }
        lemma_stable_order(keys@, keys@.len(), false);
    }
    let ghost turn = stable_order(keys@, keys@.len(), false);
    let ghost order = application_order(elem@, stylesheet@);
    sort_by_specificity(&mut rules, &mut keys, false);
    proof {
        assert(order == arranged(found, turn));
        assert(rules@ == arranged(rules0, turn));
        assert forall|t: int| 0 <= t < rules@.len() implies 0 <= #[trigger] order[t]
            < stylesheet.rules@.len() && *rules@[t].1 == stylesheet.rules@[order[t]] by {
            assert(0 <= turn[t] < rules0.len());
            assert(is_candidate(rules0[turn[t]], elem@, stylesheet.rules@, found[turn[t]]));
        }
    }
    assert(properties_model(values@) =~= Map::empty());
    let mut a: usize = 0;
    while a < rules.len()
        invariant
            a <= rules.len(),
            rules@.len() == order.len(),
            order == application_order(elem@, stylesheet@),
            forall|t: int|
                0 <= t < rules@.len() ==> 0 <= #[trigger] order[t] < stylesheet.rules@.len()
                    && *rules@[t].1 == stylesheet.rules@[order[t]],
            stylesheet@.rules.len() == stylesheet.rules@.len(),
            properties_model(values@) == apply_rules(stylesheet@, order, a as nat, Map::empty()),
        decreases rules.len() - a,
    {
        let rule = rules[a].1;
        let ghost before = apply_rules(stylesheet@, order, a as nat, Map::empty());
        assert(*rule == stylesheet.rules@[order[a as int]]);
        assert(stylesheet@.rules[order[a as int]] == rule@);
        let mut j: usize = 0;
        while j < rule.declarations.len()
            invariant
                j <= rule.declarations.len(),
                rule@.declarations.len() == rule.declarations@.len(),
                properties_model(values@) == apply_declarations(
                    rule@.declarations,
                    j as nat,
                    before,
                ),
            decreases rule.declarations.len() - j,
        {
            let declaration = &rule.declarations[j];
            assert(rule@.declarations[j as int] == declaration@);
            let name = declaration.name.clone();
            let value = declaration.value.clone();
            proof {
                lemma_properties_insert(values@, name@, value);
            }
            values.insert(name, value);
            j += 1;
        }
        a += 1;
    }
    values
}

/// A node of the document with the properties that a style sheet gives it,
/// and its children, styled, in the order of the document.
pub struct StyledNode<'a> {
    pub node: &'a Node,
    pub specified_values: PropertyMap,
    pub children: Vec<StyledNode<'a>>,
}

/// The mathematical value of a `StyledNode`.
pub ghost struct StyledTree {
    pub node: Tree,
    pub specified_values: Map<Seq<char>, ValueModel>,
    pub children: Seq<StyledTree>,
}

impl<'a> StyledNode<'a> {
    /// The value of the styled node: the node's value, its properties, and
    /// the values of its styled children.
    pub open spec fn model(&self) -> StyledTree
        decreases self,
    {
        StyledTree {
            node: self.node@,
            specified_values: properties_model(self.specified_values@),
            children: Seq::new(
                self.children@.len(),
                |i: int|
                    if 0 <= i < self.children@.len() {
                        self.children@[i].model()
                    } else {
                        arbitrary()
                    },
            ),
        }
    }
}

impl<'a> View for StyledNode<'a> {
    type V = StyledTree;

    open spec fn view(&self) -> StyledTree {
        self.model()
    }
}

/// The styled tree of a document tree under a style sheet: every element
/// has the properties that the cascade gives it, every text node has none,
/// and the children of a node are styled one by one, in their order.
pub open spec fn styled_tree(tree: Tree, sheet: SheetModel) -> StyledTree
    decreases tree,
{
    StyledTree {
        node: tree,
        specified_values: match tree.kind {
            NodeKind::Element(elem) => cascade(elem, sheet),
            NodeKind::Text(_) => Map::empty(),
        },
        children: Seq::new(
            tree.children.len(),
            |i: int|
                if 0 <= i < tree.children.len() {
                    styled_tree(tree.children[i], sheet)
                } else {
                    arbitrary()
                },
        ),
    }
}

/// Whether a styled node refers to `node`, and each of its children to the
/// child of `node` at the same place.
pub open spec fn refers_to(styled: StyledNode, node: Node) -> bool
    decreases styled,
{
    &&& *styled.node == node
    &&& styled.children@.len() == node.children@.len()
    &&& forall|i: int|
        0 <= i < styled.children@.len() ==> refers_to(
            #[trigger] styled.children@[i],
            node.children@[i],
        )
}

/// Applies a style sheet to a whole document tree.
pub fn style_tree<'a>(root: &'a Node, stylesheet: &'a Stylesheet) -> (styled: StyledNode<'a>)
    ensures
        styled@ == styled_tree(root@, stylesheet@),
        refers_to(styled, *root),
    decreases root,
{
    let specified_values = match &root.node_type {
        NodeType::Element(elem) => specified_values(elem, stylesheet),
        NodeType::Text(_) => {
            let none: PropertyMap = StringHashMap::new();
            assert(properties_model(none@) =~= Map::empty());
            none
        },
    };
    let mut children: Vec<StyledNode<'a>> = Vec::new();
    let mut i: usize = 0;
    proof {
        lemma_children_view(*root);
    }
    while i < root.children.len()
        invariant
            i <= root.children.len(),
            children@.len() == i,
            root@.children.len() == root.children@.len(),
            forall|t: int|
                0 <= t < i ==> (#[trigger] children@[t])@ == styled_tree(
                    root@.children[t],
                    stylesheet@,
                ),
            forall|t: int| 0 <= t < i ==> refers_to(#[trigger] children@[t], root.children@[t]),
        decreases root.children.len() - i,
    {
        proof {
            lemma_children_view(*root);
            assert(root@.children[i as int] == root.children@[i as int]@);
        }
        let child = style_tree(&root.children[i], stylesheet);
        children.push(child);
        i += 1;
    }
    let styled = StyledNode { node: root, specified_values, children };
    proof {
        assert(styled@.children =~= styled_tree(root@, stylesheet@).children);
    }
    styled
}

/// Whether a styled tree has the shape of a document tree: it stands for
/// that tree, has as many children, and each child has the shape of the
/// child at the same place.
pub open spec fn same_shape(styled: StyledTree, tree: Tree) -> bool
    decreases tree,
{
    &&& styled.node == tree
    &&& styled.children.len() == tree.children.len()
    &&& forall|i: int|
        0 <= i < tree.children.len() ==> same_shape(
            #[trigger] styled.children[i],
            tree.children[i],
        )
}

/// The number of nodes in a styled tree.
pub open spec fn styled_count(styled: StyledTree) -> nat
    decreases styled,
{
    1 + styled_forest_count(styled.children, styled.children.len())
}

/// The number of nodes in the first `n` trees of `trees`.
pub open spec fn styled_forest_count(trees: Seq<StyledTree>, n: nat) -> nat
    decreases trees, n,
{
    if n == 0 || n > trees.len() {
        0
    } else {
        styled_forest_count(trees, (n - 1) as nat) + styled_count(trees[n - 1])
    }
}

/// Styling keeps the shape: the styled tree of a document tree has a node
/// for each node of the document, with the same children in the same order.
pub proof fn lemma_styled_tree_shape(tree: Tree, sheet: SheetModel)
    ensures
        same_shape(styled_tree(tree, sheet), tree),
        styled_count(styled_tree(tree, sheet)) == crate::dom::node_count(tree),
    decreases tree, tree.children.len() + 2,
{
    let styled = styled_tree(tree, sheet);
    assert forall|i: int| 0 <= i < tree.children.len() implies same_shape(
        #[trigger] styled.children[i],
        tree.children[i],
    ) by {
        lemma_styled_tree_shape(tree.children[i], sheet);
    }
    lemma_styled_forest_count(tree, sheet, tree.children.len());
}

/// The first `n` children of a styled tree hold as many nodes as the first
/// `n` children of the document tree.
pub proof fn lemma_styled_forest_count(tree: Tree, sheet: SheetModel, n: nat)
    requires
        n <= tree.children.len(),
    ensures
        styled_forest_count(styled_tree(tree, sheet).children, n) == crate::dom::forest_count(
            tree.children,
            n,
        ),
    decreases tree, n + 1,
{
    if n > 0 {
        lemma_styled_forest_count(tree, sheet, (n - 1) as nat);
        lemma_styled_tree_shape(tree.children[n - 1], sheet);
    }
}

/// Styling is a function of the document and the sheet: whatever two runs
/// on the same two return has one and the same value.
pub proof fn lemma_styling_is_determined(
    first: StyledTree,
    second: StyledTree,
    tree: Tree,
    sheet: SheetModel,
)
    requires
        first == styled_tree(tree, sheet),
        second == styled_tree(tree, sheet),
    ensures
        first == second,
        same_shape(first, tree) && same_shape(second, tree),
{
    lemma_styled_tree_shape(tree, sheet);
}

} // verus!
