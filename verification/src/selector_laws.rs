//! What a rule's selector says is what its utilities are found by.
use crate::arbitrary::{collapsed_from, decoding_from, decoding_undoes_encoding, encoding};
use crate::css::{css_span, ident_name, present};
use crate::css_plan::{arbitrary_variant, rule_classes, rule_match, list_classes, complex_classes, simple_classes};
use crate::selector::KeyModel;
use crate::syntax::{field, items, of_kind};
use crate::text::cut;
use crate::tree::TreeModel;
use vstd::prelude::*;

verus! {

// ---------------------------------------------------------------------------
// Parts of a selector
// ---------------------------------------------------------------------------

/// The simple selector is a class of this name, written without interpolation.
pub open spec fn is_class(simple: TreeModel, name: Seq<char>) -> bool {
    of_kind(simple, "ClassSelector"@) && ident_name(field(simple, "name"@)) == Some(name)
}

/// The simple selector is an id of this name, written without interpolation.
pub open spec fn is_id(simple: TreeModel, name: Seq<char>) -> bool {
    of_kind(simple, "IdSelector"@) && ident_name(field(simple, "name"@)) == Some(name)
}

/// The simple selector is a pseudo-class of this name without an argument.
pub open spec fn is_state(simple: TreeModel, name: Seq<char>) -> bool {
    of_kind(simple, "PseudoClassSelector"@) && !present(field(simple, "arg"@)) && ident_name(field(simple, "name"@))
        == Some(name)
}

/// The parts of the rule's only selector.
pub open spec fn parts_of(rule: TreeModel) -> Seq<TreeModel> {
    items(items(field(rule, "selector"@), "selectors"@)[0], "children"@)
}

/// The rule has one selector.
pub open spec fn has_one_selector(rule: TreeModel) -> bool {
    items(field(rule, "selector"@), "selectors"@).len() == 1 && parts_of(rule).len() > 0
}

/// The simple selectors of the compound that the rule's only selector ends in.
pub open spec fn target_of(rule: TreeModel) -> Seq<TreeModel> {
    items(parts_of(rule).last(), "children"@)
}

/// The key is what the simple selector names.
pub open spec fn key_of(simple: TreeModel, key: KeyModel) -> bool {
    match key {
        KeyModel::Class(name) => is_class(simple, name),
        KeyModel::Id(name) => is_id(simple, name),
    }
}

/// The pseudo-classes that Tailwind has variants for under their own names.
pub open spec fn known_states() -> Seq<Seq<char>> {
    seq![
        "hover"@,
        "focus"@,
        "focus-visible"@,
        "focus-within"@,
        "active"@,
        "visited"@,
        "disabled"@,
    ]
}

proof fn lemma_known_states()
    ensures
        known_states().contains("hover"@),
        known_states().contains("focus"@),
        known_states().contains("focus-visible"@),
        known_states().contains("focus-within"@),
        known_states().contains("active"@),
        known_states().contains("visited"@),
        known_states().contains("disabled"@),
        forall|name: Seq<char>| #[trigger]
            known_states().contains(name) ==> name == "hover"@ || name == "focus"@ || name == "focus-visible"@ || name
                == "focus-within"@ || name == "active"@ || name == "visited"@ || name == "disabled"@,
{
    let list = known_states();
    assert(list[0] == "hover"@);
    assert(list[1] == "focus"@);
    assert(list[2] == "focus-visible"@);
    assert(list[3] == "focus-within"@);
    assert(list[4] == "active"@);
    assert(list[5] == "visited"@);
    assert(list[6] == "disabled"@);
}

// ---------------------------------------------------------------------------
// Keys and variants
// ---------------------------------------------------------------------------

/// A rule is found by the class or id that the last part of its only selector
/// begins with.
pub proof fn rules_are_found_by_the_target(rule: TreeModel, source: Seq<char>, is_module: bool)
    ensures
        rule_match(rule, source, is_module) matches Some(found) ==> {
            &&& has_one_selector(rule)
            &&& of_kind(parts_of(rule).last(), "CompoundSelector"@)
            &&& target_of(rule).len() > 0
            &&& key_of(target_of(rule)[0], found.0)
        },
{
    if rule_match(rule, source, is_module) is Some {
        assert(target_of(rule).len() > 0) by {
            if target_of(rule).len() == 0 {
                assert(field(TreeModel::Null, "name"@) == TreeModel::Null);
                assert(ident_name(TreeModel::Null) is None);
            }
        }
        kinds_differ();
    }
}

proof fn kinds_differ()
    ensures
        "ClassSelector"@ != "IdSelector"@,
{
    reveal_strlit("ClassSelector");
    reveal_strlit("IdSelector");
    assert("ClassSelector"@.len() != "IdSelector"@.len());
}

/// A class or an id alone needs no variant.
pub proof fn plain_selectors_need_no_variant(rule: TreeModel, source: Seq<char>, is_module: bool, key: KeyModel)
    requires
        has_one_selector(rule),
        parts_of(rule).len() == 1,
        of_kind(parts_of(rule)[0], "CompoundSelector"@),
        target_of(rule).len() == 1,
        key_of(target_of(rule)[0], key),
    ensures
        rule_match(rule, source, is_module) == Some((key, None::<Seq<char>>)),
{
    kinds_differ();
    lemma_kind(target_of(rule)[0], key);
}

proof fn lemma_kind(simple: TreeModel, key: KeyModel)
    requires
        key_of(simple, key),
    ensures
        crate::css_plan::simple_key(simple) == Some(key),
{
    kinds_differ();
}

/// A state keeps its name: where a class or an id is followed by one
/// pseudo-class without an argument, the rule has a match exactly where
/// Tailwind knows that state, and the variant is the name of the pseudo-class
/// as it is written.
pub proof fn states_keep_their_names(
    rule: TreeModel,
    source: Seq<char>,
    is_module: bool,
    key: KeyModel,
    state: Seq<char>,
)
    requires
        has_one_selector(rule),
        parts_of(rule).len() == 1,
        of_kind(parts_of(rule)[0], "CompoundSelector"@),
        target_of(rule).len() == 2,
        key_of(target_of(rule)[0], key),
        is_state(target_of(rule)[1], state),
    ensures
        rule_match(rule, source, is_module) == if known_states().contains(state) {
            Some((key, Some(state)))
        } else {
            None
        },
{
    lemma_known_states();
    lemma_kind(target_of(rule)[0], key);
}

/// The whole selector of a rule as it is written, before and behind the simple
/// selector that the target begins with.
pub open spec fn around_target(rule: TreeModel, source: Seq<char>) -> (Option<Seq<char>>, Option<Seq<char>>) {
    let whole = css_span(field(rule, "selector"@));
    let place = css_span(target_of(rule)[0]);
    (cut(source, whole.0 as int, place.0 as int), cut(source, place.1 as int, whole.1 as int))
}

/// The selector is more than a class or an id with one state.
pub open spec fn is_compound(rule: TreeModel) -> bool {
    ||| parts_of(rule).len() > 1
    ||| target_of(rule).len() > 2
    ||| target_of(rule).len() == 2 && !(of_kind(target_of(rule)[1], "PseudoClassSelector"@) && !present(
        field(target_of(rule)[1], "arg"@),
    ))
}

/// Any other selector of a global stylesheet becomes a variant that reads back
/// as the selector itself, with `&` in the place of what the rule is found by.
/// In a CSS Module such a rule has no match.
pub proof fn other_selectors_read_back(rule: TreeModel, source: Seq<char>, is_module: bool, key: KeyModel)
    requires
        has_one_selector(rule),
        of_kind(parts_of(rule).last(), "CompoundSelector"@),
        target_of(rule).len() > 0,
        is_compound(rule),
        key_of(target_of(rule)[0], key),
    ensures
        is_module ==> rule_match(rule, source, is_module) is None,
        !is_module ==> match around_target(rule, source) {
            (Some(head), Some(tail)) => {
                let text = head + seq!['&'] + tail;
                &&& rule_match(rule, source, is_module) matches Some(found) && found.0 == key && found.1 is Some
                &&& {
                    let variant = ((rule_match(rule, source, is_module)->0).1)->0;
                    &&& variant.len() >= 2 && variant[0] == '[' && variant.last() == ']'
                    &&& !text.contains('\\') ==> decoding_from(variant.subrange(1, variant.len() - 1), 0)
                        == collapsed_from(text, 0, seq![], false)
                }
            },
            _ => rule_match(rule, source, is_module) is None,
        },
{
    reveal_strlit("&");
    reveal_strlit("[");
    reveal_strlit("]");
    assert("&"@ =~= seq!['&']);
    assert("["@ =~= seq!['[']);
    assert("]"@ =~= seq![']']);
    lemma_kind(target_of(rule)[0], key);
    if !is_module {
        if let (Some(head), Some(tail)) = around_target(rule, source) {
            let text = head + seq!['&'] + tail;
            let variant = seq!['['] + encoding(text) + seq![']'];
            assert(arbitrary_variant(rule, source, parts_of(rule).last()) == Some(variant));
            assert(variant.subrange(1, variant.len() - 1) =~= encoding(text));
            if !text.contains('\\') {
                decoding_undoes_encoding(text);
            }
        }
    }
}

// ---------------------------------------------------------------------------
// Classes
// ---------------------------------------------------------------------------

/// Some compound of some selector of the rule names the class.
pub open spec fn mentions_class(rule: TreeModel, name: Seq<char>) -> bool {
    exists|s: int, c: int, k: int|
        mentions_at(items(field(rule, "selector"@), "selectors"@), s, c, k, name)
}

/// The class is named at this place of the selectors.
pub open spec fn mentions_at(selectors: Seq<TreeModel>, s: int, c: int, k: int, name: Seq<char>) -> bool {
    &&& 0 <= s < selectors.len()
    &&& 0 <= c < items(selectors[s], "children"@).len()
    &&& of_kind(items(selectors[s], "children"@)[c], "CompoundSelector"@)
    &&& 0 <= k < items(items(selectors[s], "children"@)[c], "children"@).len()
    &&& is_class(items(items(selectors[s], "children"@)[c], "children"@)[k], name)
}

proof fn lemma_simple_classes(simples: Seq<TreeModel>, n: int, name: Seq<char>)
    requires
        0 <= n <= simples.len(),
    ensures
        simple_classes(simples, n).contains(name) <==> exists|k: int| 0 <= k < n && #[trigger] is_class(simples[k], name),
    decreases n,
{
    if n > 0 {
        lemma_simple_classes(simples, n - 1, name);
        let before = simple_classes(simples, n - 1);
        let all = simple_classes(simples, n);
        kinds_differ();
        if let Some(KeyModel::Class(own)) = crate::css_plan::simple_key(simples[n - 1]) {
            assert(all == before.push(own));
            assert(is_class(simples[n - 1], own));
            assert(all[before.len() as int] == own);
            if all.contains(name) && !before.contains(name) {
                let i = choose|i: int| 0 <= i < all.len() && all[i] == name;
                if i < before.len() {
                    assert(before[i] == name);
                }
                assert(own == name);
            }
            if before.contains(name) {
                let i = choose|i: int| 0 <= i < before.len() && before[i] == name;
                assert(all[i] == name);
            }
            if exists|k: int| 0 <= k < n && #[trigger] is_class(simples[k], name) {
                let k = choose|k: int| 0 <= k < n && #[trigger] is_class(simples[k], name);
                if k == n - 1 {
                    assert(own == name);
                }
            }
        } else {
            assert(all == before);
            assert(!is_class(simples[n - 1], name));
        }
    }
}

proof fn lemma_complex_classes(selectors: Seq<TreeModel>, s: int, n: int, name: Seq<char>)
    requires
        0 <= s < selectors.len(),
        0 <= n <= items(selectors[s], "children"@).len(),
    ensures
        complex_classes(items(selectors[s], "children"@), n).contains(name) <==> exists|c: int, k: int|
            c < n && #[trigger] mentions_at(selectors, s, c, k, name),
    decreases n,
{
    let children = items(selectors[s], "children"@);
    if n > 0 {
        lemma_complex_classes(selectors, s, n - 1, name);
        let before = complex_classes(children, n - 1);
        let simples = items(children[n - 1], "children"@);
        let own = if of_kind(children[n - 1], "CompoundSelector"@) {
            simple_classes(simples, simples.len() as int)
        } else {
            seq![]
        };
        let all = complex_classes(children, n);
        lemma_simple_classes(simples, simples.len() as int, name);
        lemma_contains_concat(before, own, name);
        assert(all == before + own);
        if own.contains(name) {
            let k = choose|k: int| 0 <= k < simples.len() && #[trigger] is_class(simples[k], name);
            assert(mentions_at(selectors, s, n - 1, k, name));
        }
        if exists|c: int, k: int| c < n && #[trigger] mentions_at(selectors, s, c, k, name) {
            let (c, k) = choose|c: int, k: int| c < n && #[trigger] mentions_at(selectors, s, c, k, name);
            if c == n - 1 {
                assert(is_class(simples[k], name));
            } else {
                assert(c < n - 1 && mentions_at(selectors, s, c, k, name));
            }
        }
    }
}

proof fn lemma_contains_concat(a: Seq<Seq<char>>, b: Seq<Seq<char>>, x: Seq<char>)
    ensures
        (a + b).contains(x) <==> a.contains(x) || b.contains(x),
{
    let all = a + b;
    if all.contains(x) {
        let i = choose|i: int| 0 <= i < all.len() && all[i] == x;
        if i < a.len() {
            assert(a[i] == x);
        } else {
            assert(b[i - a.len()] == x);
        }
    }
    if a.contains(x) {
        let i = choose|i: int| 0 <= i < a.len() && a[i] == x;
        assert(all[i] == x);
    }
    if b.contains(x) {
        let i = choose|i: int| 0 <= i < b.len() && b[i] == x;
        assert(all[a.len() + i] == x);
    }
}

proof fn lemma_list_classes(selectors: Seq<TreeModel>, n: int, name: Seq<char>)
    requires
        0 <= n <= selectors.len(),
    ensures
        list_classes(selectors, n).contains(name) <==> exists|s: int, c: int, k: int|
            s < n && #[trigger] mentions_at(selectors, s, c, k, name),
    decreases n,
{
    if n > 0 {
        lemma_list_classes(selectors, n - 1, name);
        let children = items(selectors[n - 1], "children"@);
        let own = complex_classes(children, children.len() as int);
        lemma_complex_classes(selectors, n - 1, children.len() as int, name);
        lemma_contains_concat(list_classes(selectors, n - 1), own, name);
        if own.contains(name) {
            let (c, k) = choose|c: int, k: int|
                c < children.len() && #[trigger] mentions_at(selectors, n - 1, c, k, name);
            assert(mentions_at(selectors, n - 1, c, k, name));
        }
        if exists|s: int, c: int, k: int| s < n && #[trigger] mentions_at(selectors, s, c, k, name) {
            let (s, c, k) = choose|s: int, c: int, k: int| s < n && #[trigger] mentions_at(selectors, s, c, k, name);
            if s == n - 1 {
                assert(c < children.len() && mentions_at(selectors, n - 1, c, k, name));
            } else {
                assert(s < n - 1 && mentions_at(selectors, s, c, k, name));
            }
        }
    }
}

/// The classes of a rule are those that its selectors name, wherever they stand.
pub proof fn rules_relate_to_the_classes_they_name(rule: TreeModel, name: Seq<char>)
    ensures
        rule_classes(rule).contains(name) <==> mentions_class(rule, name),
{
    let selectors = items(field(rule, "selector"@), "selectors"@);
    lemma_list_classes(selectors, selectors.len() as int, name);
    if mentions_class(rule, name) {
        let (s, c, k) = choose|s: int, c: int, k: int| mentions_at(selectors, s, c, k, name);
        assert(s < selectors.len() && mentions_at(selectors, s, c, k, name));
    }
}

} // verus!
