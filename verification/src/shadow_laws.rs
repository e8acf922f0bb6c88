//! Rules that other CSS competes with.
use crate::rules::{RuleId, RuleModel};
use crate::selector::KeyModel;
use crate::shadow::{
    carries_rule, contested, contested_at, contested_in, indexed, package_stamped, retained_css, share, touches,
    with_piece, with_pieces, ContestModel, Rival, ShadowEntryModel, ShadowModel,
};
use crate::source::{classes_of, contexts_of, ids_of, in_context, tag_of, ElementModel};
use crate::text::ascii_lowered;
use vstd::prelude::*;

verus! {

// ---------------------------------------------------------------------------
// The index
// ---------------------------------------------------------------------------

/// Everything that one shadow reaches the other reaches.
pub open spec fn reaches_as_far(less: ShadowModel, more: ShadowModel) -> bool {
    &&& forall|name: Seq<char>| less.classes.contains(name) ==> #[trigger] more.classes.contains(name)
    &&& forall|name: Seq<char>| less.types.contains(name) ==> #[trigger] more.types.contains(name)
    &&& forall|name: Seq<char>| less.ids.contains(name) ==> #[trigger] more.ids.contains(name)
    &&& less.unverifiable ==> more.unverifiable
}

proof fn lemma_concat(a: Seq<Seq<char>>, b: Seq<Seq<char>>)
    ensures
        forall|name: Seq<char>| a.contains(name) ==> #[trigger] (a + b).contains(name),
        forall|name: Seq<char>| b.contains(name) ==> #[trigger] (a + b).contains(name),
{
    assert forall|name: Seq<char>| a.contains(name) implies #[trigger] (a + b).contains(name) by {
        let k = choose|k: int| 0 <= k < a.len() && a[k] == name;
        assert((a + b)[k] == name);
    }
    assert forall|name: Seq<char>| b.contains(name) implies #[trigger] (a + b).contains(name) by {
        let k = choose|k: int| 0 <= k < b.len() && b[k] == name;
        assert((a + b)[a.len() + k] == name);
    }
}

/// The first entry for the piece, where there is one.
pub open spec fn describes(table: Seq<ShadowEntryModel>, css: Seq<char>, module: bool, shadow: ShadowModel) -> bool {
    exists|i: int|
        0 <= i < table.len() && (#[trigger] table[i]).css == css && table[i].module == module && table[i].shadow == shadow
            && forall|j: int| 0 <= j < i ==> !((#[trigger] table[j]).css == css && table[j].module == module)
}

proof fn lemma_piece(table: Seq<ShadowEntryModel>, shadow: ShadowModel, css: Seq<char>, module: bool, i: int)
    requires
        0 <= i <= table.len(),
        forall|j: int| 0 <= j < i ==> !((#[trigger] table[j]).css == css && table[j].module == module),
    ensures
        reaches_as_far(shadow, with_piece(table, shadow, css, module, i)),
        forall|own: ShadowModel| #[trigger]
            describes(table, css, module, own) ==> reaches_as_far(own, with_piece(table, shadow, css, module, i)),
        !(exists|j: int| 0 <= j < table.len() && (#[trigger] table[j]).css == css && table[j].module == module)
            ==> with_piece(table, shadow, css, module, i).unverifiable,
    decreases table.len() - i,
{
    if i < table.len() && !(table[i].css == css && table[i].module == module) {
        lemma_piece(table, shadow, css, module, i + 1);
        assert(with_piece(table, shadow, css, module, i) == with_piece(table, shadow, css, module, i + 1));
    } else if i < table.len() {
        let entry = table[i].shadow;
        lemma_concat(shadow.classes, entry.classes);
        lemma_concat(shadow.types, entry.types);
        lemma_concat(shadow.ids, entry.ids);
        let after = with_piece(table, shadow, css, module, i);
        assert(reaches_as_far(entry, after));
        assert forall|own: ShadowModel| #[trigger] describes(table, css, module, own) implies reaches_as_far(own, after) by {
            let k = choose|k: int|
                0 <= k < table.len() && (#[trigger] table[k]).css == css && table[k].module == module && table[k].shadow
                    == own && forall|j: int| 0 <= j < k ==> !((#[trigger] table[j]).css == css && table[j].module == module);
            if k < i {
                assert(!(table[k].css == css && table[k].module == module));
            } else if i < k {
                assert(!(table[i].css == css && table[i].module == module));
            }
        }
    } else {
        assert forall|own: ShadowModel| !(#[trigger] describes(table, css, module, own)) by {}
    }
}

proof fn lemma_far(a: ShadowModel, b: ShadowModel, c: ShadowModel)
    requires
        reaches_as_far(a, b),
        reaches_as_far(b, c),
    ensures
        reaches_as_far(a, c),
{
}

proof fn lemma_pieces(table: Seq<ShadowEntryModel>, shadow: ShadowModel, pieces: Seq<Seq<char>>, module: bool, n: int)
    requires
        0 <= n <= pieces.len(),
    ensures
        reaches_as_far(shadow, with_pieces(table, shadow, pieces, module, n)),
        forall|k: int, own: ShadowModel|
            0 <= k < n && #[trigger] describes(table, pieces[k], module, own) ==> reaches_as_far(
                own,
                with_pieces(table, shadow, pieces, module, n),
            ),
    decreases n,
{
    if n > 0 {
        lemma_pieces(table, shadow, pieces, module, n - 1);
        let before = with_pieces(table, shadow, pieces, module, n - 1);
        let after = with_pieces(table, shadow, pieces, module, n);
        lemma_piece(table, before, pieces[n - 1], module, 0);
        lemma_far(shadow, before, after);
        assert forall|k: int, own: ShadowModel| 0 <= k < n && #[trigger] describes(table, pieces[k], module, own) implies reaches_as_far(
            own,
            after,
        ) by {
            if k < n - 1 {
                lemma_far(own, before, after);
            }
        }
    }
}

/// The index reaches whatever any of its pieces reaches, plain ones and those of
/// CSS Modules.
pub proof fn the_index_reaches_what_its_pieces_reach(
    table: Seq<ShadowEntryModel>,
    css: Seq<Seq<char>>,
    modules: Seq<Seq<char>>,
)
    ensures
        forall|k: int, own: ShadowModel|
            0 <= k < css.len() && #[trigger] describes(table, css[k], false, own) ==> reaches_as_far(
                own,
                indexed(table, css, modules),
            ),
        forall|k: int, own: ShadowModel|
            0 <= k < modules.len() && #[trigger] describes(table, modules[k], true, own) ==> reaches_as_far(
                own,
                indexed(table, css, modules),
            ),
{
    let none = crate::shadow::no_shadow();
    let first = with_pieces(table, none, css, false, css.len() as int);
    lemma_pieces(table, none, css, false, css.len() as int);
    lemma_pieces(table, first, modules, true, modules.len() as int);
    let all = indexed(table, css, modules);
    assert forall|k: int, own: ShadowModel|
        0 <= k < css.len() && #[trigger] describes(table, css[k], false, own) implies reaches_as_far(own, all) by {
        lemma_far(own, first, all);
    }
}

// ---------------------------------------------------------------------------
// Shadowed rules
// ---------------------------------------------------------------------------

/// The shadow reaches the element: by one of its classes, its tag or an id.
pub open spec fn reaches_element(shadow: ShadowModel, element: ElementModel) -> bool {
    ||| exists|name: Seq<char>| #[trigger] classes_of(element).contains(name) && shadow.classes.contains(name)
    ||| tag_of(element) matches Some(tag) && shadow.types.contains(ascii_lowered(tag))
    ||| exists|name: Seq<char>| #[trigger] ids_of(element).contains(name) && shadow.ids.contains(name)
}

/// The element is one that the rule styles: it has a class of the rule, or its
/// id.
pub open spec fn is_styled(rule: RuleModel, element: ElementModel) -> bool {
    ||| exists|name: Seq<char>| #[trigger] rule.related_classes.contains(name) && classes_of(element).contains(name)
    ||| rule.key matches Some(KeyModel::Id(name)) && ids_of(element).contains(name)
}

proof fn lemma_share(a: Seq<Seq<char>>, b: Seq<Seq<char>>, name: Seq<char>)
    requires
        a.contains(name),
        b.contains(name),
    ensures
        share(a, b),
{
    let k = choose|k: int| 0 <= k < a.len() && a[k] == name;
    assert(b.contains(a[k]));
}

/// A rule stays where other CSS of the package reaches an element that it
/// styles, names one of its classes, or cannot be verified; its other parts do
/// not change, and a rule that nothing reaches is left alone.
pub proof fn shadowed_rules_stay(
    at: ContestModel,
    shadow: ShadowModel,
    unverifiable: bool,
    rule: RuleModel,
    f: int,
    e: int,
)
    requires
        rule.warning is None,
        !at.vue_module,
    ensures
        ({
            let after = package_stamped(at, shadow, unverifiable, rule);
            &&& after == (RuleModel { warning: after.warning, ..rule })
            &&& unverifiable ==> after.warning is Some
            &&& (exists|name: Seq<char>| #[trigger] rule.related_classes.contains(name) && shadow.classes.contains(name))
                ==> after.warning is Some
            &&& 0 <= f < at.files.len() && contexts_of(at.files[f], at.css_path).len() > 0 && 0 <= e
                < at.files[f].html_elements.len() && in_context(at.files[f].html_elements[e], at.css_path) && is_styled(
                rule,
                at.files[f].html_elements[e],
            ) && reaches_element(shadow, at.files[f].html_elements[e]) ==> after.warning is Some
            &&& after.warning is Some ==> after.warning == Some("shadowed-scoped-rule"@)
        }),
{
    if exists|name: Seq<char>| #[trigger] rule.related_classes.contains(name) && shadow.classes.contains(name) {
        let name = choose|name: Seq<char>| #[trigger] rule.related_classes.contains(name) && shadow.classes.contains(name);
        lemma_share(rule.related_classes, shadow.classes, name);
    }
    if 0 <= f < at.files.len() && contexts_of(at.files[f], at.css_path).len() > 0 && 0 <= e
        < at.files[f].html_elements.len() && in_context(at.files[f].html_elements[e], at.css_path) && is_styled(
        rule,
        at.files[f].html_elements[e],
    ) && reaches_element(shadow, at.files[f].html_elements[e]) {
        let file = at.files[f];
        let element = file.html_elements[e];
        if exists|name: Seq<char>| #[trigger] rule.related_classes.contains(name) && classes_of(element).contains(name) {
            let name = choose|name: Seq<char>| #[trigger]
                rule.related_classes.contains(name) && classes_of(element).contains(name);
            lemma_share(rule.related_classes, classes_of(element), name);
        }
        assert(carries_rule(rule, element, false));
        if exists|name: Seq<char>| #[trigger] classes_of(element).contains(name) && shadow.classes.contains(name) {
            let name = choose|name: Seq<char>| #[trigger]
                classes_of(element).contains(name) && shadow.classes.contains(name);
            lemma_share(classes_of(element), shadow.classes, name);
        }
        if exists|name: Seq<char>| #[trigger] ids_of(element).contains(name) && shadow.ids.contains(name) {
            let name = choose|name: Seq<char>| #[trigger] ids_of(element).contains(name) && shadow.ids.contains(name);
            lemma_share(ids_of(element), shadow.ids, name);
        }
        assert(touches(shadow, element));
        assert(contested_at(at, shadow, Rival::Package, rule, file, file.html_elements[e]));
        assert(contested_in(at, shadow, Rival::Package, rule, at.files[f]));
        assert(contested(at, shadow, Rival::Package, rule));
    }
}

/// Every rule that stays competes: its selector is among the retained CSS,
/// unless it is an at-rule.
pub proof fn every_retained_rule_competes(rules: Seq<RuleModel>, also: Seq<RuleId>, n: int, i: int)
    requires
        0 <= i < n <= rules.len(),
        rules[i].warning is Some || also.contains(rules[i].id()),
        !(rules[i].selector.len() > 0 && rules[i].selector[0] == '@'),
    ensures
        retained_css(rules, also, n).contains(rules[i].selector + " {}"@),
    decreases n,
{
    let before = retained_css(rules, also, n - 1);
    let after = retained_css(rules, also, n);
    let css = rules[i].selector + " {}"@;
    if i < n - 1 {
        every_retained_rule_competes(rules, also, n - 1, i);
        let k = choose|k: int| 0 <= k < before.len() && before[k] == css;
        assert(after[k] == css);
    } else {
        reveal_strlit("@");
        assert(!crate::shadow::at_rule_selector(rules[i])) by {
            if crate::shadow::at_rule_selector(rules[i]) {
                assert(rules[i].selector.subrange(0, 1)[0] == '@');
            }
        }
        assert(after[before.len() as int] == css);
    }
}

} // verus!
