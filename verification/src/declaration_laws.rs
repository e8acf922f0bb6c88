//! What the declarations of a rule become.
use crate::css::{block_statements, ident_name, present};
use crate::css_plan::{
    any_spacing, block_spacing, candidates_in, declared_from, gathered, last_wins_from, lemma_gathered_declaration,
    lemma_gathered_warning, local_merged, merged_from, merged_with, rule_match, spacing_merged, style_plan, varied,
    written_value, DeclaredModel, SheetTextModel,
};
use crate::names::{ascending, naming_keeps_the_order, with_names};
use crate::rules::PropertyModels;
use crate::selector::KeyModel;
use crate::syntax::{field, of_kind};
use crate::text::{begins, joined};
use crate::tree::TreeModel;
use vstd::prelude::*;

verus! {

// ---------------------------------------------------------------------------
// Declarations
// ---------------------------------------------------------------------------

/// The first entry about the declaration has this outcome.
pub open spec fn answered(
    list: Seq<DeclaredModel>,
    property: Seq<char>,
    value: Seq<char>,
    outcome: Result<Seq<char>, Seq<char>>,
) -> bool {
    exists|k: int|
        0 <= k < list.len() && (#[trigger] list[k]).property == property && list[k].value == value && list[k].outcome
            == outcome && forall|j: int|
            0 <= j < k ==> (#[trigger] list[j]).property != property || list[j].value != value
}

/// No entry is about the declaration.
pub open spec fn unanswered(list: Seq<DeclaredModel>, property: Seq<char>, value: Seq<char>) -> bool {
    forall|j: int| 0 <= j < list.len() ==> (#[trigger] list[j]).property != property || list[j].value != value
}

proof fn lemma_declared(list: Seq<DeclaredModel>, property: Seq<char>, value: Seq<char>, i: int)
    requires
        0 <= i <= list.len(),
        forall|j: int| 0 <= j < i ==> (#[trigger] list[j]).property != property || list[j].value != value,
    ensures
        forall|outcome: Result<Seq<char>, Seq<char>>| #[trigger]
            answered(list, property, value, outcome) ==> declared_from(list, property, value, i) == outcome,
        unanswered(list, property, value) ==> declared_from(list, property, value, i) is Err,
    decreases list.len() - i,
{
    if i < list.len() {
        if list[i].property == property && list[i].value == value {
            assert forall|outcome: Result<Seq<char>, Seq<char>>| #[trigger]
                answered(list, property, value, outcome) implies list[i].outcome == outcome by {
                let k = choose|k: int|
                    0 <= k < list.len() && (#[trigger] list[k]).property == property && list[k].value == value
                        && list[k].outcome == outcome && forall|j: int|
                        0 <= j < k ==> (#[trigger] list[j]).property != property || list[j].value != value;
                if k > i {
                    assert(list[i].property != property || list[i].value != value);
                }
                assert(k == i);
            }
        } else {
            lemma_declared(list, property, value, i + 1);
        }
    }
}

/// The statement declares the property with the value, in a way that only the
/// table decides on: it is not important, composes nothing, is no animation of
/// a CSS Module, and no margin or padding.
pub open spec fn declares(at: SheetTextModel, statement: TreeModel, property: Seq<char>, value: Seq<char>) -> bool {
    &&& of_kind(statement, "Declaration"@)
    &&& !present(field(statement, "important"@))
    &&& ident_name(field(statement, "name"@)) == Some(property)
    &&& written_value(at.source, statement) == value
    &&& property != "composes"@
    &&& at.is_module ==> property != "animation"@ && property != "animation-name"@
    &&& property != "margin"@ && !begins(property, "margin-"@)
    &&& property != "padding"@ && !begins(property, "padding-"@)
}

/// The block consists of declarations of the properties that have the candidates.
pub open spec fn plain_block(
    at: SheetTextModel,
    statements: Seq<TreeModel>,
    properties: Seq<Seq<char>>,
    candidates: Seq<Seq<char>>,
) -> bool {
    &&& properties.len() == statements.len()
    &&& candidates.len() == statements.len()
    &&& forall|i: int|
        0 <= i < statements.len() ==> has_utility(at, #[trigger] statements[i], properties[i], candidates[i])
}

/// The statement declares the property in a way that has this utility.
pub open spec fn has_utility(
    at: SheetTextModel,
    statement: TreeModel,
    property: Seq<char>,
    candidate: Seq<char>,
) -> bool {
    exists|value: Seq<char>| #[trigger]
        declares(at, statement, property, value) && answered(
            at.converter.declarations,
            property,
            value,
            Ok(candidate),
        )
}

/// The last of the first `n` declarations of its property stands at `i`.
pub open spec fn is_last(properties: Seq<Seq<char>>, i: int, n: int) -> bool {
    0 <= i < n && forall|j: int| i < j < n ==> #[trigger] properties[j] != properties[i]
}

/// The pairs are those of the last declaration of each property.
spec fn holds_last(
    local: Seq<(Seq<char>, Seq<char>)>,
    properties: Seq<Seq<char>>,
    candidates: Seq<Seq<char>>,
    n: int,
) -> bool {
    &&& forall|a: int, b: int| 0 <= a < b < local.len() ==> (#[trigger] local[a]).1 != (#[trigger] local[b]).1
    &&& forall|k: int| 0 <= k < local.len() ==> comes_from_last(#[trigger] local[k], properties, candidates, n)
    &&& forall|i: int| #[trigger] is_last(properties, i, n) ==> local.contains((candidates[i], properties[i]))
}

spec fn comes_from_last(
    pair: (Seq<char>, Seq<char>),
    properties: Seq<Seq<char>>,
    candidates: Seq<Seq<char>>,
    n: int,
) -> bool {
    exists|i: int| #[trigger] is_last(properties, i, n) && pair == (candidates[i], properties[i])
}

proof fn lemma_last_wins(list: Seq<(Seq<char>, Seq<char>)>, property: Seq<char>, candidate: Seq<char>, i: int)
    requires
        0 <= i <= list.len(),
        forall|a: int, b: int| 0 <= a < b < list.len() ==> (#[trigger] list[a]).1 != (#[trigger] list[b]).1,
        forall|k: int| 0 <= k < i ==> (#[trigger] list[k]).1 != property,
    ensures
        ({
            let after = last_wins_from(list, property, candidate, i);
            &&& forall|a: int, b: int| 0 <= a < b < after.len() ==> (#[trigger] after[a]).1 != (#[trigger] after[b]).1
            &&& after.contains((candidate, property))
            &&& forall|k: int|
                0 <= k < after.len() ==> #[trigger] after[k] == (candidate, property) || (list.contains(after[k])
                    && after[k].1 != property)
            &&& forall|k: int|
                0 <= k < list.len() && (#[trigger] list[k]).1 != property ==> after.contains(list[k])
        }),
    decreases list.len() - i,
{
    let after = last_wins_from(list, property, candidate, i);
    if i == list.len() {
        assert(after == list.push((candidate, property)));
        assert(after[i] == (candidate, property));
        assert forall|k: int| 0 <= k < after.len() implies #[trigger] after[k] == (candidate, property) || (
        list.contains(after[k]) && after[k].1 != property) by {
            if k < list.len() {
                assert(list[k] == after[k]);
            }
        }
        assert forall|k: int| 0 <= k < list.len() && (#[trigger] list[k]).1 != property implies after.contains(
            list[k],
        ) by {
            assert(after[k] == list[k]);
        }
    } else if list[i].1 == property {
        assert(after == list.update(i, (candidate, property)));
        assert(after[i] == (candidate, property));
        assert forall|k: int| 0 <= k < after.len() implies #[trigger] after[k] == (candidate, property) || (
        list.contains(after[k]) && after[k].1 != property) by {
            if k != i {
                assert(list[k] == after[k]);
                if k < i {
                    assert(list[k].1 != list[i].1);
                } else {
                    assert(list[i].1 != list[k].1);
                }
            }
        }
        assert forall|k: int| 0 <= k < list.len() && (#[trigger] list[k]).1 != property implies after.contains(
            list[k],
        ) by {
            assert(after[k] == list[k]);
        }
        assert forall|a: int, b: int| 0 <= a < b < after.len() implies (#[trigger] after[a]).1 != (
        #[trigger] after[b]).1 by {
            assert(list[a].1 != list[b].1);
        }
    } else {
        lemma_last_wins(list, property, candidate, i + 1);
    }
}

proof fn lemma_gathered(
    at: SheetTextModel,
    owner: TreeModel,
    variants: Seq<Seq<char>>,
    properties: Seq<Seq<char>>,
    candidates: Seq<Seq<char>>,
    n: nat,
)
    requires
        plain_block(at, block_statements(owner), properties, candidates),
        n <= block_statements(owner).len(),
    ensures
        ({
            let known = gathered(at, owner, variants, n);
            &&& known.candidates.len() == 0
            &&& known.margins.len() == 0
            &&& known.paddings.len() == 0
            &&& known.warning is None
            &&& holds_last(known.local, properties, candidates, n as int)
        }),
    decreases n,
{
    let known = gathered(at, owner, variants, n);
    if n > 0 {
        let statements = block_statements(owner);
        let before = gathered(at, owner, variants, (n - 1) as nat);
        let m = n - 1;
        lemma_gathered(at, owner, variants, properties, candidates, m as nat);
        let property = properties[m];
        let candidate = candidates[m];
        assert(has_utility(at, statements[m], property, candidate));
        let value = choose|value: Seq<char>| #[trigger]
            declares(at, statements[m], property, value) && answered(
                at.converter.declarations,
                property,
                value,
                Ok(candidate),
            );
        lemma_declared(at.converter.declarations, property, value, 0);
        lemma_gathered_declaration(at, owner, variants, n);
        assert(known == before.winning(property, candidate));
        lemma_last_wins(before.local, property, candidate, 0);
        assert forall|k: int| 0 <= k < known.local.len() implies comes_from_last(
            #[trigger] known.local[k],
            properties,
            candidates,
            n as int,
        ) by {
            let pair = known.local[k];
            if pair == (candidate, property) {
                assert(is_last(properties, m, n as int));
            } else {
                assert(before.local.contains(pair));
                let j = choose|j: int| 0 <= j < before.local.len() && before.local[j] == pair;
                assert(comes_from_last(before.local[j], properties, candidates, m));
                let i = choose|i: int| #[trigger]
                    is_last(properties, i, m) && pair == (candidates[i], properties[i]);
                assert(is_last(properties, i, n as int));
            }
        }
        assert forall|i: int| #[trigger] is_last(properties, i, n as int) implies known.local.contains(
            (candidates[i], properties[i]),
        ) by {
            if i != m {
                assert(is_last(properties, i, m));
                assert(properties[m] != properties[i]);
                assert(before.local.contains((candidates[i], properties[i])));
                let j = choose|j: int|
                    0 <= j < before.local.len() && before.local[j] == (candidates[i], properties[i]);
                assert(known.local.contains(before.local[j]));
            }
        }
    }
}

// ---------------------------------------------------------------------------
// Candidates with their properties
// ---------------------------------------------------------------------------

/// The list has the candidate.
pub open spec fn has(list: PropertyModels, candidate: Seq<char>) -> bool {
    exists|k: int| 0 <= k < list.len() && (#[trigger] list[k]).0 == candidate
}

/// The candidate sets the property, by the list.
pub open spec fn sets(list: PropertyModels, candidate: Seq<char>, property: Seq<char>) -> bool {
    exists|k: int| 0 <= k < list.len() && (#[trigger] list[k]).0 == candidate && list[k].1.contains(property)
}

spec fn tidy(list: PropertyModels) -> bool {
    &&& forall|a: int, b: int| 0 <= a < b < list.len() ==> (#[trigger] list[a]).0 != (#[trigger] list[b]).0
    &&& forall|k: int| 0 <= k < list.len() ==> ascending((#[trigger] list[k]).1)
}

proof fn lemma_one_name(list: Seq<Seq<char>>, name: Seq<char>)
    requires
        ascending(list),
    ensures
        ascending(with_names(list, seq![name])),
        forall|x: Seq<char>| #[trigger] with_names(list, seq![name]).contains(x) <==> (x == name || list.contains(x)),
{
    naming_keeps_the_order(list, name);
    assert(seq![name].drop_last() =~= Seq::<Seq<char>>::empty());
    assert(with_names(list, seq![name].drop_last()) == list);
}

proof fn lemma_merged(list: PropertyModels, candidate: Seq<char>, property: Seq<char>, i: int)
    requires
        0 <= i <= list.len(),
        tidy(list),
        forall|k: int| 0 <= k < i ==> (#[trigger] list[k]).0 != candidate,
    ensures
        ({
            let after = merged_from(list, candidate, seq![property], i);
            &&& tidy(after)
            &&& forall|x: Seq<char>| #[trigger] has(after, x) <==> has(list, x) || x == candidate
            &&& forall|x: Seq<char>, q: Seq<char>| #[trigger]
                sets(after, x, q) <==> sets(list, x, q) || (x == candidate && q == property)
        }),
    decreases list.len() - i,
{
    let after = merged_from(list, candidate, seq![property], i);
    let none = Seq::<Seq<char>>::empty();
    if i == list.len() {
        lemma_one_name(none, property);
        let entry = (candidate, with_names(none, seq![property]));
        assert(after == list.push(entry));
        assert(after[i] == entry);
        assert forall|x: Seq<char>| #[trigger] has(after, x) <==> has(list, x) || x == candidate by {
            if has(list, x) {
                let k = choose|k: int| 0 <= k < list.len() && (#[trigger] list[k]).0 == x;
                assert(after[k].0 == x);
            }
            if has(after, x) {
                let k = choose|k: int| 0 <= k < after.len() && (#[trigger] after[k]).0 == x;
                if k < i {
                    assert(list[k].0 == x);
                }
            }
        }
        assert forall|x: Seq<char>, q: Seq<char>| #[trigger] sets(after, x, q) <==> sets(list, x, q) || (x == candidate
            && q == property) by {
            if sets(list, x, q) {
                let k = choose|k: int| 0 <= k < list.len() && (#[trigger] list[k]).0 == x && list[k].1.contains(q);
                assert(after[k].0 == x);
            }
            if x == candidate && q == property {
                assert(entry.1.contains(property));
            }
            if sets(after, x, q) {
                let k = choose|k: int| 0 <= k < after.len() && (#[trigger] after[k]).0 == x && after[k].1.contains(q);
                if k < i {
                    assert(list[k].0 == x);
                } else {
                    assert(entry.1.contains(q));
                    assert(!none.contains(q));
                }
            }
        }
        assert(tidy(after)) by {
            assert forall|a: int, b: int| 0 <= a < b < after.len() implies (#[trigger] after[a]).0 != (
            #[trigger] after[b]).0 by {
                if b == i {
                    assert(list[a].0 != candidate);
                } else {
                    assert(list[a].0 != list[b].0);
                }
            }
            assert forall|k: int| 0 <= k < after.len() implies ascending((#[trigger] after[k]).1) by {
                if k < i {
                    assert(ascending(list[k].1));
                }
            }
        }
    } else if list[i].0 == candidate {
        lemma_one_name(list[i].1, property);
        let entry = (candidate, with_names(list[i].1, seq![property]));
        assert(after == list.update(i, entry));
        assert(after[i] == entry);
        assert forall|x: Seq<char>| #[trigger] has(after, x) <==> has(list, x) || x == candidate by {
            if has(list, x) {
                let k = choose|k: int| 0 <= k < list.len() && (#[trigger] list[k]).0 == x;
                assert(after[k].0 == x);
            }
            if has(after, x) {
                let k = choose|k: int| 0 <= k < after.len() && (#[trigger] after[k]).0 == x;
                assert(list[k].0 == x);
            }
        }
        assert forall|x: Seq<char>, q: Seq<char>| #[trigger] sets(after, x, q) <==> sets(list, x, q) || (x == candidate
            && q == property) by {
            if sets(list, x, q) {
                let k = choose|k: int| 0 <= k < list.len() && (#[trigger] list[k]).0 == x && list[k].1.contains(q);
                assert(after[k].0 == x);
                if k == i {
                    assert(entry.1.contains(q));
                }
            }
            if x == candidate && q == property {
                assert(entry.1.contains(property));
            }
            if sets(after, x, q) {
                let k = choose|k: int| 0 <= k < after.len() && (#[trigger] after[k]).0 == x && after[k].1.contains(q);
                assert(list[k].0 == x);
                if k == i {
                    assert(entry.1.contains(q));
                }
            }
        }
        assert(tidy(after)) by {
            assert forall|a: int, b: int| 0 <= a < b < after.len() implies (#[trigger] after[a]).0 != (
            #[trigger] after[b]).0 by {
                assert(list[a].0 != list[b].0);
            }
            assert forall|k: int| 0 <= k < after.len() implies ascending((#[trigger] after[k]).1) by {
                if k != i {
                    assert(ascending(list[k].1));
                }
            }
        }
    } else {
        lemma_merged(list, candidate, property, i + 1);
    }
}

proof fn lemma_local(local: Seq<(Seq<char>, Seq<char>)>, n: int)
    requires
        0 <= n <= local.len(),
    ensures
        ({
            let list = local_merged(seq![], local, n);
            &&& tidy(list)
            &&& forall|x: Seq<char>| #[trigger]
                has(list, x) <==> exists|k: int| 0 <= k < n && (#[trigger] local[k]).0 == x
            &&& forall|x: Seq<char>, q: Seq<char>| #[trigger]
                sets(list, x, q) <==> exists|k: int| 0 <= k < n && #[trigger] local[k] == (x, q)
        }),
    decreases n,
{
    let list = local_merged(seq![], local, n);
    if n > 0 {
        lemma_local(local, n - 1);
        let before = local_merged(seq![], local, n - 1);
        let pair = local[n - 1];
        lemma_merged(before, pair.0, pair.1, 0);
        assert forall|x: Seq<char>| #[trigger] has(list, x) <==> exists|k: int|
            0 <= k < n && (#[trigger] local[k]).0 == x by {
            if has(before, x) {
                let k = choose|k: int| 0 <= k < n - 1 && (#[trigger] local[k]).0 == x;
                assert(local[k].0 == x);
            }
            if exists|k: int| 0 <= k < n && (#[trigger] local[k]).0 == x {
                let k = choose|k: int| 0 <= k < n && (#[trigger] local[k]).0 == x;
                if k < n - 1 {
                    assert(local[k].0 == x);
                    assert(has(before, x));
                }
            }
        }
        assert forall|x: Seq<char>, q: Seq<char>| #[trigger] sets(list, x, q) <==> exists|k: int|
            0 <= k < n && #[trigger] local[k] == (x, q) by {
            if sets(before, x, q) {
                let k = choose|k: int| 0 <= k < n - 1 && #[trigger] local[k] == (x, q);
                assert(local[k] == (x, q));
            }
            if exists|k: int| 0 <= k < n && #[trigger] local[k] == (x, q) {
                let k = choose|k: int| 0 <= k < n && #[trigger] local[k] == (x, q);
                if k < n - 1 {
                    assert(local[k] == (x, q));
                    assert(sets(before, x, q));
                }
            }
        }
    }
}

/// The candidate behind the variants.
pub open spec fn prefixed(variants: Seq<Seq<char>>, candidate: Seq<char>) -> Seq<char> {
    if variants.len() == 0 {
        candidate
    } else {
        joined(variants, seq![':']) + seq![':'] + candidate
    }
}

pub proof fn lemma_varied(list: PropertyModels, variants: Seq<Seq<char>>)
    ensures
        varied(list, variants).len() == list.len(),
        forall|k: int|
            0 <= k < list.len() ==> #[trigger] varied(list, variants)[k] == (prefixed(variants, list[k].0), list[k].1),
{
    reveal_strlit(":");
    assert(":"@ =~= seq![':']);
}

proof fn lemma_all_names(list: Seq<Seq<char>>, more: Seq<Seq<char>>)
    requires
        ascending(list),
    ensures
        ascending(with_names(list, more)),
        forall|x: Seq<char>| #[trigger] with_names(list, more).contains(x) <==> (list.contains(x) || more.contains(x)),
    decreases more.len(),
{
    if more.len() > 0 {
        let rest = more.drop_last();
        lemma_all_names(list, rest);
        let before = with_names(list, rest);
        naming_keeps_the_order(before, more.last());
        assert forall|x: Seq<char>| #[trigger] with_names(list, more).contains(x) <==> (list.contains(x)
            || more.contains(x)) by {
            if more.contains(x) {
                let k = choose|k: int| 0 <= k < more.len() && more[k] == x;
                if k < rest.len() {
                    assert(rest[k] == x);
                }
            }
            if rest.contains(x) {
                let k = choose|k: int| 0 <= k < rest.len() && rest[k] == x;
                assert(more[k] == x);
            }
            if x == more.last() {
                assert(more[more.len() - 1] == x);
            }
        }
    }
}

/// Naming a list puts every text of it in its place, once, and no other.
pub proof fn naming_a_list_names_its_texts(list: Seq<Seq<char>>, more: Seq<Seq<char>>)
    requires
        ascending(list),
    ensures
        ascending(with_names(list, more)),
        forall|x: Seq<char>| #[trigger] with_names(list, more).contains(x) <==> (list.contains(x) || more.contains(x)),
{
    lemma_all_names(list, more);
}

/// The variants of the conditions round a rule, and that of its own selector.
pub open spec fn all_variants(at: SheetTextModel, rule: TreeModel, variants: Seq<Seq<char>>) -> Seq<Seq<char>> {
    match rule_match(rule, at.source, at.is_module) {
        Some((_, Some(variant))) => variants.push(variant),
        _ => variants,
    }
}

/// Some last declaration of a property comes to the candidate.
pub open spec fn is_declared(
    properties: Seq<Seq<char>>,
    candidates: Seq<Seq<char>>,
    variants: Seq<Seq<char>>,
    candidate: Seq<char>,
) -> bool {
    exists|i: int| #[trigger]
        is_last(properties, i, properties.len() as int) && candidate == prefixed(variants, candidates[i])
}

/// The declarations of a rule become its candidates: where every declaration has
/// a utility, the rule has the utility of the last declaration of each property,
/// behind the variants of the rule, and no other. Each is known to set that
/// property. A rule whose selector has a match then carries no warning but that
/// its class is composed elsewhere.
pub proof fn declarations_become_their_candidates(
    at: SheetTextModel,
    composed: Seq<Seq<char>>,
    rule: TreeModel,
    variants: Seq<Seq<char>>,
    properties: Seq<Seq<char>>,
    candidates: Seq<Seq<char>>,
)
    requires
        plain_block(at, block_statements(rule), properties, candidates),
        block_statements(rule).len() > 0,
    ensures
        ({
            let plan = style_plan(at, composed, rule, variants);
            let behind = all_variants(at, rule, variants);
            let found = rule_match(rule, at.source, at.is_module);
            &&& ascending(plan.candidates)
            &&& forall|x: Seq<char>| #[trigger]
                plan.candidates.contains(x) <==> is_declared(properties, candidates, behind, x)
            &&& forall|i: int| #[trigger]
                is_last(properties, i, properties.len() as int) ==> sets(
                    plan.candidate_properties,
                    prefixed(behind, candidates[i]),
                    properties[i],
                )
            &&& plan.warning == match found {
                None => Some("unsupported-selector"@),
                Some((KeyModel::Class(name), _)) => if composed.contains(name) {
                    Some("css-module-composes"@)
                } else {
                    None
                },
                Some(_) => None,
            }
        }),
{
    let plan = style_plan(at, composed, rule, variants);
    let behind = all_variants(at, rule, variants);
    let statements = block_statements(rule);
    let n = statements.len();
    let known = gathered(at, rule, behind, n);
    lemma_gathered(at, rule, behind, properties, candidates, n);
    assert(!any_spacing(statements)) by {
        assert forall|i: int| 0 <= i < statements.len() implies !crate::css_plan::declares_spacing(
            #[trigger] statements[i],
        ) by {
            assert(has_utility(at, statements[i], properties[i], candidates[i]));
            let value = choose|value: Seq<char>| #[trigger]
                declares(at, statements[i], properties[i], value) && answered(
                    at.converter.declarations,
                    properties[i],
                    value,
                    Ok(candidates[i]),
                );
        }
    }
    let spacing = block_spacing(at, rule);
    let none = Seq::<Seq<char>>::empty();
    assert(spacing.margin == Some(none) && spacing.padding == Some(none));
    let margins = spacing_merged(known, spacing.margin, known.margins);
    assert(margins.candidates == merged_with(known.candidates, none, known.margins, 0));
    assert(margins == known);
    assert(spacing_merged(margins, spacing.padding, known.paddings) == known);
    assert(known.candidates =~= seq![]);
    let list = local_merged(seq![], known.local, known.local.len() as int);
    lemma_local(known.local, known.local.len() as int);
    let all = varied(list, behind);
    lemma_varied(list, behind);
    assert(candidates_in(at, rule, behind).0 == all);
    let names = all.map_values(|entry: (Seq<char>, Seq<Seq<char>>)| entry.0);
    lemma_all_names(none, names);
    assert forall|x: Seq<char>| #[trigger] plan.candidates.contains(x) <==> is_declared(
        properties,
        candidates,
        behind,
        x,
    ) by {
        assert(plan.candidates.contains(x) <==> names.contains(x));
        if names.contains(x) {
            let k = choose|k: int| 0 <= k < names.len() && names[k] == x;
            assert(all[k].0 == x);
            assert(has(list, list[k].0));
            let j = choose|j: int| 0 <= j < known.local.len() && (#[trigger] known.local[j]).0 == list[k].0;
            assert(comes_from_last(known.local[j], properties, candidates, n as int));
            let i = choose|i: int| #[trigger]
                is_last(properties, i, n as int) && known.local[j] == (candidates[i], properties[i]);
            assert(is_last(properties, i, properties.len() as int));
        }
        if is_declared(properties, candidates, behind, x) {
            let i = choose|i: int| #[trigger]
                is_last(properties, i, properties.len() as int) && x == prefixed(behind, candidates[i]);
            assert(known.local.contains((candidates[i], properties[i])));
            let j = choose|j: int|
                0 <= j < known.local.len() && known.local[j] == (candidates[i], properties[i]);
            assert(known.local[j].0 == candidates[i]);
            assert(has(list, candidates[i]));
            let k = choose|k: int| 0 <= k < list.len() && (#[trigger] list[k]).0 == candidates[i];
            assert(all[k].0 == x);
            assert(names[k] == x);
        }
    }
    assert forall|i: int| #[trigger] is_last(properties, i, properties.len() as int) implies sets(
        plan.candidate_properties,
        prefixed(behind, candidates[i]),
        properties[i],
    ) by {
        assert(known.local.contains((candidates[i], properties[i])));
        let j = choose|j: int| 0 <= j < known.local.len() && known.local[j] == (candidates[i], properties[i]);
        assert(known.local[j] == (candidates[i], properties[i]));
        assert(sets(list, candidates[i], properties[i]));
        let k = choose|k: int|
            0 <= k < list.len() && (#[trigger] list[k]).0 == candidates[i] && list[k].1.contains(properties[i]);
        assert(all[k] == (prefixed(behind, candidates[i]), list[k].1));
    }
    assert(is_last(properties, n - 1, n as int));
    assert(known.local.contains((candidates[n - 1], properties[n - 1])));
    assert(list.len() > 0) by {
        let j = choose|j: int|
            0 <= j < known.local.len() && known.local[j] == (candidates[n - 1], properties[n - 1]);
        assert(known.local[j].0 == candidates[n - 1]);
        assert(has(list, candidates[n - 1]));
    }
    assert(candidates_in(at, rule, behind).1 is None);
}

// ---------------------------------------------------------------------------
// Rules that stay
// ---------------------------------------------------------------------------

/// The statement has no utility: an important declaration, one whose name is
/// not written out, one that composes classes, one that no utility is known
/// for, or something that is neither a declaration nor an at-rule.
pub open spec fn unsupported(at: SheetTextModel, statement: TreeModel) -> bool {
    let name = ident_name(field(statement, "name"@));
    if of_kind(statement, "Declaration"@) {
        ||| present(field(statement, "important"@))
        ||| name is None
        ||| name == Some("composes"@)
        ||| exists|property: Seq<char>, value: Seq<char>| #[trigger]
            declares(at, statement, property, value) && unanswered(at.converter.declarations, property, value)
        ||| exists|property: Seq<char>, value: Seq<char>, code: Seq<char>| #[trigger]
            refused(at, statement, property, value, code)
    } else {
        !of_kind(statement, "AtRule"@)
    }
}

/// The table refuses the declaration.
pub open spec fn refused(
    at: SheetTextModel,
    statement: TreeModel,
    property: Seq<char>,
    value: Seq<char>,
    code: Seq<char>,
) -> bool {
    declares(at, statement, property, value) && answered(at.converter.declarations, property, value, Err(code))
}

proof fn lemma_unsupported(at: SheetTextModel, owner: TreeModel, variants: Seq<Seq<char>>, i: int, n: nat)
    requires
        0 <= i < n <= block_statements(owner).len(),
        unsupported(at, block_statements(owner)[i]),
    ensures
        gathered(at, owner, variants, n).warning is Some,
    decreases n,
{
    let statements = block_statements(owner);
    if i < n - 1 {
        lemma_unsupported(at, owner, variants, i, (n - 1) as nat);
        lemma_gathered_warning(at, owner, variants, n);
    } else if of_kind(statements[i], "Declaration"@) {
        lemma_gathered_declaration(at, owner, variants, n);
        let statement = statements[i];
        if exists|property: Seq<char>, value: Seq<char>| #[trigger]
            declares(at, statement, property, value) && unanswered(at.converter.declarations, property, value) {
            let (property, value) = choose|property: Seq<char>, value: Seq<char>| #[trigger]
                declares(at, statement, property, value) && unanswered(at.converter.declarations, property, value);
            lemma_declared(at.converter.declarations, property, value, 0);
        }
        if exists|property: Seq<char>, value: Seq<char>, code: Seq<char>| #[trigger]
            refused(at, statement, property, value, code) {
            let (property, value, code) = choose|property: Seq<char>, value: Seq<char>, code: Seq<char>| #[trigger]
                refused(at, statement, property, value, code);
            lemma_declared(at.converter.declarations, property, value, 0);
        }
    } else {
        lemma_gathered_warning(at, owner, variants, n);
    }
}

/// A rule with something that has no utility stays: it carries a warning.
pub proof fn unsupported_declarations_keep_the_rule(
    at: SheetTextModel,
    composed: Seq<Seq<char>>,
    rule: TreeModel,
    variants: Seq<Seq<char>>,
    i: int,
)
    requires
        0 <= i < block_statements(rule).len(),
        unsupported(at, block_statements(rule)[i]),
    ensures
        style_plan(at, composed, rule, variants).warning is Some,
{
    let behind = all_variants(at, rule, variants);
    lemma_unsupported(at, rule, behind, i, block_statements(rule).len());
}

} // verus!
