//! What the blocks of rules come to.
use crate::css::{block_statements, css_span, ident_name, in_block};
use crate::css_plan::{
    all_merged, any_spacing, block_candidates, block_spacing, candidates_in, composed_by, composed_classes,
    composed_words, condition_variant, declares_spacing, gathered, lemma_gathered_declaration, local_merged,
    merged_from, merged_with, part, spacing_from, spacing_merged, style_plan, varied, with_declaration, written_value,
    GatheredModel, SheetTextModel, Spaced, SpacingModel,
};
use crate::declaration_laws::{all_variants, has, lemma_varied, prefixed};
use crate::names::{ascending, with_names};
use crate::rule_laws::lemma_all_named;
use crate::rules::PropertyModels;
use crate::syntax::{field, of_kind};
use crate::text::{words, Separator};
use crate::tree::TreeModel;
use vstd::prelude::*;

verus! {

proof fn lemma_kinds()
    ensures
        "QualifiedRule"@ != "AtRule"@,
        "QualifiedRule"@ != "Declaration"@,
        "AtRule"@ != "Declaration"@,
{
    reveal_strlit("QualifiedRule");
    reveal_strlit("AtRule");
    reveal_strlit("Declaration");
    assert("QualifiedRule"@.len() != "AtRule"@.len());
    assert("QualifiedRule"@.len() != "Declaration"@.len());
    assert("AtRule"@.len() != "Declaration"@.len());
}

// ---------------------------------------------------------------------------
// Merging
// ---------------------------------------------------------------------------

proof fn lemma_has_merged(list: PropertyModels, candidate: Seq<char>, properties: Seq<Seq<char>>, i: int)
    requires
        0 <= i <= list.len(),
    ensures
        forall|x: Seq<char>| #[trigger]
            has(merged_from(list, candidate, properties, i), x) <==> has(list, x) || x == candidate,
    decreases list.len() - i,
{
    let after = merged_from(list, candidate, properties, i);
    if i >= list.len() || list[i].0 == candidate {
        assert forall|x: Seq<char>| #[trigger] has(after, x) <==> has(list, x) || x == candidate by {
            if has(list, x) {
                let k = choose|k: int| 0 <= k < list.len() && (#[trigger] list[k]).0 == x;
                assert(after[k].0 == x);
            }
            if x == candidate {
                assert(after[i].0 == x);
            }
            if has(after, x) {
                let k = choose|k: int| 0 <= k < after.len() && (#[trigger] after[k]).0 == x;
                if k < list.len() {
                    assert(list[k].0 == x);
                }
            }
        }
    } else {
        lemma_has_merged(list, candidate, properties, i + 1);
        assert(after == merged_from(list, candidate, properties, i + 1));
    }
}

proof fn lemma_has_all(list: PropertyModels, more: PropertyModels, n: int)
    requires
        0 <= n <= more.len(),
    ensures
        forall|x: Seq<char>| has(list, x) ==> #[trigger] has(all_merged(list, more, n), x),
        forall|k: int| 0 <= k < n ==> has(all_merged(list, more, n), (#[trigger] more[k]).0),
    decreases n,
{
    if n > 0 {
        lemma_has_all(list, more, n - 1);
        lemma_has_merged(all_merged(list, more, n - 1), more[n - 1].0, more[n - 1].1, 0);
    }
}

proof fn lemma_has_with(list: PropertyModels, candidates: Seq<Seq<char>>, properties: Seq<Seq<char>>, n: int)
    requires
        0 <= n <= candidates.len(),
    ensures
        forall|x: Seq<char>| has(list, x) ==> #[trigger] has(merged_with(list, candidates, properties, n), x),
        forall|k: int| 0 <= k < n ==> has(merged_with(list, candidates, properties, n), #[trigger] candidates[k]),
    decreases n,
{
    if n > 0 {
        lemma_has_with(list, candidates, properties, n - 1);
        lemma_has_merged(merged_with(list, candidates, properties, n - 1), candidates[n - 1], properties, 0);
    }
}

proof fn lemma_has_local(list: PropertyModels, local: Seq<(Seq<char>, Seq<char>)>, n: int)
    requires
        0 <= n <= local.len(),
    ensures
        forall|x: Seq<char>| has(list, x) ==> #[trigger] has(local_merged(list, local, n), x),
        forall|k: int| 0 <= k < n ==> has(local_merged(list, local, n), (#[trigger] local[k]).0),
    decreases n,
{
    if n > 0 {
        lemma_has_local(list, local, n - 1);
        lemma_has_merged(local_merged(list, local, n - 1), local[n - 1].0, seq![local[n - 1].1], 0);
    }
}

proof fn lemma_varied_has(list: PropertyModels, variants: Seq<Seq<char>>, x: Seq<char>)
    requires
        has(list, x),
    ensures
        has(varied(list, variants), prefixed(variants, x)),
{
    let k = choose|k: int| 0 <= k < list.len() && (#[trigger] list[k]).0 == x;
    let after = varied(list, variants);
    lemma_varied(list, variants);
    assert(after[k].0 == prefixed(variants, x));
}

proof fn lemma_block_has(known: GatheredModel, spacing: SpacingModel, variants: Seq<Seq<char>>, x: Seq<char>)
    requires
        has(known.candidates, x) || (spacing.margin matches Some(list) && list.contains(x)) || (
        spacing.padding matches Some(list) && list.contains(x)) || (exists|k: int|
            0 <= k < known.local.len() && (#[trigger] known.local[k]).0 == x),
    ensures
        has(block_candidates(known, spacing, variants).0, prefixed(variants, x)),
{
    let margins = spacing_merged(known, spacing.margin, known.margins);
    let paddings = spacing_merged(margins, spacing.padding, known.paddings);
    if let Some(list) = spacing.margin {
        lemma_has_with(known.candidates, list, known.margins, list.len() as int);
        if list.contains(x) {
            let k = choose|k: int| 0 <= k < list.len() && list[k] == x;
            assert(has(margins.candidates, list[k]));
        }
    }
    if has(known.candidates, x) {
        assert(has(margins.candidates, x));
    }
    if let Some(list) = spacing.padding {
        lemma_has_with(margins.candidates, list, known.paddings, list.len() as int);
        if list.contains(x) {
            let k = choose|k: int| 0 <= k < list.len() && list[k] == x;
            assert(has(paddings.candidates, list[k]));
        }
    }
    if has(margins.candidates, x) {
        assert(has(paddings.candidates, x));
    }
    lemma_has_local(paddings.candidates, known.local, known.local.len() as int);
    let all = local_merged(paddings.candidates, known.local, known.local.len() as int);
    if exists|k: int| 0 <= k < known.local.len() && (#[trigger] known.local[k]).0 == x {
        let k = choose|k: int| 0 <= k < known.local.len() && (#[trigger] known.local[k]).0 == x;
        assert(has(all, known.local[k].0));
    }
    assert(has(all, x));
    lemma_varied_has(all, variants, x);
}

// ---------------------------------------------------------------------------
// Blocks
// ---------------------------------------------------------------------------

proof fn lemma_gathered_stays(at: SheetTextModel, owner: TreeModel, variants: Seq<Seq<char>>, k: nat, n: nat)
    requires
        k <= n <= block_statements(owner).len(),
    ensures
        forall|x: Seq<char>| has(gathered(at, owner, variants, k).candidates, x) ==> #[trigger] has(
            gathered(at, owner, variants, n).candidates,
            x,
        ),
        gathered(at, owner, variants, k).warning is Some ==> gathered(at, owner, variants, n).warning is Some,
    decreases n - k,
{
    if k < n {
        lemma_gathered_stays(at, owner, variants, k, (n - 1) as nat);
        let known = gathered(at, owner, variants, (n - 1) as nat);
        let statement = block_statements(owner)[n - 1];
        if of_kind(statement, "AtRule"@) {
            if let Some(variant) = condition_variant(at, statement) {
                let inside = block_candidates(
                    gathered(at, statement, variants.push(variant), block_statements(statement).len()),
                    block_spacing(at, statement),
                    variants.push(variant),
                );
                lemma_has_all(known.candidates, inside.0, inside.0.len() as int);
            }
        }
    }
}

proof fn lemma_plan_has(at: SheetTextModel, composed: Seq<Seq<char>>, rule: TreeModel, variants: Seq<Seq<char>>, x: Seq<char>)
    requires
        has(candidates_in(at, rule, all_variants(at, rule, variants)).0, x),
    ensures
        style_plan(at, composed, rule, variants).candidates.contains(x),
{
    let list = candidates_in(at, rule, all_variants(at, rule, variants)).0;
    let names = list.map_values(|entry: (Seq<char>, Seq<Seq<char>>)| entry.0);
    let k = choose|k: int| 0 <= k < list.len() && (#[trigger] list[k]).0 == x;
    assert(names[k] == x);
    let none = Seq::<Seq<char>>::empty();
    lemma_all_named(none, names);
    assert(with_names(none, names).contains(x));
}

/// The candidates of a conditional block inside a rule are among the rule's,
/// behind the variants of both.
pub proof fn nested_blocks_keep_their_candidates(
    at: SheetTextModel,
    composed: Seq<Seq<char>>,
    rule: TreeModel,
    variants: Seq<Seq<char>>,
    i: int,
    variant: Seq<char>,
    x: Seq<char>,
)
    requires
        0 <= i < block_statements(rule).len(),
        of_kind(block_statements(rule)[i], "AtRule"@),
        condition_variant(at, block_statements(rule)[i]) == Some(variant),
        has(candidates_in(at, block_statements(rule)[i], all_variants(at, rule, variants).push(variant)).0, x),
    ensures
        style_plan(at, composed, rule, variants).candidates.contains(prefixed(all_variants(at, rule, variants), x)),
{
    let behind = all_variants(at, rule, variants);
    let statement = block_statements(rule)[i];
    let n = block_statements(rule).len();
    let inside = candidates_in(at, statement, behind.push(variant)).0;
    let before = gathered(at, rule, behind, i as nat);
    crate::css_plan::lemma_stands_in(rule, i);
    lemma_has_all(before.candidates, inside, inside.len() as int);
    let k = choose|k: int| 0 <= k < inside.len() && (#[trigger] inside[k]).0 == x;
    let after = gathered(at, rule, behind, (i + 1) as nat);
    assert(after.candidates == all_merged(before.candidates, inside, inside.len() as int));
    assert(has(after.candidates, inside[k].0));
    lemma_gathered_stays(at, rule, behind, (i + 1) as nat, n);
    let known = gathered(at, rule, behind, n);
    assert(has(known.candidates, x));
    lemma_block_has(known, block_spacing(at, rule), behind, x);
    lemma_plan_has(at, composed, rule, variants, prefixed(behind, x));
}

/// A conditional block inside a rule that does not convert keeps the rule.
pub proof fn nested_blocks_keep_their_warnings(
    at: SheetTextModel,
    composed: Seq<Seq<char>>,
    rule: TreeModel,
    variants: Seq<Seq<char>>,
    i: int,
)
    requires
        0 <= i < block_statements(rule).len(),
        of_kind(block_statements(rule)[i], "AtRule"@),
        match condition_variant(at, block_statements(rule)[i]) {
            Some(variant) => candidates_in(
                at,
                block_statements(rule)[i],
                all_variants(at, rule, variants).push(variant),
            ).1 is Some,
            None => true,
        },
    ensures
        style_plan(at, composed, rule, variants).warning is Some,
{
    let behind = all_variants(at, rule, variants);
    let statement = block_statements(rule)[i];
    let n = block_statements(rule).len();
    if condition_variant(at, statement) is Some {
        crate::css_plan::lemma_stands_in(rule, i);
    }
    assert(gathered(at, rule, behind, (i + 1) as nat).warning is Some);
    lemma_gathered_stays(at, rule, behind, (i + 1) as nat, n);
}

/// What is known of the block's margins and paddings: the first entry for its
/// text.
pub open spec fn knows_spacing(list: Seq<SpacingModel>, css: Seq<char>, spacing: SpacingModel) -> bool {
    exists|i: int|
        0 <= i < list.len() && #[trigger] list[i] == spacing && spacing.css == css && forall|j: int|
            0 <= j < i ==> (#[trigger] list[j]).css != css
}

proof fn lemma_spacing(list: Seq<SpacingModel>, css: Seq<char>, spacing: SpacingModel, i: int, k: int)
    requires
        0 <= i <= k < list.len(),
        list[k] == spacing,
        spacing.css == css,
        forall|j: int| 0 <= j < k ==> (#[trigger] list[j]).css != css,
    ensures
        spacing_from(list, css, i) == spacing,
    decreases k - i,
{
    if i < k {
        lemma_spacing(list, css, spacing, i + 1, k);
    }
}

/// The property is a margin or a padding.
pub open spec fn spaces(statement: TreeModel) -> bool {
    of_kind(statement, "Declaration"@) && (ident_name(field(statement, "name"@)) matches Some(property) && (property
        == "margin"@ || property == "padding"@ || crate::text::begins(property, "margin-"@) || crate::text::begins(
        property,
        "padding-"@,
    )))
}

/// Margins and paddings become their utilities: where a block declares any, all
/// utilities that are known for it are candidates, behind the variants. The rule
/// stays where they have none, or where one of them overlaps another.
pub proof fn spacings_become_their_utilities(
    at: SheetTextModel,
    composed: Seq<Seq<char>>,
    rule: TreeModel,
    variants: Seq<Seq<char>>,
    spacing: SpacingModel,
    i: int,
)
    requires
        0 <= i < block_statements(rule).len(),
        spaces(block_statements(rule)[i]),
        ({
            let span = css_span(field(rule, "block"@));
            knows_spacing(at.converter.spacings, part(at.source, span.0 as int, span.1 as int), spacing)
        }),
    ensures
        ({
            let plan = style_plan(at, composed, rule, variants);
            let behind = all_variants(at, rule, variants);
            &&& spacing.margin matches Some(list) ==> forall|x: Seq<char>| #[trigger]
                list.contains(x) ==> plan.candidates.contains(prefixed(behind, x))
            &&& spacing.padding matches Some(list) ==> forall|x: Seq<char>| #[trigger]
                list.contains(x) ==> plan.candidates.contains(prefixed(behind, x))
            &&& spacing.margin is None || spacing.padding is None ==> plan.warning is Some
            &&& i < spacing.results.len() && spacing.results[i] == Spaced::Overlaps ==> plan.warning is Some
        }),
{
    lemma_kinds();
    let behind = all_variants(at, rule, variants);
    let n = block_statements(rule).len();
    let span = css_span(field(rule, "block"@));
    let css = part(at.source, span.0 as int, span.1 as int);
    let list = at.converter.spacings;
    let k = choose|k: int|
        0 <= k < list.len() && #[trigger] list[k] == spacing && spacing.css == css && forall|j: int|
            0 <= j < k ==> (#[trigger] list[j]).css != css;
    lemma_spacing(list, css, spacing, 0, k);
    assert(declares_spacing(block_statements(rule)[i]));
    assert(any_spacing(block_statements(rule)));
    assert(block_spacing(at, rule) == spacing);
    let known = gathered(at, rule, behind, n);
    if let Some(list) = spacing.margin {
        assert forall|x: Seq<char>| #[trigger] list.contains(x) implies style_plan(
            at,
            composed,
            rule,
            variants,
        ).candidates.contains(prefixed(behind, x)) by {
            lemma_block_has(known, spacing, behind, x);
            lemma_plan_has(at, composed, rule, variants, prefixed(behind, x));
        }
    }
    if let Some(list) = spacing.padding {
        assert forall|x: Seq<char>| #[trigger] list.contains(x) implies style_plan(
            at,
            composed,
            rule,
            variants,
        ).candidates.contains(prefixed(behind, x)) by {
            lemma_block_has(known, spacing, behind, x);
            lemma_plan_has(at, composed, rule, variants, prefixed(behind, x));
        }
    }
    if i < spacing.results.len() && spacing.results[i] == Spaced::Overlaps {
        lemma_spaced(at, rule, behind, spacing, i);
        lemma_gathered_stays(at, rule, behind, (i + 1) as nat, n);
    }
}

proof fn lemma_spaced(at: SheetTextModel, owner: TreeModel, variants: Seq<Seq<char>>, spacing: SpacingModel, i: int)
    requires
        0 <= i < block_statements(owner).len(),
        spaces(block_statements(owner)[i]),
        block_spacing(at, owner) == spacing,
        i < spacing.results.len(),
        spacing.results[i] == Spaced::Overlaps,
    ensures
        gathered(at, owner, variants, (i + 1) as nat).warning is Some,
{
    lemma_kinds();
    reveal_strlit("margin");
    reveal_strlit("padding");
    reveal_strlit("margin-");
    reveal_strlit("padding-");
    reveal_strlit("composes");
    reveal_strlit("animation");
    reveal_strlit("animation-name");
    let statement = block_statements(owner)[i];
    let property = ident_name(field(statement, "name"@))->0;
    assert("composes"@[0] == 'c');
    assert("animation"@[0] == 'a');
    assert("animation-name"@[0] == 'a');
    assert("margin"@[0] == 'm' && "padding"@[0] == 'p');
    assert("margin-"@[0] == 'm' && "padding-"@[0] == 'p');
    assert(property[0] == 'm' || property[0] == 'p') by {
        if crate::text::begins(property, "margin-"@) {
            assert(property.take("margin-"@.len() as int)[0] == 'm');
        }
        if crate::text::begins(property, "padding-"@) {
            assert(property.take("padding-"@.len() as int)[0] == 'p');
        }
    }
    let before = gathered(at, owner, variants, i as nat);
    lemma_gathered_declaration(at, owner, variants, (i + 1) as nat);
    assert(gathered(at, owner, variants, (i + 1) as nat) == with_declaration(
        at,
        statement,
        crate::css_plan::spaced_at(spacing, i),
        before,
    ));
}

// ---------------------------------------------------------------------------
// Composed classes
// ---------------------------------------------------------------------------

proof fn lemma_composed_words(list: Seq<Seq<char>>, i: int, k: int)
    requires
        0 <= i <= k < list.len(),
        forall|j: int| 0 <= j <= k ==> #[trigger] list[j] != "from"@,
    ensures
        composed_words(list, i).contains(list[k]),
    decreases k - i,
{
    let rest = composed_words(list, i + 1);
    let all = composed_words(list, i);
    assert(all == seq![list[i]] + rest);
    if i == k {
        assert(all[0] == list[k]);
    } else {
        lemma_composed_words(list, i + 1, k);
        let m = choose|m: int| 0 <= m < rest.len() && rest[m] == list[k];
        assert(all[m + 1] == list[k]);
    }
}

proof fn lemma_composed_by(source: Seq<char>, statements: Seq<TreeModel>, known: Seq<Seq<char>>, n: int)
    requires
        0 <= n <= statements.len(),
        ascending(known),
    ensures
        ascending(composed_by(source, statements, known, n)),
        forall|x: Seq<char>| known.contains(x) ==> #[trigger] composed_by(source, statements, known, n).contains(x),
        forall|i: int, x: Seq<char>|
            0 <= i < n && #[trigger] composes(source, statements[i], x) ==> composed_by(source, statements, known, n).contains(
                x,
            ),
    decreases n,
{
    if n > 0 {
        lemma_composed_by(source, statements, known, n - 1);
        let before = composed_by(source, statements, known, n - 1);
        let declaration = statements[n - 1];
        let list = words(written_value(source, declaration), Separator::Whitespace);
        lemma_all_named(before, composed_words(list, 0));
        assert forall|i: int, x: Seq<char>| 0 <= i < n && #[trigger] composes(source, statements[i], x) implies composed_by(
            source,
            statements,
            known,
            n,
        ).contains(x) by {
            if i == n - 1 {
                let k = choose|k: int|
                    0 <= k < list.len() && #[trigger] list[k] == x && forall|j: int| 0 <= j <= k ==> list[j] != "from"@;
                lemma_composed_words(list, 0, k);
            }
        }
    }
}

/// The declaration composes the class: its name is among the words before
/// `from`.
pub open spec fn composes(source: Seq<char>, declaration: TreeModel, class: Seq<char>) -> bool {
    let list = words(written_value(source, declaration), Separator::Whitespace);
    of_kind(declaration, "Declaration"@) && ident_name(field(declaration, "name"@)) == Some("composes"@) && exists|k: int|
        0 <= k < list.len() && #[trigger] list[k] == class && forall|j: int| 0 <= j <= k ==> list[j] != "from"@
}

/// A rule that composes the class is one of the first `n` statements, or stands
/// in an at-rule among them.
pub open spec fn composed_in(source: Seq<char>, statements: Seq<TreeModel>, n: nat, class: Seq<char>) -> bool
    decreases statements, n,
{
    n != 0 && n <= statements.len() && {
        let last = statements[n - 1];
        let mine = block_statements(last);
        ||| composed_in(source, statements, (n - 1) as nat, class)
        ||| of_kind(last, "QualifiedRule"@) && exists|i: int|
            0 <= i < mine.len() && composes(source, #[trigger] mine[i], class)
        ||| of_kind(last, "AtRule"@) && in_block(statements, last) && composed_in(source, mine, mine.len(), class)
    }
}

/// Every class that some rule composes is known as composed, wherever the rule
/// stands.
pub proof fn every_composed_class_is_known(
    source: Seq<char>,
    statements: Seq<TreeModel>,
    known: Seq<Seq<char>>,
    n: nat,
)
    requires
        ascending(known),
        n <= statements.len(),
    ensures
        ascending(composed_classes(source, statements, known, n)),
        forall|x: Seq<char>| known.contains(x) ==> #[trigger] composed_classes(source, statements, known, n).contains(x),
        forall|class: Seq<char>| #[trigger]
            composed_in(source, statements, n, class) ==> composed_classes(source, statements, known, n).contains(class),
    decreases statements, n,
{
    lemma_kinds();
    if n > 0 {
        every_composed_class_is_known(source, statements, known, (n - 1) as nat);
        let before = composed_classes(source, statements, known, (n - 1) as nat);
        let last = statements[n - 1];
        let mine = block_statements(last);
        if of_kind(last, "QualifiedRule"@) {
            lemma_composed_by(source, mine, before, mine.len() as int);
            assert forall|class: Seq<char>| #[trigger] composed_in(source, statements, n, class) implies composed_classes(
                source,
                statements,
                known,
                n,
            ).contains(class) by {
                if composed_in(source, statements, (n - 1) as nat, class) {
                    assert(before.contains(class));
                } else {
                    let i = choose|i: int| 0 <= i < mine.len() && composes(source, #[trigger] mine[i], class);
                    assert(composes(source, mine[i], class));
                }
            }
        } else if of_kind(last, "AtRule"@) && in_block(statements, last) {
            every_composed_class_is_known(source, mine, before, mine.len());
            assert forall|class: Seq<char>| #[trigger] composed_in(source, statements, n, class) implies composed_classes(
                source,
                statements,
                known,
                n,
            ).contains(class) by {
                if composed_in(source, statements, (n - 1) as nat, class) {
                    assert(before.contains(class));
                } else {
                    assert(composed_in(source, mine, mine.len(), class));
                }
            }
        } else {
            assert forall|class: Seq<char>| #[trigger] composed_in(source, statements, n, class) implies composed_classes(
                source,
                statements,
                known,
                n,
            ).contains(class) by {
                assert(composed_in(source, statements, (n - 1) as nat, class));
            }
        }
    }
}

} // verus!
