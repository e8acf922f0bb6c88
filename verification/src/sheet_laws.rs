//! Every statement of a stylesheet is accounted for.
use crate::css::{block_statements, css_span, in_block, lemma_block_inside};
use crate::css_plan::{
    condition_variant, found_rules, moving_starts, overlap_stamped, planned_rules, sheet_rules, style_plan,
    ConverterModel, FoundModel, ParseOptions, SheetTextModel,
};
use crate::css::condition_warning;
use crate::rules::RuleModel;
use crate::syntax::of_kind;
use crate::tree::TreeModel;
use vstd::prelude::*;

verus! {

proof fn lemma_kinds()
    ensures
        "QualifiedRule"@ != "AtRule"@,
{
    reveal_strlit("QualifiedRule");
    reveal_strlit("AtRule");
    assert("QualifiedRule"@.len() != "AtRule"@.len());
}

/// What was found stays found.
spec fn stays_found(before: FoundModel, after: FoundModel) -> bool {
    &&& before.rules.len() <= after.rules.len()
    &&& forall|i: int| 0 <= i < before.rules.len() ==> #[trigger] after.rules[i] == before.rules[i]
    &&& before.retained.len() <= after.retained.len()
    &&& forall|i: int| 0 <= i < before.retained.len() ==> #[trigger] after.retained[i] == before.retained[i]
    &&& !before.supported ==> !after.supported
}

proof fn lemma_found_step(
    at: SheetTextModel,
    statements: Seq<TreeModel>,
    variants: Seq<Seq<char>>,
    movable: Seq<usize>,
    k: nat,
    n: nat,
)
    requires
        k <= n <= statements.len(),
    ensures
        stays_found(
            found_rules(at, statements, variants, movable, k),
            found_rules(at, statements, variants, movable, n),
        ),
    decreases n - k,
{
    if k < n {
        lemma_found_step(at, statements, variants, movable, k, (n - 1) as nat);
        let first = found_rules(at, statements, variants, movable, k);
        let before = found_rules(at, statements, variants, movable, (n - 1) as nat);
        let after = found_rules(at, statements, variants, movable, n);
        assert(stays_found(before, after));
        assert forall|i: int| 0 <= i < first.rules.len() implies #[trigger] after.rules[i] == first.rules[i] by {
            assert(after.rules[i] == before.rules[i]);
        }
        assert forall|i: int| 0 <= i < first.retained.len() implies #[trigger] after.retained[i]
            == first.retained[i] by {
            assert(after.retained[i] == before.retained[i]);
        }
    }
}

proof fn lemma_rule_found(
    at: SheetTextModel,
    statements: Seq<TreeModel>,
    variants: Seq<Seq<char>>,
    movable: Seq<usize>,
    n: nat,
    i: int,
)
    requires
        0 <= i < n <= statements.len(),
        of_kind(statements[i], "QualifiedRule"@),
    ensures
        found_rules(at, statements, variants, movable, n).rules.contains((statements[i], variants)),
{
    let before = found_rules(at, statements, variants, movable, i as nat);
    let own = found_rules(at, statements, variants, movable, (i + 1) as nat);
    let after = found_rules(at, statements, variants, movable, n);
    let k = before.rules.len() as int;
    assert(own.rules[k] == (statements[i], variants));
    lemma_found_step(at, statements, variants, movable, (i + 1) as nat, n);
    assert(after.rules[k] == own.rules[k]);
}

proof fn lemma_planned(at: SheetTextModel, composed: Seq<Seq<char>>, found: FoundModel, n: int)
    requires
        0 <= n <= found.rules.len(),
    ensures
        planned_rules(at, composed, found, n).len() == found.retained.len() + n,
        forall|k: int|
            0 <= k < found.retained.len() ==> #[trigger] planned_rules(at, composed, found, n)[k] == found.retained[k],
        forall|k: int|
            0 <= k < n ==> planned_rules(at, composed, found, n)[found.retained.len() + k] == style_plan(
                at,
                composed,
                (#[trigger] found.rules[k]).0,
                found.rules[k].1,
            ),
    decreases n,
{
    if n > 0 {
        lemma_planned(at, composed, found, n - 1);
        let before = planned_rules(at, composed, found, n - 1);
        let after = planned_rules(at, composed, found, n);
        assert forall|k: int| 0 <= k < n implies after[found.retained.len() + k] == style_plan(
            at,
            composed,
            (#[trigger] found.rules[k]).0,
            found.rules[k].1,
        ) by {
            if k < n - 1 {
                assert(after[found.retained.len() + k] == before[found.retained.len() + k]);
            }
        }
        assert forall|k: int| 0 <= k < found.retained.len() implies #[trigger] after[k] == found.retained[k] by {
            assert(after[k] == before[k]);
        }
    }
}

/// Some rule of the list has this plan, with no other change than a warning
/// that it overlaps another one.
pub open spec fn is_planned(rules: Seq<RuleModel>, plan: RuleModel) -> bool {
    exists|k: int|
        0 <= k < rules.len() && ((#[trigger] rules[k]) == plan || rules[k] == plan.warned("unsupported-overlap"@))
}

proof fn lemma_is_planned(
    pairs: Seq<(Seq<char>, Seq<char>)>,
    at: SheetTextModel,
    composed: Seq<Seq<char>>,
    found: FoundModel,
    rule: TreeModel,
    variants: Seq<Seq<char>>,
)
    requires
        found.rules.contains((rule, variants)),
    ensures
        is_planned(
            overlap_stamped(pairs, planned_rules(at, composed, found, found.rules.len() as int)),
            style_plan(at, composed, rule, variants),
        ),
{
    let planned = planned_rules(at, composed, found, found.rules.len() as int);
    let rules = overlap_stamped(pairs, planned);
    lemma_planned(at, composed, found, found.rules.len() as int);
    let k = choose|k: int| 0 <= k < found.rules.len() && found.rules[k] == (rule, variants);
    assert(found.rules[k].0 == rule);
    let j = found.retained.len() + k;
    assert(planned[j] == style_plan(at, composed, rule, variants));
    assert(rules[j] == planned[j] || rules[j] == planned[j].warned("unsupported-overlap"@));
}

/// The text that the rules of a stylesheet are read from, and the classes that
/// some rule composes.
pub open spec fn reads(
    at: SheetTextModel,
    converter: ConverterModel,
    scope: Seq<char>,
    source: Seq<char>,
    options: ParseOptions,
    statements: Seq<TreeModel>,
) -> bool {
    &&& at.source == source
    &&& at.is_module == options.is_module
    &&& at.converter == converter
    &&& at.keyframes == if options.is_module && options.can_move_at_rules {
        crate::css_plan::sheet_keyframes(statements, scope, source, statements.len() as int)
    } else {
        seq![]
    }
}

/// Every style rule of a stylesheet is planned: one at the top level under no
/// condition, and one in a conditional at-rule that has a variant and holds
/// nothing but style rules under that variant.
pub proof fn every_style_rule_is_planned(
    at: SheetTextModel,
    converter: ConverterModel,
    pairs: Seq<(Seq<char>, Seq<char>)>,
    scope: Seq<char>,
    source: Seq<char>,
    options: ParseOptions,
    statements: Seq<TreeModel>,
    i: int,
)
    requires
        reads(at, converter, scope, source, options, statements),
        0 <= i < statements.len(),
    ensures
        ({
            let rules = sheet_rules(converter, pairs, scope, source, options, statements).rules;
            let composed = if options.is_module {
                crate::css_plan::composed_classes(source, statements, seq![], statements.len())
            } else {
                seq![]
            };
            let inside = block_statements(statements[i]);
            &&& of_kind(statements[i], "QualifiedRule"@) ==> is_planned(
                rules,
                style_plan(at, composed, statements[i], seq![]),
            )
            &&& of_kind(statements[i], "AtRule"@) && !is_moving(
                converter,
                scope,
                source,
                options,
                statements,
                statements[i],
            ) && (forall|k: int| 0 <= k < inside.len() ==> of_kind(#[trigger] inside[k], "QualifiedRule"@)) ==> match (
                condition_warning(converter.conditionals, statements[i]),
                condition_variant(at, statements[i]),
            ) {
                (Some(_), Some(variant)) => forall|k: int|
                    0 <= k < inside.len() ==> is_planned(
                        rules,
                        style_plan(at, composed, #[trigger] inside[k], seq![variant]),
                    ),
                _ => exists|k: int|
                    0 <= k < rules.len() && (#[trigger] rules[k]).span == css_span(statements[i]) && rules[k].key is None
                        && rules[k].candidates.len() == 0 && rules[k].warning is Some,
            }
        }),
{
    lemma_kinds();
    let none = Seq::<Seq<char>>::empty();
    let count = statements.len();
    let keyframes = at.keyframes;
    let globals = if options.is_module && options.can_move_at_rules && options.can_move_global_at_rules {
        crate::css_plan::sheet_globals(
            converter.movable,
            statements,
            source,
            options.relative_urls_stable,
            count as int,
        )
    } else {
        seq![]
    };
    let movable = moving_starts(keyframes, globals);
    let composed = if options.is_module {
        crate::css_plan::composed_classes(source, statements, seq![], count)
    } else {
        seq![]
    };
    let found = found_rules(at, statements, none, movable, count);
    let statement = statements[i];
    let inside = block_statements(statement);
    let rules = sheet_rules(converter, pairs, scope, source, options, statements).rules;
    assert(rules == overlap_stamped(pairs, planned_rules(at, composed, found, found.rules.len() as int)));
    if of_kind(statement, "QualifiedRule"@) {
        lemma_rule_found(at, statements, none, movable, count, i);
        lemma_is_planned(pairs, at, composed, found, statement, none);
    }
    if of_kind(statement, "AtRule"@) && !is_moving(converter, scope, source, options, statements, statement) && (
    forall|k: int| 0 <= k < inside.len() ==> of_kind(#[trigger] inside[k], "QualifiedRule"@)) {
        let before = found_rules(at, statements, none, movable, i as nat);
        let own = found_rules(at, statements, none, movable, (i + 1) as nat);
        lemma_found_step(at, statements, none, movable, (i + 1) as nat, count);
        match (condition_warning(converter.conditionals, statement), condition_variant(at, statement)) {
            (Some(_), Some(variant)) => {
                let behind = none.push(variant);
                assert(behind =~= seq![variant]);
                lemma_all_supported(at, inside, behind, movable, inside.len());
                assert forall|k: int| 0 <= k < inside.len() implies is_planned(
                    rules,
                    style_plan(at, composed, #[trigger] inside[k], seq![variant]),
                ) by {
                    lemma_block_inside(statements, i);
                    let inner = found_rules(at, inside, behind, movable, inside.len());
                    lemma_rule_found(at, inside, behind, movable, inside.len(), k);
                    assert(in_block(statements, statement));
                    assert(own.rules == before.rules + inner.rules);
                    let j = choose|j: int| 0 <= j < inner.rules.len() && inner.rules[j] == (inside[k], behind);
                    assert(own.rules[before.rules.len() + j] == (inside[k], behind));
                    assert(found.rules[before.rules.len() + j] == (inside[k], behind));
                    lemma_is_planned(pairs, at, composed, found, inside[k], behind);
                }
            },
            _ => {
                let k = before.retained.len() as int;
                assert(own.retained.len() == k + 1);
                assert(own.retained[k].span == css_span(statement));
                assert(found.retained[k] == own.retained[k]);
                lemma_planned(at, composed, found, found.rules.len() as int);
                let planned = planned_rules(at, composed, found, found.rules.len() as int);
                assert(planned[k] == found.retained[k]);
                assert(rules[k] == planned[k] || rules[k] == planned[k].warned("unsupported-overlap"@));
                assert(rules[k].span == css_span(statement));
            },
        }
    }
}

/// The at-rule moves to the Tailwind entry.
pub open spec fn is_moving(
    converter: ConverterModel,
    scope: Seq<char>,
    source: Seq<char>,
    options: ParseOptions,
    statements: Seq<TreeModel>,
    statement: TreeModel,
) -> bool {
    let count = statements.len() as int;
    let keyframes = if options.is_module && options.can_move_at_rules {
        crate::css_plan::sheet_keyframes(statements, scope, source, count)
    } else {
        seq![]
    };
    let globals = if options.is_module && options.can_move_at_rules && options.can_move_global_at_rules {
        crate::css_plan::sheet_globals(converter.movable, statements, source, options.relative_urls_stable, count)
    } else {
        seq![]
    };
    moving_starts(keyframes, globals).contains(css_span(statement).0)
}

proof fn lemma_all_supported(
    at: SheetTextModel,
    statements: Seq<TreeModel>,
    variants: Seq<Seq<char>>,
    movable: Seq<usize>,
    n: nat,
)
    requires
        n <= statements.len(),
        forall|k: int| 0 <= k < statements.len() ==> of_kind(#[trigger] statements[k], "QualifiedRule"@),
    ensures
        found_rules(at, statements, variants, movable, n).supported,
    decreases n,
{
    if n > 0 {
        lemma_all_supported(at, statements, variants, movable, (n - 1) as nat);
        assert(of_kind(statements[n - 1], "QualifiedRule"@));
    }
}

} // verus!
