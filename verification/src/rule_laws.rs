//! What becomes of the rules of a stylesheet.
use crate::jsx_graph::{lemma_first_failure, world_unsound, world_usages, Question, World};
use crate::markup_laws::offers;
use crate::names::{ascending, naming_keeps_the_order, with_names};
use crate::relationships::{
    reference_only, reference_usage, rule_message, step_message, step_question, steps_message, unproven_rules,
};
use crate::rules::{
    all_stamped_unproven, candidate_map_of, chosen, classes_of_rules, mapped_from, rule_prefixed, rule_text_from,
    Choice, RuleId, RuleModel, RuleTextModels, StepModel,
};
use crate::jsx_graph::UsageModel;
use crate::selector::KeyModel;
use crate::source::FileModel;
use vstd::prelude::*;

verus! {

// ---------------------------------------------------------------------------
// Candidates by key
// ---------------------------------------------------------------------------

pub proof fn lemma_all_named(list: Seq<Seq<char>>, more: Seq<Seq<char>>)
    requires
        ascending(list),
    ensures
        ascending(with_names(list, more)),
        forall|x: Seq<char>| #[trigger]
            with_names(list, more).contains(x) <==> (more.contains(x) || list.contains(x)),
    decreases more.len(),
{
    if more.len() > 0 {
        let fewer = more.drop_last();
        lemma_all_named(list, fewer);
        naming_keeps_the_order(with_names(list, fewer), more.last());
        assert forall|x: Seq<char>| #[trigger] with_names(list, more).contains(x) <==> (more.contains(x)
            || list.contains(x)) by {
            assert(with_names(list, fewer).contains(x) <==> (fewer.contains(x) || list.contains(x)));
            if more.contains(x) && x != more.last() {
                let k = choose|k: int| 0 <= k < more.len() && more[k] == x;
                assert(fewer[k] == x);
            }
            if fewer.contains(x) {
                let k = choose|k: int| 0 <= k < fewer.len() && fewer[k] == x;
                assert(more[k] == x);
            }
            if x == more.last() {
                assert(more[more.len() - 1] == x);
            }
        }
    }
}

/// Every key has one entry, and its candidates stand in ascending order.
pub open spec fn in_order(entries: Seq<(KeyModel, Seq<Seq<char>>)>) -> bool {
    &&& forall|i: int, j: int| 0 <= i < j < entries.len() ==> (#[trigger] entries[i]).0 != (#[trigger] entries[j]).0
    &&& forall|i: int| 0 <= i < entries.len() ==> ascending((#[trigger] entries[i]).1)
}

proof fn lemma_mapped(entries: Seq<(KeyModel, Seq<Seq<char>>)>, key: KeyModel, more: Seq<Seq<char>>, i: int)
    requires
        in_order(entries),
        0 <= i <= entries.len(),
        forall|j: int| 0 <= j < i ==> (#[trigger] entries[j]).0 != key,
    ensures
        in_order(mapped_from(entries, key, more, i)),
        forall|other: KeyModel, candidate: Seq<char>| #[trigger]
            offers(mapped_from(entries, key, more, i), other, candidate) <==> (offers(entries, other, candidate) || (
            other == key && more.contains(candidate))),
    decreases entries.len() - i,
{
    let after = mapped_from(entries, key, more, i);
    if i >= entries.len() {
        let none = Seq::<Seq<char>>::empty();
        lemma_all_named(none, more);
        assert forall|other: KeyModel, candidate: Seq<char>| #[trigger] offers(after, other, candidate) <==> (offers(
            entries,
            other,
            candidate,
        ) || (other == key && more.contains(candidate))) by {
            if offers(after, other, candidate) {
                let k = choose|k: int|
                    0 <= k < after.len() && (#[trigger] after[k]).0 == other && after[k].1.contains(candidate)
                        && forall|j: int| 0 <= j < k ==> (#[trigger] after[j]).0 != other;
                if k < entries.len() {
                    assert(entries[k] == after[k]);
                    assert forall|j: int| 0 <= j < k implies (#[trigger] entries[j]).0 != other by {
                        assert(after[j].0 != other);
                    }
                } else {
                    assert(!none.contains(candidate));
                }
            }
            if offers(entries, other, candidate) {
                let k = choose|k: int|
                    0 <= k < entries.len() && (#[trigger] entries[k]).0 == other && entries[k].1.contains(candidate)
                        && forall|j: int| 0 <= j < k ==> (#[trigger] entries[j]).0 != other;
                assert(after[k] == entries[k]);
                assert forall|j: int| 0 <= j < k implies (#[trigger] after[j]).0 != other by {
                    assert(entries[j].0 != other);
                }
            }
            if other == key && more.contains(candidate) {
                let k = entries.len() as int;
                assert(after[k].0 == other && after[k].1.contains(candidate));
                assert forall|j: int| 0 <= j < k implies (#[trigger] after[j]).0 != other by {
                    assert(entries[j].0 != key);
                }
            }
        }
    } else if entries[i].0 == key {
        lemma_all_named(entries[i].1, more);
        assert forall|j: int, k: int| 0 <= j < k < after.len() implies (#[trigger] after[j]).0 != (#[trigger] after[k]).0 by {
            assert(after[j].0 == entries[j].0);
            assert(after[k].0 == entries[k].0);
        }
        assert forall|other: KeyModel, candidate: Seq<char>| #[trigger] offers(after, other, candidate) <==> (offers(
            entries,
            other,
            candidate,
        ) || (other == key && more.contains(candidate))) by {
            if offers(after, other, candidate) {
                let k = choose|k: int|
                    0 <= k < after.len() && (#[trigger] after[k]).0 == other && after[k].1.contains(candidate)
                        && forall|j: int| 0 <= j < k ==> (#[trigger] after[j]).0 != other;
                assert(entries[k].0 == other);
                assert forall|j: int| 0 <= j < k implies (#[trigger] entries[j]).0 != other by {
                    assert(after[j].0 != other);
                }
            }
            if offers(entries, other, candidate) {
                let k = choose|k: int|
                    0 <= k < entries.len() && (#[trigger] entries[k]).0 == other && entries[k].1.contains(candidate)
                        && forall|j: int| 0 <= j < k ==> (#[trigger] entries[j]).0 != other;
                assert(after[k].0 == other && after[k].1.contains(candidate));
                assert forall|j: int| 0 <= j < k implies (#[trigger] after[j]).0 != other by {
                    assert(entries[j].0 != other);
                }
            }
            if other == key && more.contains(candidate) {
                assert(after[i].0 == other && after[i].1.contains(candidate));
                assert forall|j: int| 0 <= j < i implies (#[trigger] after[j]).0 != other by {
                    assert(entries[j].0 != key);
                }
            }
        }
    } else {
        lemma_mapped(entries, key, more, i + 1);
    }
}

/// One of the first `n` rules offers the candidate to the key: it has no
/// warning, and the key is not a blocked class.
pub open spec fn offered(rules: Seq<RuleModel>, blocked: Seq<Seq<char>>, n: int, key: KeyModel, candidate: Seq<char>) -> bool {
    &&& exists|i: int|
        0 <= i < n && (#[trigger] rules[i]).key == Some(key) && rules[i].warning is None
            && rules[i].candidates.contains(candidate)
    &&& !(key matches KeyModel::Class(name) && blocked.contains(name))
}

proof fn lemma_candidate_map(rules: Seq<RuleModel>, blocked: Seq<Seq<char>>, n: int)
    requires
        0 <= n <= rules.len(),
    ensures
        in_order(candidate_map_of(rules, blocked, n)),
        forall|key: KeyModel, candidate: Seq<char>| #[trigger]
            offers(candidate_map_of(rules, blocked, n), key, candidate) <==> offered(rules, blocked, n, key, candidate),
    decreases n,
{
    let after = candidate_map_of(rules, blocked, n);
    if n > 0 {
        let before = candidate_map_of(rules, blocked, n - 1);
        let rule = rules[n - 1];
        lemma_candidate_map(rules, blocked, n - 1);
        if crate::rules::applies(rule, blocked) {
            lemma_mapped(before, rule.key->0, rule.candidates, 0);
        }
        assert forall|key: KeyModel, candidate: Seq<char>| #[trigger] offers(after, key, candidate) <==> offered(
            rules,
            blocked,
            n,
            key,
            candidate,
        ) by {
            assert(offers(before, key, candidate) <==> offered(rules, blocked, n - 1, key, candidate));
            if offered(rules, blocked, n, key, candidate) {
                let i = choose|i: int|
                    0 <= i < n && (#[trigger] rules[i]).key == Some(key) && rules[i].warning is None
                        && rules[i].candidates.contains(candidate);
                if i < n - 1 {
                    assert(offered(rules, blocked, n - 1, key, candidate));
                }
            }
            if offered(rules, blocked, n - 1, key, candidate) {
                let i = choose|i: int|
                    0 <= i < n - 1 && (#[trigger] rules[i]).key == Some(key) && rules[i].warning is None
                        && rules[i].candidates.contains(candidate);
                assert(rules[i].key == Some(key));
            }
            if offers(after, key, candidate) && !offers(before, key, candidate) {
                assert(rules[n - 1].key == Some(key));
            }
        }
    } else {
        assert forall|key: KeyModel, candidate: Seq<char>| !(#[trigger] offers(after, key, candidate)) by {}
    }
}

/// An element is offered a candidate exactly where a rule without a warning is
/// found by its key and holds it, and its class is not blocked. Every key has
/// one entry.
pub proof fn elements_are_offered_what_their_rules_hold(rules: Seq<RuleModel>, blocked: Seq<Seq<char>>)
    ensures
        in_order(candidate_map_of(rules, blocked, rules.len() as int)),
        forall|key: KeyModel, candidate: Seq<char>| #[trigger]
            offers(candidate_map_of(rules, blocked, rules.len() as int), key, candidate) <==> offered(
                rules,
                blocked,
                rules.len() as int,
                key,
                candidate,
            ),
{
    lemma_candidate_map(rules, blocked, rules.len() as int);
}

/// The utility prefix goes before every candidate, and changes nothing else of
/// a rule.
pub proof fn prefixes_stand_before_candidates(rule: RuleModel, prefix: Seq<char>)
    ensures
        ({
            let after = rule_prefixed(rule, prefix);
            &&& after == (RuleModel {
                candidates: after.candidates,
                candidate_properties: after.candidate_properties,
                ..rule
            })
            &&& after.candidates.len() == rule.candidates.len()
            &&& forall|i: int|
                0 <= i < rule.candidates.len() ==> (#[trigger] after.candidates[i]).len() == prefix.len() as int + 1
                    + rule.candidates[i].len() && after.candidates[i].take(prefix.len() as int) == prefix
                    && after.candidates[i][prefix.len() as int] == ':' && after.candidates[i].skip(
                    prefix.len() as int + 1,
                ) == rule.candidates[i]
            &&& after.candidate_properties.len() == rule.candidate_properties.len()
            &&& forall|i: int|
                0 <= i < rule.candidate_properties.len() ==> (#[trigger] after.candidate_properties[i]).1
                    == rule.candidate_properties[i].1 && after.candidate_properties[i].0.take(prefix.len() as int)
                    == prefix && after.candidate_properties[i].0.skip(prefix.len() as int + 1)
                    == rule.candidate_properties[i].0
        }),
{
    reveal_strlit(":");
    let after = rule_prefixed(rule, prefix);
    assert forall|i: int| 0 <= i < rule.candidates.len() implies (#[trigger] after.candidates[i]).len() == prefix.len()
        + 1 + rule.candidates[i].len() && after.candidates[i].take(prefix.len() as int) == prefix
        && after.candidates[i][prefix.len() as int] == ':' && after.candidates[i].skip(prefix.len() as int + 1)
        == rule.candidates[i] by {
        assert(after.candidates[i].take(prefix.len() as int) =~= prefix);
        assert(after.candidates[i].skip(prefix.len() as int + 1) =~= rule.candidates[i]);
    }
    assert forall|i: int| 0 <= i < rule.candidate_properties.len() implies (
    #[trigger] after.candidate_properties[i]).1 == rule.candidate_properties[i].1
        && after.candidate_properties[i].0.take(prefix.len() as int) == prefix && after.candidate_properties[i].0.skip(
        prefix.len() as int + 1,
    ) == rule.candidate_properties[i].0 by {
        assert(after.candidate_properties[i].0.take(prefix.len() as int) =~= prefix);
        assert(after.candidate_properties[i].0.skip(prefix.len() as int + 1) =~= rule.candidate_properties[i].0);
    }
}

// ---------------------------------------------------------------------------
// Classes
// ---------------------------------------------------------------------------

/// One of the first `n` rules that the choice takes is related to the class.
pub open spec fn related(rules: Seq<RuleModel>, choice: Choice, n: int, class: Seq<char>) -> bool {
    exists|i: int| 0 <= i < n && chosen(choice, #[trigger] rules[i]) && rules[i].related_classes.contains(class)
}

proof fn lemma_classes(rules: Seq<RuleModel>, choice: Choice, n: int)
    requires
        0 <= n <= rules.len(),
    ensures
        ascending(classes_of_rules(rules, choice, n)),
        forall|class: Seq<char>| #[trigger]
            classes_of_rules(rules, choice, n).contains(class) <==> related(rules, choice, n, class),
    decreases n,
{
    if n > 0 {
        let before = classes_of_rules(rules, choice, n - 1);
        lemma_classes(rules, choice, n - 1);
        lemma_all_named(before, rules[n - 1].related_classes);
        assert forall|class: Seq<char>| #[trigger] classes_of_rules(rules, choice, n).contains(class) <==> related(
            rules,
            choice,
            n,
            class,
        ) by {
            assert(before.contains(class) <==> related(rules, choice, n - 1, class));
            if related(rules, choice, n, class) {
                let i = choose|i: int|
                    0 <= i < n && chosen(choice, #[trigger] rules[i]) && rules[i].related_classes.contains(class);
                if i < n - 1 {
                    assert(related(rules, choice, n - 1, class));
                }
            }
            if related(rules, choice, n - 1, class) {
                let i = choose|i: int|
                    0 <= i < n - 1 && chosen(choice, #[trigger] rules[i]) && rules[i].related_classes.contains(class);
                assert(chosen(choice, rules[i]));
            }
        }
    } else {
        assert forall|class: Seq<char>| !(#[trigger] classes_of_rules(rules, choice, n).contains(class)) by {}
    }
}

/// A class is collected exactly where a rule that is asked for is related to it.
pub proof fn classes_are_those_of_the_chosen_rules(rules: Seq<RuleModel>, class: Seq<char>)
    ensures
        classes_of_rules(rules, Choice::All, rules.len() as int).contains(class) <==> exists|i: int|
            0 <= i < rules.len() && (#[trigger] rules[i]).related_classes.contains(class),
        classes_of_rules(rules, Choice::Warned, rules.len() as int).contains(class) <==> exists|i: int|
            0 <= i < rules.len() && (#[trigger] rules[i]).related_classes.contains(class) && rules[i].warning is Some,
        classes_of_rules(rules, Choice::Warned, rules.len() as int).contains(class) <==> classes_of_rules(
            rules,
            Choice::Blocked,
            rules.len() as int,
        ).contains(class) || classes_of_rules(rules, Choice::BatchRetained, rules.len() as int).contains(class),
        classes_of_rules(rules, Choice::BatchRetained, rules.len() as int).contains(class) <==> exists|i: int|
            0 <= i < rules.len() && (#[trigger] rules[i]).related_classes.contains(class) && (rules[i].warning == Some(
                "batch-stylesheet-conflict"@,
            ) || rules[i].warning == Some("candidate-compilation-failure"@)),
{
    let n = rules.len() as int;
    lemma_classes(rules, Choice::All, n);
    lemma_classes(rules, Choice::Warned, n);
    lemma_classes(rules, Choice::Blocked, n);
    lemma_classes(rules, Choice::BatchRetained, n);
    if exists|i: int| 0 <= i < n && (#[trigger] rules[i]).related_classes.contains(class) {
        let i = choose|i: int| 0 <= i < n && (#[trigger] rules[i]).related_classes.contains(class);
        assert(chosen(Choice::All, rules[i]));
    }
    if related(rules, Choice::Warned, n, class) {
        let i = choose|i: int|
            0 <= i < n && chosen(Choice::Warned, #[trigger] rules[i]) && rules[i].related_classes.contains(class);
        assert(chosen(Choice::Blocked, rules[i]) || chosen(Choice::BatchRetained, rules[i]));
    }
    if exists|i: int|
        0 <= i < n && (#[trigger] rules[i]).related_classes.contains(class) && rules[i].warning is Some {
        let i = choose|i: int|
            0 <= i < n && (#[trigger] rules[i]).related_classes.contains(class) && rules[i].warning is Some;
        assert(chosen(Choice::Warned, rules[i]));
    }
    if exists|i: int|
        0 <= i < rules.len() && (#[trigger] rules[i]).related_classes.contains(class) && (rules[i].warning == Some(
            "batch-stylesheet-conflict"@,
        ) || rules[i].warning == Some("candidate-compilation-failure"@)) {
        let i = choose|i: int|
            0 <= i < rules.len() && (#[trigger] rules[i]).related_classes.contains(class) && (rules[i].warning == Some(
                "batch-stylesheet-conflict"@,
            ) || rules[i].warning == Some("candidate-compilation-failure"@));
        assert(chosen(Choice::BatchRetained, rules[i]));
    }
}

// ---------------------------------------------------------------------------
// Relationships
// ---------------------------------------------------------------------------

/// The step's target is used, each of its usages is proven, and none escaped.
pub open spec fn step_proven(world: World, step: StepModel) -> bool {
    let usages = world_usages(
        Question { world, relation: step.relation, ancestor: step.ancestor, closed_world: true },
        step.target,
    );
    &&& !world_unsound(world)
    &&& usages.len() > 0
    &&& forall|i: int| 0 <= i < usages.len() ==> (#[trigger] usages[i]).result is Ok
}

/// Every usage of the step's target stands in a file that may be written.
pub open spec fn step_writable(world: World, files: Seq<FileModel>, step: StepModel) -> bool {
    let usages = world_usages(
        Question { world, relation: step.relation, ancestor: step.ancestor, closed_world: true },
        step.target,
    );
    forall|i: int, k: int|
        0 <= i < usages.len() && 0 <= k < files.len() && (#[trigger] files[k]).path == (
        #[trigger] usages[i]).file ==> files[k].writable
}

/// The rule's relationships hold wherever its elements are used.
pub open spec fn relationships_hold(world: World, files: Seq<FileModel>, rule: RuleModel) -> bool {
    match rule.relationship {
        Some(relationship) => {
            &&& !relationship.ancestor_state
            &&& forall|i: int| 0 <= i < relationship.steps.len() ==> step_proven(world, #[trigger] relationship.steps[i])
            &&& relationship.steps.len() > 0 ==> step_writable(world, files, relationship.steps[0])
        },
        None => true,
    }
}

proof fn lemma_reference_usage(files: Seq<FileModel>, usages: Seq<UsageModel>, i: int)
    requires
        0 <= i <= usages.len(),
    ensures
        reference_usage(files, usages, i) is None <==> forall|j: int|
            i <= j < usages.len() ==> !reference_only(files, (#[trigger] usages[j]).file),
    decreases usages.len() - i,
{
    if i < usages.len() && !reference_only(files, usages[i].file) {
        lemma_reference_usage(files, usages, i + 1);
        assert forall|j: int| i <= j < usages.len() && reference_usage(files, usages, i + 1) is None implies
            !reference_only(files, (#[trigger] usages[j]).file) by {
            if j > i {
                assert(i + 1 <= j);
            }
        }
    }
}

proof fn lemma_step(world: World, files: Seq<FileModel>, selector: Seq<char>, step: StepModel, first: bool)
    ensures
        step_message(world, files, selector, step, first) is None <==> step_proven(world, step) && (first
            ==> step_writable(world, files, step)),
{
    let question = step_question(world, step);
    let usages = world_usages(question, step.target);
    lemma_first_failure(usages, 0);
    lemma_reference_usage(files, usages, 0);
    if reference_usage(files, usages, 0) is Some {
        let j = choose|j: int| 0 <= j < usages.len() && reference_only(files, (#[trigger] usages[j]).file);
        let k = choose|k: int| 0 <= k < files.len() && !(#[trigger] files[k]).writable && files[k].path == usages[j].file;
        assert(files[k].path == usages[j].file);
    } else {
        assert forall|i: int, k: int|
            0 <= i < usages.len() && 0 <= k < files.len() && (#[trigger] files[k]).path == (
            #[trigger] usages[i]).file implies files[k].writable by {
            assert(!reference_only(files, usages[i].file));
        }
    }
}

proof fn lemma_steps(world: World, files: Seq<FileModel>, selector: Seq<char>, steps: Seq<StepModel>, i: int)
    requires
        0 <= i <= steps.len(),
    ensures
        steps_message(world, files, selector, steps, i) is None <==> forall|j: int|
            i <= j < steps.len() ==> step_proven(world, #[trigger] steps[j]) && (j == 0 ==> step_writable(
                world,
                files,
                steps[j],
            )),
    decreases steps.len() - i,
{
    if i < steps.len() {
        lemma_step(world, files, selector, steps[i], i == 0);
        lemma_steps(world, files, selector, steps, i + 1);
        assert forall|j: int| i <= j < steps.len() && steps_message(world, files, selector, steps, i) is None implies
            step_proven(world, #[trigger] steps[j]) && (j == 0 ==> step_writable(world, files, steps[j])) by {
            if j > i {
                assert(i + 1 <= j);
            }
        }
    }
}

proof fn lemma_unproven(world: World, files: Seq<FileModel>, rules: Seq<RuleModel>, n: int, id: RuleId)
    requires
        0 <= n <= rules.len(),
    ensures
        (exists|k: int|
            0 <= k < unproven_rules(world, files, rules, n).len() && (#[trigger] unproven_rules(
                world,
                files,
                rules,
                n,
            )[k]).0 == id) <==> exists|i: int|
            0 <= i < n && (#[trigger] rules[i]).id() == id && rule_message(world, files, rules[i]) is Some,
    decreases n,
{
    if n > 0 {
        lemma_unproven(world, files, rules, n - 1, id);
        let before = unproven_rules(world, files, rules, n - 1);
        let after = unproven_rules(world, files, rules, n);
        if exists|k: int| 0 <= k < after.len() && (#[trigger] after[k]).0 == id {
            let k = choose|k: int| 0 <= k < after.len() && (#[trigger] after[k]).0 == id;
            if k < before.len() {
                assert(before[k].0 == id);
                let i = choose|i: int|
                    0 <= i < n - 1 && (#[trigger] rules[i]).id() == id && rule_message(world, files, rules[i]) is Some;
                assert(rules[i].id() == id);
            } else {
                assert(rules[n - 1].id() == id);
            }
        }
        if exists|i: int| 0 <= i < n && (#[trigger] rules[i]).id() == id && rule_message(world, files, rules[i]) is Some {
            let i = choose|i: int|
                0 <= i < n && (#[trigger] rules[i]).id() == id && rule_message(world, files, rules[i]) is Some;
            if i < n - 1 {
                let k = choose|k: int| 0 <= k < before.len() && (#[trigger] before[k]).0 == id;
                assert(after[k].0 == id);
            } else {
                assert(after[before.len() as int].0 == id);
            }
        }
    }
}

proof fn lemma_rule_text(list: RuleTextModels, id: RuleId, i: int)
    requires
        0 <= i <= list.len(),
    ensures
        rule_text_from(list, id, i) is Some <==> exists|k: int| i <= k < list.len() && (#[trigger] list[k]).0 == id,
    decreases list.len() - i,
{
    if i < list.len() {
        lemma_rule_text(list, id, i + 1);
        if list[i].0 != id && rule_text_from(list, id, i + 1) is Some {
            let k = choose|k: int| i + 1 <= k < list.len() && (#[trigger] list[k]).0 == id;
            assert(i <= k);
        }
    }
}

/// A rule without a warning gets one exactly where its relationships do not
/// hold for every usage, or would change a file that may not be written; no
/// other rule changes.
pub proof fn rules_stay_unless_their_relationships_hold(world: World, files: Seq<FileModel>, rules: Seq<RuleModel>, i: int)
    requires
        0 <= i < rules.len(),
        forall|j: int, k: int| 0 <= j < k < rules.len() ==> (#[trigger] rules[j]).id() != (#[trigger] rules[k]).id(),
    ensures
        ({
            let after = all_stamped_unproven(rules, unproven_rules(world, files, rules, rules.len() as int));
            &&& after.len() == rules.len()
            &&& rules[i].warning is Some || relationships_hold(world, files, rules[i]) ==> after[i] == rules[i]
            &&& rules[i].warning is None && !relationships_hold(world, files, rules[i]) ==> after[i] == (RuleModel {
                warning: Some("unproven-css-module-relationship"@),
                ..rules[i]
            })
        }),
{
    let unproven = unproven_rules(world, files, rules, rules.len() as int);
    let rule = rules[i];
    lemma_unproven(world, files, rules, rules.len() as int, rule.id());
    lemma_rule_text(unproven, rule.id(), 0);
    if let Some(relationship) = rule.relationship {
        lemma_steps(world, files, rule.selector, relationship.steps, 0);
        if relationships_hold(world, files, rule) {
            assert forall|j: int| 0 <= j < relationship.steps.len() implies step_proven(
                world,
                #[trigger] relationship.steps[j],
            ) && (j == 0 ==> step_writable(world, files, relationship.steps[j])) by {}
        } else if !relationship.ancestor_state && steps_message(world, files, rule.selector, relationship.steps, 0) is None {
            if relationship.steps.len() > 0 {
                assert(step_proven(world, relationship.steps[0]));
            }
            assert forall|j: int| 0 <= j < relationship.steps.len() implies step_proven(
                world,
                #[trigger] relationship.steps[j],
            ) by {}
        }
    }
    if rule.warning is None {
        assert(rule_message(world, files, rule) is None <==> relationships_hold(world, files, rule));
        if relationships_hold(world, files, rule) {
            if exists|k: int|
                0 <= k < rules.len() && (#[trigger] rules[k]).id() == rule.id() && rule_message(world, files, rules[k]) is Some {
                let k = choose|k: int|
                    0 <= k < rules.len() && (#[trigger] rules[k]).id() == rule.id() && rule_message(
                        world,
                        files,
                        rules[k],
                    ) is Some;
                if k < i {
                    assert(rules[k].id() != rules[i].id());
                } else if i < k {
                    assert(rules[i].id() != rules[k].id());
                }
            }
        } else {
            assert(rules[i].id() == rule.id());
        }
    }
}

} // verus!
