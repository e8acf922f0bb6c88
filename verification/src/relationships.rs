//! Rules whose selectors ask for a relationship between elements.
use crate::jsx_extract::{is_world, prepare};
use crate::jsx_graph::{
    all_reported, outcome_reason, prove_prepared, world_usages, PreparedWorld, Question, Reason, UsageModel, UsageProof,
    World,
};
use crate::rules::{
    rule_id, rule_texts, RelationshipStep, RuleId, RuleModel, RulePlan, RuleTextModels, RuleTexts, StepModel,
};
use crate::source::{FileModel, SourceFile};
use crate::text::{decimal, maybe, push_decimal, same, views};
use vstd::prelude::*;

verus! {

/// The first usage from `i` on that is not proven.
pub open spec fn unproven_usage(usages: Seq<UsageModel>, i: int) -> Option<UsageModel>
    decreases usages.len() - i,
{
    if i < 0 || i >= usages.len() {
        None
    } else if usages[i].result is Err {
        Some(usages[i])
    } else {
        unproven_usage(usages, i + 1)
    }
}

/// The file is there only to be read.
pub open spec fn reference_only(files: Seq<FileModel>, path: Seq<char>) -> bool {
    exists|i: int| 0 <= i < files.len() && !(#[trigger] files[i]).writable && files[i].path == path
}

/// The first usage from `i` on in a file that is there only to be read.
pub open spec fn reference_usage(files: Seq<FileModel>, usages: Seq<UsageModel>, i: int) -> Option<UsageModel>
    decreases usages.len() - i,
{
    if i < 0 || i >= usages.len() {
        None
    } else if reference_only(files, usages[i].file) {
        Some(usages[i])
    } else {
        reference_usage(files, usages, i + 1)
    }
}

pub open spec fn state_message(selector: Seq<char>) -> Seq<char> {
    "Ancestor-state selectors like `"@ + selector + "` are not convertible yet, so the rule is retained."@
}

pub open spec fn relation_message(selector: Seq<char>, reason: Reason, usage: Option<UsageModel>) -> Seq<char> {
    "The selector `"@ + selector + "` requires a relationship that could not be proven for every usage ("@
        + reason.code_model() + (match usage {
        Some(usage) => " at "@ + usage.file + ":"@ + decimal(usage.span.0 as nat),
        None => ""@,
    }) + "), so the rule is retained."@
}

pub open spec fn reference_message(selector: Seq<char>, file: Seq<char>) -> Seq<char> {
    "The selector `"@ + selector + "` matches a usage in the reference-only file "@ + file
        + ", so the rule is retained."@
}

/// What is asked of the world for a step.
pub open spec fn step_question(world: World, step: StepModel) -> Question {
    Question { world, relation: step.relation, ancestor: step.ancestor, closed_world: true }
}

/// Why a step retains the rule. The first step's target is the rule's own key:
/// its usage sites are the ones conversion would edit, so a non-writable site
/// makes the proven rule unconvertible.
pub open spec fn step_message(
    world: World,
    files: Seq<FileModel>,
    selector: Seq<char>,
    step: StepModel,
    first: bool,
) -> Option<Seq<char>> {
    let question = step_question(world, step);
    let usages = world_usages(question, step.target);
    match outcome_reason(question, step.target) {
        Some(reason) => Some(relation_message(selector, reason, unproven_usage(usages, 0))),
        None => if first {
            match reference_usage(files, usages, 0) {
                Some(usage) => Some(reference_message(selector, usage.file)),
                None => None,
            }
        } else {
            None
        },
    }
}

/// Why a step from `i` on retains the rule.
pub open spec fn steps_message(
    world: World,
    files: Seq<FileModel>,
    selector: Seq<char>,
    steps: Seq<StepModel>,
    i: int,
) -> Option<Seq<char>>
    decreases steps.len() - i,
{
    if i < 0 || i >= steps.len() {
        None
    } else {
        match step_message(world, files, selector, steps[i], i == 0) {
            Some(message) => Some(message),
            None => steps_message(world, files, selector, steps, i + 1),
        }
    }
}

/// The rule needs a proof.
pub open spec fn asks(rule: RuleModel) -> bool {
    rule.relationship is Some && rule.warning is None
}

/// Why the rule's relationships retain it.
pub open spec fn rule_message(world: World, files: Seq<FileModel>, rule: RuleModel) -> Option<Seq<char>> {
    match rule.relationship {
        Some(relationship) => if rule.warning is Some {
            None
        } else if relationship.ancestor_state {
            Some(state_message(rule.selector))
        } else {
            steps_message(world, files, rule.selector, relationship.steps, 0)
        },
        None => None,
    }
}

/// The first `n` rules that their relationships retain, and why.
pub open spec fn unproven_rules(world: World, files: Seq<FileModel>, rules: Seq<RuleModel>, n: int) -> RuleTextModels
    decreases n,
{
    if n <= 0 {
        seq![]
    } else {
        let before = unproven_rules(world, files, rules, n - 1);
        match rule_message(world, files, rules[n - 1]) {
            Some(message) => before.push((rules[n - 1].id(), message)),
            None => before,
        }
    }
}

fn is_reference_only(files: &Vec<SourceFile>, path: &str) -> (result: bool)
    ensures
        result == reference_only(views(files@), path@),
{
    let mut i: usize = 0;
    while i < files.len()
        invariant
            i <= files@.len(),
            forall|j: int|
                0 <= j < i ==> !(!(#[trigger] views(files@)[j]).writable && views(files@)[j].path == path@),
        decreases files.len() - i,
    {
        assert(views(files@)[i as int] == files@[i as int]@);
        if !files[i].writable && same(files[i].path.as_str(), path) {
            return true;
        }
        i += 1;
    }
    false
}

fn find_unproven_usage<'a>(reports: &'a Vec<UsageProof>, Ghost(usages): Ghost<Seq<UsageModel>>) -> (result: Option<
    &'a UsageProof,
>)
    requires
        all_reported(reports@, usages),
    ensures
        match unproven_usage(usages, 0) {
            Some(model) => result matches Some(usage) && usage.reports(model),
            None => result is None,
        },
{
    let mut i: usize = 0;
    while i < reports.len()
        invariant
            i <= reports@.len(),
            all_reported(reports@, usages),
            unproven_usage(usages, i as int) == unproven_usage(usages, 0),
        decreases reports.len() - i,
    {
        assert(reports@[i as int].reports(usages[i as int]));
        if !reports[i].proven {
            return Some(&reports[i]);
        }
        i += 1;
    }
    None
}

fn find_reference_usage<'a>(
    files: &Vec<SourceFile>,
    reports: &'a Vec<UsageProof>,
    Ghost(usages): Ghost<Seq<UsageModel>>,
) -> (result: Option<&'a UsageProof>)
    requires
        all_reported(reports@, usages),
    ensures
        match reference_usage(views(files@), usages, 0) {
            Some(model) => result matches Some(usage) && usage.reports(model),
            None => result is None,
        },
{
    let mut i: usize = 0;
    while i < reports.len()
        invariant
            i <= reports@.len(),
            all_reported(reports@, usages),
            reference_usage(views(files@), usages, i as int) == reference_usage(views(files@), usages, 0),
        decreases reports.len() - i,
    {
        assert(reports@[i as int].reports(usages[i as int]));
        if is_reference_only(files, reports[i].file.as_str()) {
            return Some(&reports[i]);
        }
        i += 1;
    }
    None
}

fn find_step_message(
    prepared: &PreparedWorld,
    files: &Vec<SourceFile>,
    selector: &str,
    step: &RelationshipStep,
    first: bool,
) -> (result: Option<String>)
    requires
        prepared.ok(),
    ensures
        maybe(result) == step_message(prepared.world, views(files@), selector@, step@, first),
{
    let outcome = prove_prepared(prepared, &step.ancestor, step.relation, &step.target, true);
    let ghost question = step_question(prepared.world, step@);
    let ghost usages = world_usages(question, step@.target);
    if !outcome.aggregate_proven {
        let mut message = "The selector `".to_owned();
        message.append(selector);
        message.append("` requires a relationship that could not be proven for every usage (");
        match outcome.reason {
            Some(code) => {
                message.append(code);
            },
            None => {},
        }
        match find_unproven_usage(&outcome.usages, Ghost(usages)) {
            Some(usage) => {
                let ghost before = message@;
                message.append(" at ");
                message.append(usage.file.as_str());
                message.append(":");
                push_decimal(&mut message, usage.span.0 as u64);
                assert(message@ =~= before + (" at "@ + usage.file@ + ":"@ + decimal(usage.span.0 as nat)));
            },
            None => {
                proof {
                    reveal_strlit("");
                }
                assert(message@ =~= message@ + ""@);
            },
        }
        message.append("), so the rule is retained.");
        return Some(message);
    }
    if first {
        if let Some(usage) = find_reference_usage(files, &outcome.usages, Ghost(usages)) {
            let mut message = "The selector `".to_owned();
            message.append(selector);
            message.append("` matches a usage in the reference-only file ");
            message.append(usage.file.as_str());
            message.append(", so the rule is retained.");
            return Some(message);
        }
    }
    None
}

fn find_rule_message(prepared: &PreparedWorld, files: &Vec<SourceFile>, rule: &RulePlan) -> (result: Option<String>)
    requires
        prepared.ok(),
    ensures
        maybe(result) == rule_message(prepared.world, views(files@), rule@),
{
    let relationship = match &rule.relationship {
        Some(relationship) => relationship,
        None => {
            return None;
        },
    };
    if rule.warning.is_some() {
        return None;
    }
    if relationship.ancestor_state {
        let mut message = "Ancestor-state selectors like `".to_owned();
        message.append(rule.selector.as_str());
        message.append("` are not convertible yet, so the rule is retained.");
        return Some(message);
    }
    let ghost steps = relationship@.steps;
    let mut i: usize = 0;
    while i < relationship.steps.len()
        invariant
            i <= relationship.steps@.len(),
            prepared.ok(),
            steps == views(relationship.steps@),
            rule@.relationship == Some(relationship@),
            rule_message(prepared.world, views(files@), rule@) == steps_message(
                prepared.world,
                views(files@),
                rule@.selector,
                steps,
                i as int,
            ),
        decreases relationship.steps.len() - i,
    {
        assert(steps[i as int] == relationship.steps@[i as int]@);
        if let Some(message) = find_step_message(
            prepared,
            files,
            rule.selector.as_str(),
            &relationship.steps[i],
            i == 0,
        ) {
            return Some(message);
        }
        i += 1;
    }
    None
}

/// The rules that their relationships retain in a prepared world, and why.
pub fn find_unproven_rules(prepared: &PreparedWorld, files: &Vec<SourceFile>, rules: &Vec<RulePlan>) -> (result:
    RuleTexts)
    requires
        prepared.ok(),
    ensures
        rule_texts(result@) == unproven_rules(prepared.world, views(files@), views(rules@), rules@.len() as int),
{
    let mut result: RuleTexts = Vec::new();
    assert(rule_texts(result@) =~= Seq::empty());
    let mut n: usize = 0;
    while n < rules.len()
        invariant
            n <= rules@.len(),
            prepared.ok(),
            rule_texts(result@) == unproven_rules(prepared.world, views(files@), views(rules@), n as int),
        decreases rules.len() - n,
    {
        let rule = &rules[n];
        assert(views(rules@)[n as int] == rule@);
        if let Some(message) = find_rule_message(prepared, files, rule) {
            let ghost before = result@;
            let ghost model = message@;
            result.push((rule_id(rule), message));
            assert(rule_texts(result@) =~= rule_texts(before).push((rule@.id(), model)));
        }
        n += 1;
    }
    result
}

// ---------------------------------------------------------------------------
// The world of a request
// ---------------------------------------------------------------------------

/// The world is that of the files.
pub open spec fn world_of(world: World, files: Seq<FileModel>, css_path: Seq<char>) -> bool {
    exists|sources: Seq<(&str, &str)>|
        #[trigger] is_world(world, sources, css_path) && sources_of(sources, files)
}

/// The sources are those of the files.
pub open spec fn sources_of(sources: Seq<(&str, &str)>, files: Seq<FileModel>) -> bool {
    &&& sources.len() == files.len()
    &&& forall|i: int|
        0 <= i < files.len() ==> (#[trigger] sources[i]).0@ == files[i].path && sources[i].1@ == files[i].source
}

/// Some rule needs a proof.
pub open spec fn any_asks(rules: Seq<RuleModel>) -> bool {
    exists|i: int| 0 <= i < rules.len() && asks(#[trigger] rules[i])
}

fn does_any_ask(rules: &Vec<RulePlan>) -> (result: bool)
    ensures
        result == any_asks(views(rules@)),
{
    let mut i: usize = 0;
    while i < rules.len()
        invariant
            i <= rules@.len(),
            forall|j: int| 0 <= j < i ==> !asks(#[trigger] views(rules@)[j]),
        decreases rules.len() - i,
    {
        assert(views(rules@)[i as int] == rules@[i as int]@);
        if rules[i].relationship.is_some() && rules[i].warning.is_none() {
            assert(asks(views(rules@)[i as int]));
            return true;
        }
        i += 1;
    }
    false
}

proof fn lemma_nothing_asked(world: World, files: Seq<FileModel>, rules: Seq<RuleModel>, n: int)
    requires
        0 <= n <= rules.len(),
        !any_asks(rules),
    ensures
        unproven_rules(world, files, rules, n) == Seq::<(RuleId, Seq<char>)>::empty(),
    decreases n,
{
    if n > 0 {
        lemma_nothing_asked(world, files, rules, n - 1);
        assert(!asks(rules[n - 1]));
    }
}

fn collect_sources<'a>(files: &'a Vec<SourceFile>) -> (result: Vec<(&'a str, &'a str)>)
    ensures
        sources_of(result@, views(files@)),
{
    let mut result: Vec<(&'a str, &'a str)> = Vec::new();
    let mut i: usize = 0;
    while i < files.len()
        invariant
            i <= files@.len(),
            result@.len() == i,
            forall|j: int|
                0 <= j < i ==> (#[trigger] result@[j]).0@ == views(files@)[j].path && result@[j].1@ == views(
                    files@,
                )[j].source,
        decreases files.len() - i,
    {
        assert(views(files@)[i as int] == files@[i as int]@);
        result.push((files[i].path.as_str(), files[i].source.as_str()));
        i += 1;
    }
    result
}

/// These are the rules that their relationships retain in the world of the
/// files, and why. Where no rule needs a proof, no world is looked at.
pub open spec fn retained_in(
    world: World,
    rules: Seq<RuleModel>,
    css_path: Seq<char>,
    files: Seq<FileModel>,
    unproven: RuleTextModels,
) -> bool {
    &&& any_asks(rules) ==> world_of(world, files, css_path)
    &&& unproven == unproven_rules(world, files, rules, rules.len() as int)
}

/// Run the JSX-graph proofs for every proof-needing rule against `files` and
/// return the rules that must be retained with
/// `unproven-css-module-relationship`, keyed by rule with their message.
pub fn unproven_relationship_rules(rules: &Vec<RulePlan>, css_path: &str, files: &Vec<SourceFile>) -> (result: RuleTexts)
    ensures
        exists|world: World|
            #[trigger] retained_in(world, views(rules@), css_path@, views(files@), rule_texts(result@)),
{
    if !does_any_ask(rules) {
        let result: RuleTexts = Vec::new();
        proof {
            let world = arbitrary::<World>();
            lemma_nothing_asked(world, views(files@), views(rules@), rules@.len() as int);
            assert(rule_texts(result@) =~= Seq::empty());
            assert(retained_in(world, views(rules@), css_path@, views(files@), rule_texts(result@)));
        }
        return result;
    }
    let sources = collect_sources(files);
    let prepared = prepare(sources.as_slice(), css_path);
    let result = find_unproven_rules(&prepared, files, rules);
    assert(world_of(prepared.world, views(files@), css_path@)) by {
        assert(is_world(prepared.world, sources@, css_path@));
    }
    assert(retained_in(prepared.world, views(rules@), css_path@, views(files@), rule_texts(result@)));
    result
}

} // verus!
