//! The rules of a stylesheet as planning sees them.
use crate::jsx_graph::Relation;
use crate::names::{insert_names, with_names};
use crate::plan::Candidates;
use crate::selector::{KeyModel, SelectorKey};
use crate::text::{copy, copy_texts, list_has, maybe, maybe_view, same, texts, views};
use vstd::prelude::*;

verus! {

/// Span of a rule in the analysis source (the compiled CSS for preprocessor
/// stylesheets), stable only across plans over identical analysis sources.
#[derive(Clone, Copy, PartialEq, Eq, Structural, Debug)]
pub struct RuleId {
    pub start: usize,
    pub end: usize,
}

/// One relationship that a selector asks of its elements.
#[derive(Debug)]
pub struct RelationshipStep {
    pub ancestor: SelectorKey,
    pub relation: Relation,
    pub target: SelectorKey,
}

/// The model of a [`RelationshipStep`].
pub struct StepModel {
    pub ancestor: KeyModel,
    pub relation: Relation,
    pub target: KeyModel,
}

impl View for RelationshipStep {
    type V = StepModel;

    open spec fn view(&self) -> StepModel {
        StepModel { ancestor: self.ancestor@, relation: self.relation, target: self.target@ }
    }
}

/// What the selector of a rule with more than one compound asks.
#[derive(Debug)]
pub struct Relationship {
    /// An ancestor is asked to be in a state, such as `:hover`.
    pub ancestor_state: bool,
    /// The first step's target is the rule's own key.
    pub steps: Vec<RelationshipStep>,
}

/// The model of a [`Relationship`].
pub struct RelationshipModel {
    pub ancestor_state: bool,
    pub steps: Seq<StepModel>,
}

impl View for Relationship {
    type V = RelationshipModel;

    open spec fn view(&self) -> RelationshipModel {
        RelationshipModel { ancestor_state: self.ancestor_state, steps: views(self.steps@) }
    }
}

/// The properties that each candidate of a rule sets.
pub type Properties = Vec<(String, Vec<String>)>;

/// The models of [`Properties`].
pub type PropertyModels = Seq<(Seq<char>, Seq<Seq<char>>)>;

pub open spec fn property_models(list: Seq<(String, Vec<String>)>) -> PropertyModels {
    list.map_values(|entry: (String, Vec<String>)| (entry.0@, texts(entry.1@)))
}

/// A rule of a stylesheet.
#[derive(Debug)]
pub struct RulePlan {
    /// Where the rule stands in the analysis source.
    pub span: (usize, usize),
    pub selector: String,
    /// The classes that the selector names.
    pub related_classes: Vec<String>,
    /// What the rule's elements are found by.
    pub key: Option<SelectorKey>,
    /// The utilities that replace the rule.
    pub candidates: Vec<String>,
    /// The properties that each of them sets.
    pub candidate_properties: Properties,
    /// Why the rule stays.
    pub warning: Option<String>,
    pub relationship: Option<Relationship>,
    /// The offsets of the analysis source that stand for the rule in a source
    /// map.
    pub provenance_offsets: Vec<usize>,
    /// Where the rule stands in the authored file, if that is known.
    pub authored_span: Option<(usize, usize)>,
    /// A retained at-rule with selectors of its own inside.
    pub contains_selectors: bool,
}

/// The model of a [`RulePlan`].
pub struct RuleModel {
    pub span: (usize, usize),
    pub selector: Seq<char>,
    pub related_classes: Seq<Seq<char>>,
    pub key: Option<KeyModel>,
    pub candidates: Seq<Seq<char>>,
    pub candidate_properties: PropertyModels,
    pub warning: Option<Seq<char>>,
    pub relationship: Option<RelationshipModel>,
    pub provenance_offsets: Seq<usize>,
    pub authored_span: Option<(usize, usize)>,
    pub contains_selectors: bool,
}

impl View for RulePlan {
    type V = RuleModel;

    open spec fn view(&self) -> RuleModel {
        RuleModel {
            span: self.span,
            selector: self.selector@,
            related_classes: texts(self.related_classes@),
            key: maybe_view(self.key),
            candidates: texts(self.candidates@),
            candidate_properties: property_models(self.candidate_properties@),
            warning: maybe(self.warning),
            relationship: maybe_view(self.relationship),
            provenance_offsets: self.provenance_offsets@,
            authored_span: self.authored_span,
            contains_selectors: self.contains_selectors,
        }
    }
}

impl RuleModel {
    /// The rule's identity.
    pub open spec fn id(self) -> RuleId {
        RuleId { start: self.span.0, end: self.span.1 }
    }

    /// The rule with a warning.
    pub open spec fn warned(self, code: Seq<char>) -> RuleModel {
        RuleModel { warning: Some(code), ..self }
    }

    /// The rule's class is one of these.
    pub open spec fn keyed_by(self, classes: Seq<Seq<char>>) -> bool {
        self.key matches Some(KeyModel::Class(name)) && classes.contains(name)
    }
}

/// The rule's identity.
pub fn rule_id(rule: &RulePlan) -> (result: RuleId)
    ensures
        result == rule@.id(),
{
    RuleId { start: rule.span.0, end: rule.span.1 }
}

/// Whether a list holds the rule.
pub fn has_rule(list: &Vec<RuleId>, id: RuleId) -> (result: bool)
    ensures
        result == list@.contains(id),
{
    let mut i: usize = 0;
    while i < list.len()
        invariant
            i <= list@.len(),
            forall|j: int| 0 <= j < i ==> list@[j] != id,
        decreases list.len() - i,
    {
        if list[i] == id {
            return true;
        }
        i += 1;
    }
    false
}

/// Whether the rule's class is one of these.
pub fn is_keyed_by(rule: &RulePlan, classes: &Vec<String>) -> (result: bool)
    ensures
        result == rule@.keyed_by(texts(classes@)),
{
    match &rule.key {
        Some(SelectorKey::Class(name)) => list_has(classes, name.as_str()),
        _ => false,
    }
}

/// Gives a rule a warning.
pub fn warn_rule(rules: &mut Vec<RulePlan>, i: usize, code: &str)
    requires
        i < old(rules)@.len(),
    ensures
        views(final(rules)@) == views(old(rules)@).update(i as int, views(old(rules)@)[i as int].warned(code@)),
        final(rules)@.len() == old(rules)@.len(),
{
    let ghost before = views(rules@);
    assert(before[i as int] == rules@[i as int]@);
    rules[i].warning = Some(copy(code));
    assert(views(rules@) =~= before.update(i as int, before[i as int].warned(code@)));
}

/// Whether the rule has this warning.
pub fn has_warning(rule: &RulePlan, code: &str) -> (result: bool)
    ensures
        result == (rule@.warning == Some(code@)),
{
    match &rule.warning {
        Some(warning) => same(warning.as_str(), code),
        None => false,
    }
}

// ---------------------------------------------------------------------------
// Messages by rule
// ---------------------------------------------------------------------------

/// Texts by rule; the first entry of a rule counts.
pub type RuleTexts = Vec<(RuleId, String)>;

/// The models of [`RuleTexts`].
pub type RuleTextModels = Seq<(RuleId, Seq<char>)>;

pub open spec fn rule_texts(list: Seq<(RuleId, String)>) -> RuleTextModels {
    list.map_values(|entry: (RuleId, String)| (entry.0, entry.1@))
}

/// What the entries from `i` on say of a rule.
pub open spec fn rule_text_from(list: RuleTextModels, id: RuleId, i: int) -> Option<Seq<char>>
    decreases list.len() - i,
{
    if i < 0 || i >= list.len() {
        None
    } else if list[i].0 == id {
        Some(list[i].1)
    } else {
        rule_text_from(list, id, i + 1)
    }
}

/// What the list says of a rule.
pub open spec fn rule_text(list: RuleTextModels, id: RuleId) -> Option<Seq<char>> {
    rule_text_from(list, id, 0)
}

/// What the list says of a rule.
pub fn find_rule_text<'a>(list: &'a RuleTexts, id: RuleId) -> (result: Option<&'a String>)
    ensures
        crate::syntax::optional_text(result) == rule_text(rule_texts(list@), id),
{
    let mut i: usize = 0;
    while i < list.len()
        invariant
            i <= list@.len(),
            rule_text_from(rule_texts(list@), id, i as int) == rule_text(rule_texts(list@), id),
        decreases list.len() - i,
    {
        let entry = &list[i];
        assert(rule_texts(list@)[i as int] == (entry.0, entry.1@));
        if entry.0 == id {
            return Some(&entry.1);
        }
        i += 1;
    }
    None
}

/// The rule with the warning of an unproven relationship, where it has one.
pub open spec fn stamped_unproven(rule: RuleModel, unproven: RuleTextModels) -> RuleModel {
    if rule.warning is None && rule_text(unproven, rule.id()) is Some {
        rule.warned("unproven-css-module-relationship"@)
    } else {
        rule
    }
}

/// The rules with the warnings of unproven relationships.
pub open spec fn all_stamped_unproven(rules: Seq<RuleModel>, unproven: RuleTextModels) -> Seq<RuleModel> {
    rules.map_values(|rule: RuleModel| stamped_unproven(rule, unproven))
}

/// Warns of the rules whose relationships are not proven.
pub fn stamp_unproven_rules(rules: &mut Vec<RulePlan>, unproven: &RuleTexts)
    ensures
        views(final(rules)@) == all_stamped_unproven(views(old(rules)@), rule_texts(unproven@)),
{
    let ghost start = views(rules@);
    let ghost said = rule_texts(unproven@);
    let mut i: usize = 0;
    while i < rules.len()
        invariant
            i <= rules@.len(),
            said == rule_texts(unproven@),
            views(rules@).len() == start.len(),
            forall|k: int| 0 <= k < i ==> #[trigger] views(rules@)[k] == stamped_unproven(start[k], said),
            forall|k: int| i <= k < start.len() ==> #[trigger] views(rules@)[k] == start[k],
        decreases rules.len() - i,
    {
        assert(views(rules@)[i as int] == rules@[i as int]@);
        let unwarned = rules[i].warning.is_none();
        if unwarned && find_rule_text(unproven, rule_id(&rules[i])).is_some() {
            warn_rule(rules, i, "unproven-css-module-relationship");
        }
        i += 1;
    }
    assert(views(rules@) =~= all_stamped_unproven(start, said));
}

// ---------------------------------------------------------------------------
// Candidates
// ---------------------------------------------------------------------------

/// A candidate behind the utility prefix.
pub open spec fn prefixed(prefix: Seq<char>, candidate: Seq<char>) -> Seq<char> {
    prefix + ":"@ + candidate
}

/// A rule whose candidates stand behind the utility prefix.
pub open spec fn rule_prefixed(rule: RuleModel, prefix: Seq<char>) -> RuleModel {
    RuleModel {
        candidates: rule.candidates.map_values(|candidate: Seq<char>| prefixed(prefix, candidate)),
        candidate_properties: rule.candidate_properties.map_values(
            |entry: (Seq<char>, Seq<Seq<char>>)| (prefixed(prefix, entry.0), entry.1),
        ),
        ..rule
    }
}

fn write_prefixed(prefix: &str, candidate: &str) -> (result: String)
    ensures
        result@ == prefixed(prefix@, candidate@),
{
    let mut text = copy(prefix);
    text.append(":");
    text.append(candidate);
    text
}

fn prefix_candidates(list: &Vec<String>, prefix: &str) -> (result: Vec<String>)
    ensures
        texts(result@) == texts(list@).map_values(|candidate: Seq<char>| prefixed(prefix@, candidate)),
{
    let ghost goal = texts(list@).map_values(|candidate: Seq<char>| prefixed(prefix@, candidate));
    let mut result: Vec<String> = Vec::new();
    let mut i: usize = 0;
    while i < list.len()
        invariant
            i <= list@.len(),
            goal == texts(list@).map_values(|candidate: Seq<char>| prefixed(prefix@, candidate)),
            texts(result@) == goal.take(i as int),
        decreases list.len() - i,
    {
        let ghost before = result@;
        result.push(write_prefixed(prefix, list[i].as_str()));
        assert(texts(result@) =~= texts(before).push(goal[i as int]));
        i += 1;
        assert(texts(result@) =~= goal.take(i as int));
    }
    assert(goal.take(i as int) =~= goal);
    result
}

fn prefix_properties(list: &Properties, prefix: &str) -> (result: Properties)
    ensures
        property_models(result@) == property_models(list@).map_values(
            |entry: (Seq<char>, Seq<Seq<char>>)| (prefixed(prefix@, entry.0), entry.1),
        ),
{
    let ghost goal = property_models(list@).map_values(
        |entry: (Seq<char>, Seq<Seq<char>>)| (prefixed(prefix@, entry.0), entry.1),
    );
    let mut result: Properties = Vec::new();
    let mut i: usize = 0;
    while i < list.len()
        invariant
            i <= list@.len(),
            goal == property_models(list@).map_values(
                |entry: (Seq<char>, Seq<Seq<char>>)| (prefixed(prefix@, entry.0), entry.1),
            ),
            property_models(result@) == goal.take(i as int),
        decreases list.len() - i,
    {
        let ghost before = result@;
        result.push((write_prefixed(prefix, list[i].0.as_str()), copy_texts(&list[i].1)));
        assert(property_models(list@)[i as int] == (list@[i as int].0@, texts(list@[i as int].1@)));
        assert(property_models(result@) =~= property_models(before).push(goal[i as int]));
        i += 1;
        assert(property_models(result@) =~= goal.take(i as int));
    }
    assert(goal.take(i as int) =~= goal);
    result
}

/// Puts the candidates of every rule behind the utility prefix.
pub fn prefix_rule_candidates(rules: &mut Vec<RulePlan>, prefix: &str)
    ensures
        views(final(rules)@) == views(old(rules)@).map_values(|rule: RuleModel| rule_prefixed(rule, prefix@)),
{
    let ghost start = views(rules@);
    let mut i: usize = 0;
    while i < rules.len()
        invariant
            i <= rules@.len(),
            views(rules@).len() == start.len(),
            forall|k: int| 0 <= k < i ==> #[trigger] views(rules@)[k] == rule_prefixed(start[k], prefix@),
            forall|k: int| i <= k < start.len() ==> #[trigger] views(rules@)[k] == start[k],
        decreases rules.len() - i,
    {
        let ghost before = rules@;
        assert(views(rules@)[i as int] == rules@[i as int]@);
        let candidates = prefix_candidates(&rules[i].candidates, prefix);
        let properties = prefix_properties(&rules[i].candidate_properties, prefix);
        rules[i].candidates = candidates;
        rules[i].candidate_properties = properties;
        assert(rules@[i as int]@ == rule_prefixed(start[i as int], prefix@));
        assert forall|k: int| 0 <= k < start.len() && k != i implies #[trigger] views(rules@)[k] == views(before)[k] by {
            assert(rules@[k] == before[k]);
        }
        i += 1;
    }
    assert(views(rules@) =~= start.map_values(|rule: RuleModel| rule_prefixed(rule, prefix@)));
}

/// The entries with more candidates for a key, from entry `i` on; each list
/// is in ascending order.
pub open spec fn mapped_from(
    entries: Seq<(KeyModel, Seq<Seq<char>>)>,
    key: KeyModel,
    more: Seq<Seq<char>>,
    i: int,
) -> Seq<(KeyModel, Seq<Seq<char>>)>
    decreases entries.len() - i,
{
    if i < 0 || i >= entries.len() {
        entries.push((key, with_names(seq![], more)))
    } else if entries[i].0 == key {
        entries.update(i, (key, with_names(entries[i].1, more)))
    } else {
        mapped_from(entries, key, more, i + 1)
    }
}

/// Adds candidates of a key, each list in ascending order and without
/// repetitions.
pub fn add_candidates(map: &mut Candidates, key: &SelectorKey, more: &Vec<String>)
    ensures
        final(map)@ == mapped_from(old(map)@, key@, texts(more@), 0),
{
    let ghost start = map@;
    let mut i: usize = 0;
    while i < map.entries.len()
        invariant
            i <= map.entries@.len(),
            map@ == start,
            start == old(map)@,
            mapped_from(start, key@, texts(more@), i as int) == mapped_from(start, key@, texts(more@), 0),
        decreases map.entries.len() - i,
    {
        assert(map@[i as int] == (map.entries@[i as int].0@, texts(map.entries@[i as int].1@)));
        if map.entries[i].0.same(key) {
            let mut list = copy_texts(&map.entries[i].1);
            insert_names(&mut list, more);
            map.entries[i].1 = list;
            assert(map@ =~= start.update(i as int, (key@, with_names(start[i as int].1, texts(more@)))));
            return;
        }
        i += 1;
    }
    let mut list: Vec<String> = Vec::new();
    assert(texts(list@) =~= Seq::empty());
    insert_names(&mut list, more);
    map.entries.push((key.copy(), list));
    assert(map@ =~= start.push((key@, with_names(seq![], texts(more@)))));
}

/// The rule's candidates apply.
pub open spec fn applies(rule: RuleModel, blocked: Seq<Seq<char>>) -> bool {
    rule.key is Some && rule.warning is None && !rule.keyed_by(blocked)
}

/// The candidates of the first `n` rules that apply, by key.
pub open spec fn candidate_map_of(rules: Seq<RuleModel>, blocked: Seq<Seq<char>>, n: int) -> Seq<
    (KeyModel, Seq<Seq<char>>),
>
    decreases n,
{
    if n <= 0 {
        seq![]
    } else {
        let before = candidate_map_of(rules, blocked, n - 1);
        if applies(rules[n - 1], blocked) {
            mapped_from(before, rules[n - 1].key->0, rules[n - 1].candidates, 0)
        } else {
            before
        }
    }
}

/// The candidates of the rules that apply, by key.
pub fn build_candidate_map(rules: &Vec<RulePlan>, blocked: &Vec<String>) -> (result: Candidates)
    ensures
        result@ == candidate_map_of(views(rules@), texts(blocked@), rules@.len() as int),
{
    let mut map = Candidates { entries: Vec::new() };
    assert(map@ =~= Seq::empty());
    let mut n: usize = 0;
    while n < rules.len()
        invariant
            n <= rules@.len(),
            map@ == candidate_map_of(views(rules@), texts(blocked@), n as int),
        decreases rules.len() - n,
    {
        let rule = &rules[n];
        assert(views(rules@)[n as int] == rule@);
        if rule.warning.is_none() && !is_keyed_by(rule, blocked) {
            if let Some(key) = &rule.key {
                add_candidates(&mut map, key, &rule.candidates);
            }
        }
        n += 1;
    }
    map
}

// ---------------------------------------------------------------------------
// Classes of rules
// ---------------------------------------------------------------------------

/// Warnings that retain a single rule during batch planning without blocking
/// the rest of its class's rules from converting.
pub open spec fn batch_retained(warning: Option<Seq<char>>) -> bool {
    warning == Some("batch-stylesheet-conflict"@) || warning == Some("candidate-compilation-failure"@)
}

/// Whether the warning retains a single rule without blocking the rest of its
/// class's rules from converting.
pub fn is_batch_retained(rule: &RulePlan) -> (result: bool)
    ensures
        result == batch_retained(rule@.warning),
{
    has_warning(rule, "batch-stylesheet-conflict") || has_warning(rule, "candidate-compilation-failure")
}

/// Which rules' classes are collected.
#[derive(Clone, Copy, PartialEq, Eq, Structural, Debug)]
pub enum Choice {
    /// Every rule.
    All,
    /// Every rule with a warning.
    Warned,
    /// The rules that a batch retains one by one.
    BatchRetained,
    /// The other rules with a warning.
    Blocked,
}

pub open spec fn chosen(choice: Choice, rule: RuleModel) -> bool {
    match choice {
        Choice::All => true,
        Choice::Warned => rule.warning is Some,
        Choice::BatchRetained => batch_retained(rule.warning),
        Choice::Blocked => rule.warning is Some && !batch_retained(rule.warning),
    }
}

/// The classes of the chosen ones of the first `n` rules, in ascending order.
pub open spec fn classes_of_rules(rules: Seq<RuleModel>, choice: Choice, n: int) -> Seq<Seq<char>>
    decreases n,
{
    if n <= 0 {
        seq![]
    } else if chosen(choice, rules[n - 1]) {
        with_names(classes_of_rules(rules, choice, n - 1), rules[n - 1].related_classes)
    } else {
        classes_of_rules(rules, choice, n - 1)
    }
}

/// The classes of the chosen rules, in ascending order.
pub fn collect_rule_classes(rules: &Vec<RulePlan>, choice: Choice) -> (result: Vec<String>)
    ensures
        texts(result@) == classes_of_rules(views(rules@), choice, rules@.len() as int),
{
    let mut classes: Vec<String> = Vec::new();
    assert(texts(classes@) =~= Seq::empty());
    let mut n: usize = 0;
    while n < rules.len()
        invariant
            n <= rules@.len(),
            texts(classes@) == classes_of_rules(views(rules@), choice, n as int),
        decreases rules.len() - n,
    {
        let rule = &rules[n];
        assert(views(rules@)[n as int] == rule@);
        let taken = match choice {
            Choice::All => true,
            Choice::Warned => rule.warning.is_some(),
            Choice::BatchRetained => is_batch_retained(rule),
            Choice::Blocked => rule.warning.is_some() && !is_batch_retained(rule),
        };
        if taken {
            insert_names(&mut classes, &rule.related_classes);
        }
        n += 1;
    }
    classes
}

} // verus!
