//! Which rules of a batch put conflicting utilities on one element.
use crate::consumer::{consumer_plan, plan_consumer_file, Offer, OfferModel};
use crate::css::{Halt, HaltModel};
use crate::decisions::{rule_conflicts, RuleConflictModels, RuleConflicts};
use crate::media_gate::{clash, do_clash, BatchMatch, BatchMatchModel, Utilities, UtilitiesModel};
use crate::number::pairs_of;
use crate::plan::{CandidateMatch, Candidates, MatchModel};
use crate::request::{copy_pairs, BatchStylesheet, Settings, SettingsModel, SheetModel};
use crate::rules::{
    add_candidates, applies, classes_of_rules, collect_rule_classes, has_rule, is_keyed_by, mapped_from, property_models,
    rule_id, stamp_unproven_rules, all_stamped_unproven, rule_texts, Choice, Properties, PropertyModels, RuleId,
    RuleModel, RulePlan, RuleTextModels, RuleTexts,
};
use crate::selector::KeyModel;
use crate::source::{FileModel, SourceFile};
use crate::text::{copy, copy_texts, is_before, list_has, precedes, same, texts, views};
use vstd::prelude::*;

verus! {

// ---------------------------------------------------------------------------
// Candidates of one stylesheet
// ---------------------------------------------------------------------------

/// The rules of a stylesheet on the batch's snapshot of the files.
pub struct CandidateMaps {
    pub rules: Vec<RulePlan>,
    /// The classes of rules with a warning.
    pub blocked_classes: Vec<String>,
    pub candidates: Candidates,
}

/// The model of [`CandidateMaps`].
pub struct MapsModel {
    pub rules: Seq<RuleModel>,
    pub blocked_classes: Seq<Seq<char>>,
    pub candidates: Seq<(KeyModel, Seq<Seq<char>>)>,
}

impl View for CandidateMaps {
    type V = MapsModel;

    open spec fn view(&self) -> MapsModel {
        MapsModel {
            rules: views(self.rules@),
            blocked_classes: texts(self.blocked_classes@),
            candidates: self.candidates@,
        }
    }
}

/// The rule's candidates count in the batch. Externally blocked rules never
/// apply their candidates, so they must not create cross-stylesheet conflicts.
pub open spec fn counts(rule: RuleModel, blocked_classes: Seq<Seq<char>>, blocked: Seq<RuleId>) -> bool {
    !blocked.contains(rule.id()) && applies(rule, blocked_classes)
}

/// The candidates of the first `n` rules that count, by key.
pub open spec fn counted_map(
    rules: Seq<RuleModel>,
    blocked_classes: Seq<Seq<char>>,
    blocked: Seq<RuleId>,
    n: int,
) -> Seq<(KeyModel, Seq<Seq<char>>)>
    decreases n,
{
    if n <= 0 {
        seq![]
    } else {
        let before = counted_map(rules, blocked_classes, blocked, n - 1);
        if counts(rules[n - 1], blocked_classes, blocked) {
            mapped_from(before, rules[n - 1].key->0, rules[n - 1].candidates, 0)
        } else {
            before
        }
    }
}

/// The rules of a stylesheet on the batch's snapshot.
pub open spec fn maps_of(rules: Seq<RuleModel>, unproven: RuleTextModels, blocked: Seq<RuleId>) -> MapsModel {
    let stamped = all_stamped_unproven(rules, unproven);
    let classes = classes_of_rules(stamped, Choice::Warned, stamped.len() as int);
    MapsModel {
        rules: stamped,
        blocked_classes: classes,
        candidates: counted_map(stamped, classes, blocked, stamped.len() as int),
    }
}

fn does_count(rule: &RulePlan, blocked_classes: &Vec<String>, blocked: &Vec<RuleId>) -> (result: bool)
    ensures
        result == counts(rule@, texts(blocked_classes@), blocked@),
{
    !has_rule(blocked, rule_id(rule)) && rule.key.is_some() && rule.warning.is_none() && !is_keyed_by(
        rule,
        blocked_classes,
    )
}

/// The rules of a stylesheet on the batch's snapshot.
pub fn build_maps(rules: Vec<RulePlan>, unproven: &RuleTexts, blocked: &Vec<RuleId>) -> (result: CandidateMaps)
    ensures
        result@ == maps_of(views(rules@), rule_texts(unproven@), blocked@),
{
    let mut rules = rules;
    stamp_unproven_rules(&mut rules, unproven);
    assert(views(rules@).len() == rules@.len());
    let classes = collect_rule_classes(&rules, Choice::Warned);
    let mut map = Candidates { entries: Vec::new() };
    assert(map@ =~= Seq::empty());
    let mut n: usize = 0;
    while n < rules.len()
        invariant
            n <= rules@.len(),
            map@ == counted_map(views(rules@), texts(classes@), blocked@, n as int),
        decreases rules.len() - n,
    {
        let rule = &rules[n];
        assert(views(rules@)[n as int] == rule@);
        if does_count(rule, &classes, blocked) {
            if let Some(key) = &rule.key {
                add_candidates(&mut map, key, &rule.candidates);
            }
        }
        n += 1;
    }
    CandidateMaps { rules, blocked_classes: classes, candidates: map }
}

/// The properties of a candidate from entry `i` on.
pub open spec fn properties_from(list: PropertyModels, candidate: Seq<char>, i: int) -> Seq<Seq<char>>
    decreases list.len() - i,
{
    if i < 0 || i >= list.len() {
        seq![]
    } else if list[i].0 == candidate {
        list[i].1
    } else {
        properties_from(list, candidate, i + 1)
    }
}

fn find_properties(list: &Properties, candidate: &str) -> (result: Vec<String>)
    ensures
        texts(result@) == properties_from(property_models(list@), candidate@, 0),
{
    let mut i: usize = 0;
    while i < list.len()
        invariant
            i <= list@.len(),
            properties_from(property_models(list@), candidate@, i as int) == properties_from(
                property_models(list@),
                candidate@,
                0,
            ),
        decreases list.len() - i,
    {
        assert(property_models(list@)[i as int] == (list@[i as int].0@, texts(list@[i as int].1@)));
        if same(list[i].0.as_str(), candidate) {
            return copy_texts(&list[i].1);
        }
        i += 1;
    }
    let none: Vec<String> = Vec::new();
    assert(texts(none@) =~= Seq::empty());
    none
}

/// The rule gives its elements this candidate.
pub open spec fn gives(
    rule: RuleModel,
    blocked_classes: Seq<Seq<char>>,
    blocked: Seq<RuleId>,
    key: KeyModel,
    candidate: Seq<char>,
) -> bool {
    counts(rule, blocked_classes, blocked) && rule.key == Some(key) && rule.candidates.contains(candidate)
}

// ---------------------------------------------------------------------------
// Matches
// ---------------------------------------------------------------------------

/// A candidate that a rule puts on the element at a place of a file.
#[derive(Debug)]
pub struct GroupedMatch {
    pub file: String,
    pub start: usize,
    pub end: usize,
    pub matched: BatchMatch,
}

/// The model of a [`GroupedMatch`].
pub struct GroupedModel {
    pub file: Seq<char>,
    pub start: int,
    pub end: int,
    pub matched: BatchMatchModel,
}

impl View for GroupedMatch {
    type V = GroupedModel;

    open spec fn view(&self) -> GroupedModel {
        GroupedModel {
            file: self.file@,
            start: self.start as int,
            end: self.end as int,
            matched: self.matched@,
        }
    }
}

/// What matches are collected for.
pub struct ProbeModel {
    pub stylesheet: int,
    pub maps: MapsModel,
    pub blocked: Seq<RuleId>,
}

/// The matches that the first `n` rules stand behind.
pub open spec fn origins(at: ProbeModel, file: Seq<char>, found: MatchModel, n: int) -> Seq<GroupedModel>
    decreases n,
{
    if n <= 0 {
        seq![]
    } else {
        let before = origins(at, file, found, n - 1);
        let rule = at.maps.rules[n - 1];
        if gives(rule, at.maps.blocked_classes, at.blocked, found.key, found.origin_candidate) {
            before.push(
                GroupedModel {
                    file,
                    start: found.start,
                    end: found.end,
                    matched: BatchMatchModel {
                        stylesheet: at.stylesheet,
                        candidate: found.candidate,
                        rule: rule.id(),
                        properties: properties_from(rule.candidate_properties, found.origin_candidate, 0),
                    },
                },
            )
        } else {
            before
        }
    }
}

/// What the first `n` matches in a file come from.
pub open spec fn file_matches(at: ProbeModel, file: Seq<char>, found: Seq<MatchModel>, n: int) -> Seq<GroupedModel>
    decreases n,
{
    if n <= 0 {
        seq![]
    } else {
        file_matches(at, file, found, n - 1) + origins(at, file, found[n - 1], at.maps.rules.len() as int)
    }
}

/// The matches of a stylesheet in the first `n` files that can be written.
pub open spec fn sheet_matches(at: ProbeModel, offer: OfferModel, files: Seq<FileModel>, n: int) -> Result<
    Seq<GroupedModel>,
    HaltModel,
>
    decreases n,
{
    if n <= 0 {
        Ok(seq![])
    } else {
        match sheet_matches(at, offer, files, n - 1) {
            Err(halt) => Err(halt),
            Ok(before) => if !files[n - 1].writable {
                Ok(before)
            } else {
                match consumer_plan(files[n - 1], offer) {
                    Err(error) => Err(HaltModel::Failed(error)),
                    Ok(plan) => Ok(
                        before + file_matches(at, files[n - 1].path, plan.matches, plan.matches.len() as int),
                    ),
                }
            },
        }
    }
}

struct Probe<'a> {
    stylesheet: usize,
    maps: &'a CandidateMaps,
    blocked: &'a Vec<RuleId>,
}

impl<'a> View for Probe<'a> {
    type V = ProbeModel;

    closed spec fn view(&self) -> ProbeModel {
        ProbeModel { stylesheet: self.stylesheet as int, maps: self.maps@, blocked: self.blocked@ }
    }
}

fn does_give<'a>(at: &Probe<'a>, rule: &RulePlan, found: &CandidateMatch) -> (result: bool)
    ensures
        result == gives(rule@, at@.maps.blocked_classes, at@.blocked, found@.key, found@.origin_candidate),
{
    does_count(rule, &at.maps.blocked_classes, at.blocked) && (match &rule.key {
        Some(key) => key.same(&found.key),
        None => false,
    }) && list_has(&rule.candidates, found.origin_candidate.as_str())
}

fn push_origins<'a>(at: &Probe<'a>, file: &str, found: &CandidateMatch, list: &mut Vec<GroupedMatch>)
    ensures
        views(final(list)@) == views(old(list)@) + origins(at@, file@, found@, at@.maps.rules.len() as int),
{
    let ghost start = views(list@);
    assert(start + origins(at@, file@, found@, 0) =~= start);
    let rules = &at.maps.rules;
    assert(at@.maps.rules.len() == rules@.len());
    let mut n: usize = 0;
    while n < rules.len()
        invariant
            n <= rules@.len(),
            at@.maps.rules == views(rules@),
            views(list@) == start + origins(at@, file@, found@, n as int),
        decreases rules.len() - n,
    {
        let rule = &rules[n];
        assert(at@.maps.rules[n as int] == rule@);
        if does_give(at, rule, found) {
            let entry = GroupedMatch {
                file: copy(file),
                start: found.start,
                end: found.end,
                matched: BatchMatch {
                    stylesheet: at.stylesheet,
                    candidate: copy(found.candidate.as_str()),
                    rule: rule_id(rule),
                    properties: find_properties(&rule.candidate_properties, found.origin_candidate.as_str()),
                },
            };
            let ghost before = list@;
            let ghost model = entry@;
            list.push(entry);
            assert(views(list@) =~= views(before).push(model));
        }
        n += 1;
        assert(views(list@) =~= start + origins(at@, file@, found@, n as int));
    }
}

fn push_file_matches<'a>(at: &Probe<'a>, file: &str, found: &Vec<CandidateMatch>, list: &mut Vec<GroupedMatch>)
    ensures
        views(final(list)@) == views(old(list)@) + file_matches(at@, file@, views(found@), found@.len() as int),
{
    let ghost start = views(list@);
    assert(start + file_matches(at@, file@, views(found@), 0) =~= start);
    let mut n: usize = 0;
    while n < found.len()
        invariant
            n <= found@.len(),
            views(list@) == start + file_matches(at@, file@, views(found@), n as int),
        decreases found.len() - n,
    {
        assert(views(found@)[n as int] == found@[n as int]@);
        push_origins(at, file, &found[n], list);
        n += 1;
        assert(views(list@) =~= start + file_matches(at@, file@, views(found@), n as int));
    }
}

proof fn lemma_matches_halt(at: ProbeModel, offer: OfferModel, files: Seq<FileModel>, k: int, n: int)
    requires
        0 <= k <= n,
        sheet_matches(at, offer, files, k) is Err,
    ensures
        sheet_matches(at, offer, files, n) == sheet_matches(at, offer, files, k),
    decreases n - k,
{
    if k < n {
        lemma_matches_halt(at, offer, files, k, n - 1);
    }
}

/// What a stylesheet of a batch offers on the snapshot. The conflict pass must
/// keep collecting matches, so no class is preserved and bindings may name any
/// class.
pub open spec fn probe_offer(
    sheet: SheetModel,
    settings: SettingsModel,
    known: UtilitiesModel,
    maps: MapsModel,
) -> OfferModel {
    OfferModel {
        sheet,
        entries: maps.candidates,
        preserved: seq![],
        prefix: settings.utility_prefix,
        rule_classes: None,
        conflicts: known.conflicts,
    }
}

/// Adds the matches of a stylesheet in the files that can be written.
pub fn collect_matches(
    stylesheet: usize,
    sheet: &BatchStylesheet,
    settings: &Settings,
    known: &Utilities,
    maps: &CandidateMaps,
    blocked: &Vec<RuleId>,
    files: &Vec<SourceFile>,
    list: &mut Vec<GroupedMatch>,
) -> (result: Result<(), Halt>)
    ensures
        match sheet_matches(
            ProbeModel { stylesheet: stylesheet as int, maps: maps@, blocked: blocked@ },
            probe_offer(sheet@, settings@, known@, maps@),
            views(files@),
            files@.len() as int,
        ) {
            Ok(model) => result is Ok && views(final(list)@) == views(old(list)@) + model,
            Err(model) => result matches Err(halt) && halt@ == model,
        },
{
    let none: Vec<String> = Vec::new();
    assert(texts(none@) =~= Seq::empty());
    let offer = Offer {
        sheet,
        candidates: &maps.candidates,
        preserved: &none,
        prefix: &settings.utility_prefix,
        rule_classes: None,
        conflicts: &known.conflicts,
    };
    let at = Probe { stylesheet, maps, blocked };
    let ghost start = views(list@);
    let mut n: usize = 0;
    assert(start + Seq::<GroupedModel>::empty() =~= start);
    while n < files.len()
        invariant
            n <= files@.len(),
            start == views(old(list)@),
            at@ == (ProbeModel { stylesheet: stylesheet as int, maps: maps@, blocked: blocked@ }),
            offer@ == probe_offer(sheet@, settings@, known@, maps@),
            sheet_matches(at@, offer@, views(files@), n as int) matches Ok(model) && views(list@) == start + model,
        decreases files.len() - n,
    {
        let file = &files[n];
        assert(views(files@)[n as int] == file@);
        let ghost before = sheet_matches(at@, offer@, views(files@), n as int)->Ok_0;
        if file.writable {
            match plan_consumer_file(file, &offer) {
                Err(error) => {
                    proof {
                        lemma_matches_halt(at@, offer@, views(files@), n + 1, files@.len() as int);
                    }
                    return Err(Halt::Failed(error));
                },
                Ok(plan) => {
                    assert(plan@.matches.len() == plan.matches@.len());
                    push_file_matches(&at, file.path.as_str(), &plan.matches, list);
                    assert(views(list@) =~= start + (before + file_matches(
                        at@,
                        file@.path,
                        plan@.matches,
                        plan@.matches.len() as int,
                    )));
                },
            }
        }
        n += 1;
    }
    Ok(())
}

// ---------------------------------------------------------------------------
// Conflicts
// ---------------------------------------------------------------------------

/// A pair of utilities.
pub type PairModel = (Seq<char>, Seq<char>);

/// The pair comes first.
pub open spec fn pair_precedes(a: PairModel, b: PairModel) -> bool {
    precedes(a.0, b.0) || (a.0 == b.0 && precedes(a.1, b.1))
}

/// The pairs (in ascending order) with one more in its place.
pub open spec fn with_pair(list: Seq<PairModel>, pair: PairModel) -> Seq<PairModel>
    decreases list.len(),
{
    if list.len() == 0 || pair_precedes(list.last(), pair) {
        list.push(pair)
    } else if list.last() == pair {
        list
    } else {
        with_pair(list.drop_last(), pair).push(list.last())
    }
}

proof fn lemma_pair_place(list: Seq<PairModel>, pair: PairModel, k: int)
    requires
        0 <= k <= list.len(),
        forall|j: int| k <= j < list.len() ==> !pair_precedes(#[trigger] list[j], pair) && list[j] != pair,
        k > 0 ==> pair_precedes(list[k - 1], pair) || list[k - 1] == pair,
    ensures
        with_pair(list, pair) == if k > 0 && !pair_precedes(list[k - 1], pair) {
            list
        } else {
            list.insert(k, pair)
        },
    decreases list.len(),
{
    if k == list.len() {
        assert(list.insert(k, pair) =~= list.push(pair));
    } else {
        let rest = list.drop_last();
        lemma_pair_place(rest, pair, k);
        assert(rest.push(list.last()) =~= list);
        assert(rest.insert(k, pair).push(list.last()) =~= list.insert(k, pair));
    }
}

fn is_pair_before(a: &(String, String), b: &(String, String)) -> (result: bool)
    ensures
        result == pair_precedes((a.0@, a.1@), (b.0@, b.1@)),
{
    is_before(a.0.as_str(), b.0.as_str()) || (same(a.0.as_str(), b.0.as_str()) && is_before(
        a.1.as_str(),
        b.1.as_str(),
    ))
}

fn insert_pair(list: &mut Vec<(String, String)>, pair: (String, String))
    ensures
        pairs_of(final(list)@) == with_pair(pairs_of(old(list)@), (pair.0@, pair.1@)),
{
    let ghost model = (pair.0@, pair.1@);
    let ghost start = pairs_of(list@);
    let mut k: usize = list.len();
    while k > 0 && !is_pair_before(&list[k - 1], &pair) && !(same(list[k - 1].0.as_str(), pair.0.as_str()) && same(
        list[k - 1].1.as_str(),
        pair.1.as_str(),
    ))
        invariant
            k <= list@.len(),
            start == pairs_of(list@),
            list@ == old(list)@,
            model == (pair.0@, pair.1@),
            forall|j: int| k <= j < list@.len() ==> !pair_precedes(#[trigger] start[j], model) && start[j] != model,
        decreases k,
    {
        assert(start[k - 1] == (list@[k - 1].0@, list@[k - 1].1@));
        k -= 1;
    }
    proof {
        if k > 0 {
            assert(start[k - 1] == (list@[k - 1].0@, list@[k - 1].1@));
        }
        lemma_pair_place(start, model, k as int);
    }
    if k == 0 || is_pair_before(&list[k - 1], &pair) {
        list.insert(k, pair);
        assert(pairs_of(list@) =~= start.insert(k as int, model));
    }
}

/// A rule of a stylesheet of the batch, and its pairs.
pub type OwnedPairs = ((usize, RuleId), Vec<(String, String)>);

/// The model of [`OwnedPairs`].
pub type OwnedModel = ((int, RuleId), Seq<PairModel>);

pub open spec fn owned_models(list: Seq<OwnedPairs>) -> Seq<OwnedModel> {
    list.map_values(|entry: OwnedPairs| (((entry.0).0 as int, (entry.0).1), pairs_of(entry.1@)))
}

/// The pairs with one more for a rule, from entry `i` on.
pub open spec fn with_owned(list: Seq<OwnedModel>, owner: (int, RuleId), pair: PairModel, i: int) -> Seq<OwnedModel>
    decreases list.len() - i,
{
    if i < 0 || i >= list.len() {
        list.push((owner, with_pair(seq![], pair)))
    } else if list[i].0 == owner {
        list.update(i, (owner, with_pair(list[i].1, pair)))
    } else {
        with_owned(list, owner, pair, i + 1)
    }
}

fn add_owned(list: &mut Vec<OwnedPairs>, sheet: usize, rule: RuleId, left: &str, right: &str)
    ensures
        owned_models(final(list)@) == with_owned(
            owned_models(old(list)@),
            (sheet as int, rule),
            (left@, right@),
            0,
        ),
{
    let ghost start = owned_models(list@);
    let ghost owner = (sheet as int, rule);
    let ghost pair = (left@, right@);
    let mut i: usize = 0;
    while i < list.len()
        invariant
            i <= list@.len(),
            owned_models(list@) == start,
            start == owned_models(old(list)@),
            owner == (sheet as int, rule),
            pair == (left@, right@),
            with_owned(start, owner, pair, i as int) == with_owned(start, owner, pair, 0),
        decreases list.len() - i,
    {
        assert(start[i as int] == (
            ((list@[i as int].0).0 as int, (list@[i as int].0).1),
            pairs_of(list@[i as int].1@),
        ));
        if (list[i].0).0 == sheet && (list[i].0).1 == rule {
            let mut pairs = copy_pairs(&list[i].1);
            insert_pair(&mut pairs, (copy(left), copy(right)));
            list[i].1 = pairs;
            assert(owned_models(list@) =~= start.update(i as int, (owner, with_pair(start[i as int].1, pair))));
            return;
        }
        i += 1;
    }
    let mut pairs: Vec<(String, String)> = Vec::new();
    assert(pairs_of(pairs@) =~= Seq::empty());
    insert_pair(&mut pairs, (copy(left), copy(right)));
    list.push(((sheet, rule), pairs));
    assert(owned_models(list@) =~= start.push((owner, with_pair(seq![], pair))));
}

/// The two matches are on one element and cannot both be written.
pub open spec fn matches_clash(
    settings: SettingsModel,
    known: UtilitiesModel,
    left: GroupedModel,
    right: GroupedModel,
) -> bool {
    left.file == right.file && left.start == right.start && left.end == right.end && clash(
        settings,
        known,
        left.matched,
        right.matched,
    )
}

/// The pair of candidates of two matches, in order.
pub open spec fn ordered_pair(left: GroupedModel, right: GroupedModel) -> PairModel {
    if precedes(right.matched.candidate, left.matched.candidate) {
        (right.matched.candidate, left.matched.candidate)
    } else {
        (left.matched.candidate, right.matched.candidate)
    }
}

/// What two matches add: both rules keep the pair.
pub open spec fn with_clash(
    settings: SettingsModel,
    known: UtilitiesModel,
    list: Seq<OwnedModel>,
    left: GroupedModel,
    right: GroupedModel,
) -> Seq<OwnedModel> {
    if matches_clash(settings, known, left, right) {
        let pair = ordered_pair(left, right);
        with_owned(
            with_owned(list, (left.matched.stylesheet, left.matched.rule), pair, 0),
            (right.matched.stylesheet, right.matched.rule),
            pair,
            0,
        )
    } else {
        list
    }
}

/// What match `i` and the matches behind it up to `j` add.
pub open spec fn row_clashes(
    settings: SettingsModel,
    known: UtilitiesModel,
    list: Seq<OwnedModel>,
    matches: Seq<GroupedModel>,
    i: int,
    j: int,
) -> Seq<OwnedModel>
    decreases j - i,
{
    if j <= i + 1 {
        list
    } else {
        with_clash(
            settings,
            known,
            row_clashes(settings, known, list, matches, i, j - 1),
            matches[i],
            matches[j - 1],
        )
    }
}

/// The pairs that conflict, by rule, over the first `n` matches as left sides.
pub open spec fn all_clashes(settings: SettingsModel, known: UtilitiesModel, matches: Seq<GroupedModel>, n: int) -> Seq<
    OwnedModel,
>
    decreases n,
{
    if n <= 0 {
        seq![]
    } else {
        row_clashes(
            settings,
            known,
            all_clashes(settings, known, matches, n - 1),
            matches,
            n - 1,
            matches.len() as int,
        )
    }
}

fn note_clash(settings: &Settings, known: &Utilities, list: &mut Vec<OwnedPairs>, left: &GroupedMatch, right: &GroupedMatch)
    ensures
        owned_models(final(list)@) == with_clash(settings@, known@, owned_models(old(list)@), left@, right@),
{
    if left.start == right.start && left.end == right.end && same(left.file.as_str(), right.file.as_str()) && do_clash(
        settings,
        known,
        &left.matched,
        &right.matched,
    ) {
        let (a, b) = if is_before(right.matched.candidate.as_str(), left.matched.candidate.as_str()) {
            (right.matched.candidate.as_str(), left.matched.candidate.as_str())
        } else {
            (left.matched.candidate.as_str(), right.matched.candidate.as_str())
        };
        add_owned(list, left.matched.stylesheet, left.matched.rule, a, b);
        add_owned(list, right.matched.stylesheet, right.matched.rule, a, b);
    }
}

/// The pairs that conflict, by rule.
pub fn find_clashes(settings: &Settings, known: &Utilities, matches: &Vec<GroupedMatch>) -> (result: Vec<OwnedPairs>)
    ensures
        owned_models(result@) == all_clashes(settings@, known@, views(matches@), matches@.len() as int),
{
    let ghost models = views(matches@);
    let mut list: Vec<OwnedPairs> = Vec::new();
    assert(owned_models(list@) =~= Seq::empty());
    let mut i: usize = 0;
    while i < matches.len()
        invariant
            i <= matches@.len(),
            models == views(matches@),
            models.len() == matches@.len(),
            owned_models(list@) == all_clashes(settings@, known@, models, i as int),
        decreases matches.len() - i,
    {
        let ghost start = owned_models(list@);
        assert(models[i as int] == matches@[i as int]@);
        let mut j: usize = i + 1;
        while j < matches.len()
            invariant
                i < j <= matches@.len(),
                models == views(matches@),
                models.len() == matches@.len(),
                models[i as int] == matches@[i as int]@,
                owned_models(list@) == row_clashes(settings@, known@, start, models, i as int, j as int),
            decreases matches.len() - j,
        {
            assert(models[j as int] == matches@[j as int]@);
            note_clash(settings, known, &mut list, &matches[i], &matches[j]);
            j += 1;
        }
        i += 1;
    }
    list
}

/// The pairs of the rules of one stylesheet among the first `n`.
pub open spec fn sheet_conflicts(list: Seq<OwnedModel>, sheet: int, n: int) -> RuleConflictModels
    decreases n,
{
    if n <= 0 {
        seq![]
    } else if (list[n - 1].0).0 == sheet {
        sheet_conflicts(list, sheet, n - 1).push(((list[n - 1].0).1, list[n - 1].1))
    } else {
        sheet_conflicts(list, sheet, n - 1)
    }
}

/// The pairs of the rules of one stylesheet.
pub fn collect_sheet_conflicts(list: &Vec<OwnedPairs>, sheet: usize) -> (result: RuleConflicts)
    ensures
        rule_conflicts(result@) == sheet_conflicts(owned_models(list@), sheet as int, list@.len() as int),
{
    let ghost models = owned_models(list@);
    let mut result: RuleConflicts = Vec::new();
    assert(rule_conflicts(result@) =~= Seq::empty());
    let mut n: usize = 0;
    while n < list.len()
        invariant
            n <= list@.len(),
            models == owned_models(list@),
            rule_conflicts(result@) == sheet_conflicts(models, sheet as int, n as int),
        decreases list.len() - n,
    {
        assert(models[n as int] == (
            ((list@[n as int].0).0 as int, (list@[n as int].0).1),
            pairs_of(list@[n as int].1@),
        ));
        if (list[n].0).0 == sheet {
            let ghost before = result@;
            let pairs = copy_pairs(&list[n].1);
            let ghost model = pairs_of(pairs@);
            result.push(((list[n].0).1, pairs));
            assert(rule_conflicts(result@) =~= rule_conflicts(before).push(((list@[n as int].0).1, model)));
        }
        n += 1;
    }
    result
}

} // verus!
