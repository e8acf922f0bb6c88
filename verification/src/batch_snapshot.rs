//! What a batch decides on the snapshot of its files, before it edits any.
use crate::batch_conflicts::{
    all_clashes, build_maps, collect_matches, collect_sheet_conflicts, find_clashes, maps_of, owned_models,
    probe_offer, sheet_conflicts, sheet_matches, CandidateMaps, GroupedMatch, GroupedModel, MapsModel, OwnedModel,
    OwnedPairs, ProbeModel,
};
use crate::css::{Halt, HaltModel};
use crate::decisions::{conflicts_from, find_conflicts, rule_conflicts, RuleConflictModels, RuleConflicts};
use crate::duplicate::{duplicate_all, Duplicate};
use crate::jsx_graph::World;
use crate::names::{insert_names, with_names};
use crate::relationships::{retained_in, unproven_relationship_rules};
use crate::request::{
    batch_stylesheet_request, BatchModel, BatchPlanRequest, BatchStylesheet, PlanRequest, RequestModel, SheetModel,
};
use crate::request_rules::{parse_request_rules, request_rules, Knowledge, KnowledgeModel};
use crate::rules::{has_rule, rule_id, rule_texts, RuleId, RuleModel, RulePlan, RuleTextModels, RuleTexts};
use crate::source::{ElementModel, FileModel, HtmlElement, SourceFile};
use crate::text::{copy, list_has, same, texts, views};
use vstd::prelude::*;

verus! {

// ---------------------------------------------------------------------------
// Inputs by stylesheet
// ---------------------------------------------------------------------------

/// The rules that their relationships retain, by stylesheet of a batch.
pub struct Proofs {
    /// On the snapshot.
    pub shown: Vec<RuleTexts>,
    /// On the snapshot without the component's own module bindings.
    pub hidden: Vec<RuleTexts>,
}

/// The model of [`Proofs`].
pub struct ProofsModel {
    pub shown: Seq<RuleTextModels>,
    pub hidden: Seq<RuleTextModels>,
}

pub open spec fn text_lists(list: Seq<RuleTexts>) -> Seq<RuleTextModels> {
    list.map_values(|entry: RuleTexts| rule_texts(entry@))
}

impl View for Proofs {
    type V = ProofsModel;

    open spec fn view(&self) -> ProofsModel {
        ProofsModel { shown: text_lists(self.shown@), hidden: text_lists(self.hidden@) }
    }
}

/// The rules that are retained for stylesheet `s`.
pub open spec fn proof_at(list: Seq<RuleTextModels>, s: int) -> RuleTextModels {
    if 0 <= s < list.len() {
        list[s]
    } else {
        seq![]
    }
}

/// A copy of the rules that are retained for stylesheet `s`.
pub fn copy_proof(list: &Vec<RuleTexts>, s: usize) -> (result: RuleTexts)
    ensures
        rule_texts(result@) == proof_at(text_lists(list@), s as int),
{
    let mut result: RuleTexts = Vec::new();
    assert(rule_texts(result@) =~= Seq::empty());
    if s >= list.len() {
        return result;
    }
    let from = &list[s];
    assert(text_lists(list@)[s as int] == rule_texts(from@));
    let mut i: usize = 0;
    while i < from.len()
        invariant
            i <= from@.len(),
            rule_texts(result@) == rule_texts(from@).take(i as int),
        decreases from.len() - i,
    {
        let ghost before = result@;
        result.push((from[i].0, copy(from[i].1.as_str())));
        assert(rule_texts(result@) =~= rule_texts(before).push((from@[i as int].0, from@[i as int].1@)));
        i += 1;
        assert(rule_texts(result@) =~= rule_texts(from@).take(i as int));
    }
    assert(rule_texts(from@).take(i as int) =~= rule_texts(from@));
    result
}

// ---------------------------------------------------------------------------
// Relationship proofs
// ---------------------------------------------------------------------------

/// An element without its module binding.
pub open spec fn unbound(element: ElementModel) -> ElementModel {
    ElementModel { module_binding: None, ..element }
}

/// A file whose module bindings are hidden, where it is the component itself.
pub open spec fn file_unbound(file: FileModel, path: Seq<char>) -> FileModel {
    if file.path == path {
        FileModel { html_elements: file.html_elements.map_values(|element: ElementModel| unbound(element)), ..file }
    } else {
        file
    }
}

/// The files without the component's module bindings.
pub open spec fn files_unbound(files: Seq<FileModel>, path: Seq<char>) -> Seq<FileModel> {
    files.map_values(|file: FileModel| file_unbound(file, path))
}

fn unbind(element: &HtmlElement) -> (result: HtmlElement)
    ensures
        result@ == unbound(element@),
{
    let mut copied = element.duplicate();
    copied.module_binding = None;
    copied
}

fn unbind_all(elements: &Vec<HtmlElement>) -> (result: Vec<HtmlElement>)
    ensures
        views(result@) == views(elements@).map_values(|element: ElementModel| unbound(element)),
{
    let ghost goal = views(elements@).map_values(|element: ElementModel| unbound(element));
    let mut result: Vec<HtmlElement> = Vec::new();
    let mut i: usize = 0;
    while i < elements.len()
        invariant
            i <= elements@.len(),
            goal == views(elements@).map_values(|element: ElementModel| unbound(element)),
            goal.len() == elements@.len(),
            views(result@) == goal.take(i as int),
        decreases elements.len() - i,
    {
        assert(views(elements@)[i as int] == elements@[i as int]@);
        let ghost before = result@;
        result.push(unbind(&elements[i]));
        assert(views(result@) =~= views(before).push(goal[i as int]));
        i += 1;
        assert(views(result@) =~= goal.take(i as int));
    }
    assert(goal.take(i as int) =~= goal);
    result
}

fn unbind_files(files: &Vec<SourceFile>, path: &str) -> (result: Vec<SourceFile>)
    ensures
        views(result@) == files_unbound(views(files@), path@),
{
    let ghost goal = files_unbound(views(files@), path@);
    let mut result: Vec<SourceFile> = Vec::new();
    let mut i: usize = 0;
    while i < files.len()
        invariant
            i <= files@.len(),
            goal == files_unbound(views(files@), path@),
            goal.len() == files@.len(),
            views(result@) == goal.take(i as int),
        decreases files.len() - i,
    {
        assert(views(files@)[i as int] == files@[i as int]@);
        let ghost before = result@;
        let mut file = files[i].duplicate();
        if same(file.path.as_str(), path) {
            let elements = unbind_all(&file.html_elements);
            file.html_elements = elements;
        }
        result.push(file);
        assert(views(result@) =~= views(before).push(goal[i as int]));
        i += 1;
        assert(views(result@) =~= goal.take(i as int));
    }
    assert(goal.take(i as int) =~= goal);
    result
}

/// The request for stylesheet `s` on the snapshot.
pub open spec fn shown_request(batch: BatchModel, s: int) -> RequestModel {
    RequestModel { sheet: batch.stylesheets[s], settings: batch.settings, files: batch.files }
}

/// The request for stylesheet `s` on the snapshot without the component's own
/// module bindings.
pub open spec fn hidden_request(batch: BatchModel, s: int) -> RequestModel {
    RequestModel {
        sheet: batch.stylesheets[s],
        settings: batch.settings,
        files: files_unbound(batch.files, batch.stylesheets[s].css_path),
    }
}

/// Those are the rules that their relationships retain in the world of the
/// request's files. None is looked for where the rules cannot be read.
pub open spec fn proven(know: KnowledgeModel, request: RequestModel, unproven: RuleTextModels) -> bool {
    match request_rules(know, request) {
        Ok(found) => exists|world: World|
            #[trigger] retained_in(world, found.parsed.rules, request.sheet.css_path, request.files, unproven),
        Err(_) => unproven == Seq::<(RuleId, Seq<char>)>::empty(),
    }
}

fn prove(know: &Knowledge, request: &PlanRequest) -> (result: RuleTexts)
    ensures
        proven(know@, request@, rule_texts(result@)),
{
    match parse_request_rules(know, request) {
        Ok(found) => {
            let result = unproven_relationship_rules(
                &found.parsed.rules,
                request.sheet.css_path.as_str(),
                &request.files,
            );
            proof {
                let rules = found@.parsed.rules;
                let world = choose|world: World|
                    #[trigger] retained_in(
                        world,
                        rules,
                        request.sheet.css_path@,
                        views(request.files@),
                        rule_texts(result@),
                    );
                assert(retained_in(world, rules, request@.sheet.css_path, request@.files, rule_texts(result@)));
            }
            result
        },
        Err(_) => {
            let none: RuleTexts = Vec::new();
            assert(rule_texts(none@) =~= Seq::empty());
            none
        },
    }
}

/// The proofs are those of the batch's snapshot: every stylesheet is proven on
/// the same files, whatever edits the stylesheets before it make.
pub open spec fn proofs_of(know: KnowledgeModel, batch: BatchModel, proofs: ProofsModel) -> bool {
    &&& proofs.shown.len() == batch.stylesheets.len()
    &&& proofs.hidden.len() == batch.stylesheets.len()
    &&& forall|s: int|
        0 <= s < batch.stylesheets.len() ==> proven(know, shown_request(batch, s), #[trigger] proofs.shown[s])
    &&& forall|s: int|
        0 <= s < batch.stylesheets.len() ==> proven(know, hidden_request(batch, s), #[trigger] proofs.hidden[s])
}

/// Runs the relationship proofs of every stylesheet against the batch's
/// snapshot.
pub fn prove_batch(know: &Knowledge, batch: &BatchPlanRequest) -> (result: Proofs)
    ensures
        proofs_of(know@, batch@, result@),
{
    let mut shown: Vec<RuleTexts> = Vec::new();
    let mut hidden: Vec<RuleTexts> = Vec::new();
    let mut s: usize = 0;
    while s < batch.stylesheets.len()
        invariant
            s <= batch.stylesheets@.len(),
            shown@.len() == s,
            hidden@.len() == s,
            forall|k: int|
                0 <= k < s ==> proven(know@, shown_request(batch@, k), #[trigger] text_lists(shown@)[k]),
            forall|k: int|
                0 <= k < s ==> proven(know@, hidden_request(batch@, k), #[trigger] text_lists(hidden@)[k]),
        decreases batch.stylesheets.len() - s,
    {
        let sheet = &batch.stylesheets[s];
        assert(batch@.stylesheets[s as int] == sheet@);
        let first = batch_stylesheet_request(&batch.settings, sheet, duplicate_all(&batch.files));
        let proof = prove(know, &first);
        let second = batch_stylesheet_request(
            &batch.settings,
            sheet,
            unbind_files(&batch.files, sheet.css_path.as_str()),
        );
        let other = prove(know, &second);
        let ghost before = (shown@, hidden@);
        let ghost models = (rule_texts(proof@), rule_texts(other@));
        shown.push(proof);
        hidden.push(other);
        assert(text_lists(shown@) =~= text_lists(before.0).push(models.0));
        assert(text_lists(hidden@) =~= text_lists(before.1).push(models.1));
        s += 1;
    }
    Proofs { shown, hidden }
}

// ---------------------------------------------------------------------------
// Conflicts
// ---------------------------------------------------------------------------

/// The rules of a request with what relationships retain.
pub open spec fn request_maps(know: KnowledgeModel, request: RequestModel, unproven: RuleTextModels) -> Result<
    MapsModel,
    HaltModel,
> {
    match request_rules(know, request) {
        Err(halt) => Err(halt),
        Ok(found) => Ok(maps_of(found.parsed.rules, unproven, request.sheet.blocked_rules)),
    }
}

fn candidate_map_for_request(know: &Knowledge, request: &PlanRequest, unproven: &RuleTexts) -> (result: Result<
    CandidateMaps,
    Halt,
>)
    ensures
        match request_maps(know@, request@, rule_texts(unproven@)) {
            Ok(model) => result matches Ok(maps) && maps@ == model,
            Err(model) => result matches Err(halt) && halt@ == model,
        },
{
    match parse_request_rules(know, request) {
        Err(halt) => Err(halt),
        Ok(found) => Ok(build_maps(found.parsed.rules, unproven, &request.sheet.blocked_rules)),
    }
}

/// The matches of the first `n` stylesheets.
pub open spec fn batch_matches(
    know: KnowledgeModel,
    batch: BatchModel,
    proofs: ProofsModel,
    n: int,
) -> Result<Seq<GroupedModel>, HaltModel>
    decreases n,
{
    if n <= 0 {
        Ok(seq![])
    } else {
        match batch_matches(know, batch, proofs, n - 1) {
            Err(halt) => Err(halt),
            Ok(before) => match request_maps(know, shown_request(batch, n - 1), proof_at(proofs.shown, n - 1)) {
                Err(halt) => Err(halt),
                Ok(maps) => match sheet_matches(
                    ProbeModel { stylesheet: n - 1, maps, blocked: batch.stylesheets[n - 1].blocked_rules },
                    probe_offer(batch.stylesheets[n - 1], batch.settings, know.utilities, maps),
                    batch.files,
                    batch.files.len() as int,
                ) {
                    Err(halt) => Err(halt),
                    Ok(found) => Ok(before + found),
                },
            },
        }
    }
}

/// The rules of each stylesheet with the pairs of utilities that conflict
/// because of them.
pub open spec fn batch_conflicts(
    know: KnowledgeModel,
    batch: BatchModel,
    proofs: ProofsModel,
) -> Result<Seq<OwnedModel>, HaltModel> {
    match batch_matches(know, batch, proofs, batch.stylesheets.len() as int) {
        Err(halt) => Err(halt),
        Ok(matches) => Ok(all_clashes(batch.settings, know.utilities, matches, matches.len() as int)),
    }
}

proof fn lemma_matches_halt(
    know: KnowledgeModel,
    batch: BatchModel,
    proofs: ProofsModel,
    k: int,
    n: int,
)
    requires
        0 <= k <= n,
        batch_matches(know, batch, proofs, k) is Err,
    ensures
        batch_matches(know, batch, proofs, n) == batch_matches(know, batch, proofs, k),
    decreases n - k,
{
    if k < n {
        lemma_matches_halt(know, batch, proofs, k, n - 1);
    }
}

fn push_sheet_matches(
    know: &Knowledge,
    batch: &BatchPlanRequest,
    unproven: &RuleTexts,
    s: usize,
    list: &mut Vec<GroupedMatch>,
) -> (result: Result<(), Halt>)
    requires
        s < batch.stylesheets@.len(),
    ensures
        match request_maps(know@, shown_request(batch@, s as int), rule_texts(unproven@)) {
            Err(model) => result matches Err(halt) && halt@ == model,
            Ok(maps) => match sheet_matches(
                ProbeModel { stylesheet: s as int, maps, blocked: batch@.stylesheets[s as int].blocked_rules },
                probe_offer(batch@.stylesheets[s as int], batch@.settings, know@.utilities, maps),
                batch@.files,
                batch@.files.len() as int,
            ) {
                Err(model) => result matches Err(halt) && halt@ == model,
                Ok(found) => result is Ok && views(final(list)@) == views(old(list)@) + found,
            },
        },
{
    let sheet = &batch.stylesheets[s];
    assert(batch@.stylesheets[s as int] == sheet@);
    assert(batch@.files.len() == batch.files@.len());
    let request = batch_stylesheet_request(&batch.settings, sheet, duplicate_all(&batch.files));
    match candidate_map_for_request(know, &request, unproven) {
        Err(halt) => Err(halt),
        Ok(maps) => collect_matches(
            s,
            sheet,
            &batch.settings,
            &know.utilities,
            &maps,
            &sheet.blocked_rules,
            &batch.files,
            list,
        ),
    }
}

/// The rules of each stylesheet with the pairs of utilities that conflict
/// because of them.
pub fn find_batch_conflicts(
    know: &Knowledge,
    batch: &BatchPlanRequest,
    proofs: &Proofs,
) -> (result: Result<Vec<OwnedPairs>, Halt>)
    ensures
        match batch_conflicts(know@, batch@, proofs@) {
            Ok(model) => result matches Ok(list) && owned_models(list@) == model,
            Err(model) => result matches Err(halt) && halt@ == model,
        },
{
    let mut list: Vec<GroupedMatch> = Vec::new();
    assert(views(list@) =~= Seq::empty());
    assert(batch@.stylesheets.len() == batch.stylesheets@.len());
    let mut s: usize = 0;
    while s < batch.stylesheets.len()
        invariant
            s <= batch.stylesheets@.len(),
            batch@.stylesheets.len() == batch.stylesheets@.len(),
            batch_matches(know@, batch@, proofs@, s as int) == Ok::<Seq<GroupedModel>, HaltModel>(
                views(list@),
            ),
        decreases batch.stylesheets.len() - s,
    {
        let unproven = copy_proof(&proofs.shown, s);
        match push_sheet_matches(know, batch, &unproven, s, &mut list) {
            Err(halt) => {
                proof {
                    lemma_matches_halt(
                        know@,
                        batch@,
                        proofs@,
                        s + 1,
                        batch@.stylesheets.len() as int,
                    );
                }
                return Err(halt);
            },
            Ok(_) => {},
        }
        s += 1;
    }
    assert(views(list@).len() == list@.len());
    Ok(find_clashes(&batch.settings, &know.utilities, &list))
}

// ---------------------------------------------------------------------------
// Retained rules of the same component
// ---------------------------------------------------------------------------

/// The selector of a rule by its id; the last of several counts.
pub open spec fn selector_of(rules: Seq<RuleModel>, id: RuleId, n: int) -> Seq<char>
    decreases n,
{
    if n <= 0 {
        seq![]
    } else if rules[n - 1].id() == id {
        rules[n - 1].selector
    } else {
        selector_of(rules, id, n - 1)
    }
}

fn find_selector<'a>(rules: &'a Vec<RulePlan>, id: RuleId) -> (result: &'a str)
    ensures
        result@ == selector_of(views(rules@), id, rules@.len() as int),
{
    let mut n: usize = rules.len();
    while n > 0
        invariant
            n <= rules@.len(),
            selector_of(views(rules@), id, n as int) == selector_of(views(rules@), id, rules@.len() as int),
        decreases n,
    {
        assert(views(rules@)[n - 1] == rules@[n - 1]@);
        if rule_id(&rules[n - 1]) == id {
            return rules[n - 1].selector.as_str();
        }
        n -= 1;
    }
    proof {
        reveal_strlit("");
        assert(""@ =~= Seq::empty());
    }
    ""
}

/// Some class of the rule is among the classes.
pub open spec fn related_to(rule: RuleModel, classes: Seq<Seq<char>>) -> bool {
    exists|i: int| 0 <= i < rule.related_classes.len() && classes.contains(#[trigger] rule.related_classes[i])
}

fn is_related_to(rule: &RulePlan, classes: &Vec<String>) -> (result: bool)
    ensures
        result == related_to(rule@, texts(classes@)),
{
    let mut i: usize = 0;
    while i < rule.related_classes.len()
        invariant
            i <= rule.related_classes@.len(),
            forall|j: int| 0 <= j < i ==> !texts(classes@).contains(#[trigger] rule@.related_classes[j]),
        decreases rule.related_classes.len() - i,
    {
        assert(rule@.related_classes[i as int] == rule.related_classes@[i as int]@);
        if list_has(classes, rule.related_classes[i].as_str()) {
            assert(texts(classes@).contains(rule@.related_classes[i as int]));
            return true;
        }
        i += 1;
    }
    false
}

/// The rule stays in the component whatever its module block does.
pub open spec fn survives(
    maps: MapsModel,
    sheet: SheetModel,
    conflicts: RuleConflictModels,
    rule: RuleModel,
) -> bool {
    ||| rule.warning is Some
    ||| sheet.blocked_rules.contains(rule.id())
    ||| related_to(rule, maps.blocked_classes)
    ||| conflicts_from(conflicts, rule.id(), 0) is Some
    ||| sheet.vue_retention is Some
}

/// The surface of the first `n` rules that stay, as parseable CSS.
pub open spec fn surviving(maps: MapsModel, sheet: SheetModel, conflicts: RuleConflictModels, n: int) -> Seq<Seq<char>>
    decreases n,
{
    if n <= 0 {
        seq![]
    } else if survives(maps, sheet, conflicts, maps.rules[n - 1]) {
        surviving(maps, sheet, conflicts, n - 1).push(
            selector_of(maps.rules, maps.rules[n - 1].id(), maps.rules.len() as int) + " {}"@,
        )
    } else {
        surviving(maps, sheet, conflicts, n - 1)
    }
}

fn does_survive(maps: &CandidateMaps, sheet: &BatchStylesheet, conflicts: &RuleConflicts, rule: &RulePlan) -> (result:
    bool)
    ensures
        result == survives(maps@, sheet@, rule_conflicts(conflicts@), rule@),
{
    rule.warning.is_some() || has_rule(&sheet.blocked_rules, rule_id(rule)) || is_related_to(
        rule,
        &maps.blocked_classes,
    ) || find_conflicts(conflicts, rule_id(rule)).is_some() || sheet.vue_retention.is_some()
}

fn collect_surviving(maps: &CandidateMaps, sheet: &BatchStylesheet, conflicts: &RuleConflicts) -> (result: Vec<String>)
    ensures
        texts(result@) == surviving(maps@, sheet@, rule_conflicts(conflicts@), maps@.rules.len() as int),
{
    let rules = &maps.rules;
    assert(maps@.rules.len() == rules@.len());
    let mut result: Vec<String> = Vec::new();
    assert(texts(result@) =~= Seq::empty());
    let mut n: usize = 0;
    while n < rules.len()
        invariant
            n <= rules@.len(),
            maps@.rules == views(rules@),
            maps@.rules.len() == rules@.len(),
            texts(result@) == surviving(maps@, sheet@, rule_conflicts(conflicts@), n as int),
        decreases rules.len() - n,
    {
        assert(maps@.rules[n as int] == rules@[n as int]@);
        if does_survive(maps, sheet, conflicts, &rules[n]) {
            let mut piece = copy(find_selector(rules, rule_id(&rules[n])));
            piece.append(" {}");
            let ghost before = result@;
            let ghost model = piece@;
            result.push(piece);
            assert(texts(result@) =~= texts(before).push(model));
        }
        n += 1;
    }
    result
}

/// The pieces of CSS of a path.
pub type Pieces = Vec<(String, Vec<String>)>;

/// The models of [`Pieces`].
pub type PieceModels = Seq<(Seq<char>, Seq<Seq<char>>)>;

pub open spec fn piece_models(list: Seq<(String, Vec<String>)>) -> PieceModels {
    list.map_values(|entry: (String, Vec<String>)| (entry.0@, texts(entry.1@)))
}

/// The pieces with more for a path, each once and in ascending order, from
/// entry `i` on.
pub open spec fn with_pieces(list: PieceModels, path: Seq<char>, more: Seq<Seq<char>>, i: int) -> PieceModels
    decreases list.len() - i,
{
    if i < 0 || i >= list.len() {
        list.push((path, with_names(seq![], more)))
    } else if list[i].0 == path {
        list.update(i, (path, with_names(list[i].1, more)))
    } else {
        with_pieces(list, path, more, i + 1)
    }
}

/// The pieces of a path from entry `i` on.
pub open spec fn pieces_at(list: PieceModels, path: Seq<char>, i: int) -> Seq<Seq<char>>
    decreases list.len() - i,
{
    if i < 0 || i >= list.len() {
        seq![]
    } else if list[i].0 == path {
        list[i].1
    } else {
        pieces_at(list, path, i + 1)
    }
}

fn add_pieces(list: &mut Pieces, path: &str, more: &Vec<String>)
    ensures
        piece_models(final(list)@) == with_pieces(piece_models(old(list)@), path@, texts(more@), 0),
{
    let ghost start = piece_models(list@);
    let mut i: usize = 0;
    while i < list.len()
        invariant
            i <= list@.len(),
            piece_models(list@) == start,
            start == piece_models(old(list)@),
            with_pieces(start, path@, texts(more@), i as int) == with_pieces(start, path@, texts(more@), 0),
        decreases list.len() - i,
    {
        assert(start[i as int] == (list@[i as int].0@, texts(list@[i as int].1@)));
        if same(list[i].0.as_str(), path) {
            let mut names = crate::text::copy_texts(&list[i].1);
            insert_names(&mut names, more);
            list[i].1 = names;
            assert(piece_models(list@) =~= start.update(
                i as int,
                (path@, with_names(start[i as int].1, texts(more@))),
            ));
            return;
        }
        i += 1;
    }
    let mut names: Vec<String> = Vec::new();
    assert(texts(names@) =~= Seq::empty());
    insert_names(&mut names, more);
    list.push((copy(path), names));
    assert(piece_models(list@) =~= start.push((path@, with_names(seq![], texts(more@)))));
}

/// A copy of the pieces of a path.
pub fn copy_pieces(list: &Pieces, path: &str) -> (result: Vec<String>)
    ensures
        texts(result@) == pieces_at(piece_models(list@), path@, 0),
{
    let mut i: usize = 0;
    while i < list.len()
        invariant
            i <= list@.len(),
            pieces_at(piece_models(list@), path@, i as int) == pieces_at(piece_models(list@), path@, 0),
        decreases list.len() - i,
    {
        let entry = &list[i];
        assert(piece_models(list@)[i as int] == (entry.0@, texts(entry.1@)));
        if same(entry.0.as_str(), path) {
            return crate::text::copy_texts(&entry.1);
        }
        i += 1;
    }
    let none: Vec<String> = Vec::new();
    assert(texts(none@) =~= Seq::empty());
    none
}

/// The surviving surface of each component among the first `n` stylesheets. A
/// retained scoped or unscoped rule of a component stays unlayered, so only
/// those selectors feed the shadow gate of its module block. Module bindings
/// are hidden meanwhile: they make scoped rules look shadowed before the module
/// block had its chance to remove them.
pub open spec fn co_located(
    know: KnowledgeModel,
    batch: BatchModel,
    proofs: ProofsModel,
    conflicts: Seq<OwnedModel>,
    n: int,
) -> Result<PieceModels, HaltModel>
    decreases n,
{
    if n <= 0 {
        Ok(seq![])
    } else {
        match co_located(know, batch, proofs, conflicts, n - 1) {
            Err(halt) => Err(halt),
            Ok(before) => {
                let sheet = batch.stylesheets[n - 1];
                if sheet.vue_module || sheet.vue_blocks.len() == 0 {
                    Ok(before)
                } else {
                    match request_maps(know, hidden_request(batch, n - 1), proof_at(proofs.hidden, n - 1)) {
                        Err(halt) => Err(halt),
                        Ok(maps) => Ok(
                            with_pieces(
                                before,
                                sheet.css_path,
                                surviving(
                                    maps,
                                    sheet,
                                    sheet_conflicts(conflicts, n - 1, conflicts.len() as int),
                                    maps.rules.len() as int,
                                ),
                                0,
                            ),
                        ),
                    }
                }
            },
        }
    }
}

proof fn lemma_co_located_halt(
    know: KnowledgeModel,
    batch: BatchModel,
    proofs: ProofsModel,
    conflicts: Seq<OwnedModel>,
    k: int,
    n: int,
)
    requires
        0 <= k <= n,
        co_located(know, batch, proofs, conflicts, k) is Err,
    ensures
        co_located(know, batch, proofs, conflicts, n) == co_located(know, batch, proofs, conflicts, k),
    decreases n - k,
{
    if k < n {
        lemma_co_located_halt(know, batch, proofs, conflicts, k, n - 1);
    }
}

/// The surviving surface of each component.
pub fn find_co_located(
    know: &Knowledge,
    batch: &BatchPlanRequest,
    proofs: &Proofs,
    conflicts: &Vec<OwnedPairs>,
) -> (result: Result<Pieces, Halt>)
    ensures
        match co_located(
            know@,
            batch@,
            proofs@,
            owned_models(conflicts@),
            batch@.stylesheets.len() as int,
        ) {
            Ok(model) => result matches Ok(list) && piece_models(list@) == model,
            Err(model) => result matches Err(halt) && halt@ == model,
        },
{
    let ghost owned = owned_models(conflicts@);
    let mut list: Pieces = Vec::new();
    assert(piece_models(list@) =~= Seq::empty());
    let mut n: usize = 0;
    assert(batch@.stylesheets.len() == batch.stylesheets@.len());
    while n < batch.stylesheets.len()
        invariant
            n <= batch.stylesheets@.len(),
            owned == owned_models(conflicts@),
            batch@.stylesheets.len() == batch.stylesheets@.len(),
            co_located(know@, batch@, proofs@, owned, n as int) == Ok::<PieceModels, HaltModel>(
                piece_models(list@),
            ),
        decreases batch.stylesheets.len() - n,
    {
        let sheet = &batch.stylesheets[n];
        assert(batch@.stylesheets[n as int] == sheet@);
        assert(sheet@.vue_blocks.len() == sheet.vue_blocks@.len());
        if !sheet.vue_module && sheet.vue_blocks.len() > 0 {
            let request = batch_stylesheet_request(
                &batch.settings,
                sheet,
                unbind_files(&batch.files, sheet.css_path.as_str()),
            );
            let unproven = copy_proof(&proofs.hidden, n);
            match candidate_map_for_request(know, &request, &unproven) {
                Err(halt) => {
                    proof {
                        lemma_co_located_halt(
                            know@,
                            batch@,
                            proofs@,
                            owned,
                            n + 1,
                            batch@.stylesheets.len() as int,
                        );
                    }
                    return Err(halt);
                },
                Ok(maps) => {
                    let own = collect_sheet_conflicts(conflicts, n);
                    let pieces = collect_surviving(&maps, sheet, &own);
                    add_pieces(&mut list, sheet.css_path.as_str(), &pieces);
                },
            }
        }
        n += 1;
    }
    Ok(list)
}

} // verus!
