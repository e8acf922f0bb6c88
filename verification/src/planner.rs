//! Planning one stylesheet and the files that use it.
use crate::animations::{append_keyframes, entry_with_keyframes, KeyframeModel, KeyframePlan};
use crate::consumer::{Offer, OfferModel};
use crate::consumption::{consume, consumed, file_warning, Consumed, ConsumedModel};
use crate::css::{
    fail, failed, remove_empty_conditionals, validate_css, validate_stylesheet, validated, without_empty, Halt,
    HaltModel, StylesheetSyntax,
};
use crate::css_plan::{GlobalAtRulePlan, GlobalModel};
use crate::decisions::{decide_rules, decided_rules, Verdicts, VerdictsModel};
use crate::duplicate::{append_copies, duplicate_all, duplicate_rounds, Duplicate};
use crate::edit::{applied, apply_edits, rounds, Edit, EditModel};
use crate::errors::{unsound, ErrorKind, ErrorModel, MigrationError};
use crate::path::{extension, has_extension, same_texts};
use crate::plan::{PlanModel, SourcePlan, Warning, WarningModel};
use crate::reports::{report_rules, reported, ReportModel, ReportedModel, Reporting, ReportingModel, RuleReport};
use crate::request::{is_module_sheet, sheet_is_module, BatchStylesheet, PlanRequest, RequestModel, SheetModel};
use crate::request_rules::{
    parse_request_rules, request_rules, Appended, AppendedModel, Knowledge, KnowledgeModel, RequestRulesModel,
};
use crate::rules::{
    build_candidate_map, candidate_map_of, classes_of_rules, collect_rule_classes, Choice, RuleModel, RulePlan,
};
use crate::source::{FileModel, SourceFile};
use crate::syntax::{module_json, reads_jsx, validate_js, SyntaxErrorModel};
use crate::text::{blank, contains, copy, holds, is_blank, maybe, same, texts, views, Separator};
use crate::vue::{edited, finish_vue_stylesheet, finished_vue, retention_message, vue_retention_warning};
use vstd::prelude::*;

verus! {

// ---------------------------------------------------------------------------
// Responses
// ---------------------------------------------------------------------------

/// A file that changes.
#[derive(Debug)]
pub struct PlannedFile {
    pub path: String,
    pub source: String,
}

/// The model of a [`PlannedFile`].
pub struct PlannedModel {
    pub path: Seq<char>,
    pub source: Seq<char>,
}

impl View for PlannedFile {
    type V = PlannedModel;

    open spec fn view(&self) -> PlannedModel {
        PlannedModel { path: self.path@, source: self.source@ }
    }
}

/// The rounds of edits that were applied to each path.
pub type AppliedEdits = Vec<(String, Vec<Vec<Edit>>)>;

/// The models of [`AppliedEdits`].
pub type AppliedModels = Seq<(Seq<char>, Seq<Seq<EditModel>>)>;

pub open spec fn applied_models(list: Seq<(String, Vec<Vec<Edit>>)>) -> AppliedModels {
    list.map_values(|entry: (String, Vec<Vec<Edit>>)| (entry.0@, rounds(entry.1@)))
}

/// What a stylesheet and the files that use it become.
pub struct PlanResponse {
    pub files: Vec<PlannedFile>,
    pub deleted_files: Vec<String>,
    pub unlinked_files: Vec<String>,
    /// The utilities that were written, in ascending order.
    pub candidates: Vec<String>,
    pub converted_rules: usize,
    pub retained_rules: usize,
    pub rules: Vec<RuleReport>,
    pub warnings: Vec<Warning>,
    pub applied_edits: AppliedEdits,
}

/// The model of a [`PlanResponse`].
pub struct ResponseModel {
    pub files: Seq<PlannedModel>,
    pub deleted_files: Seq<Seq<char>>,
    pub unlinked_files: Seq<Seq<char>>,
    pub candidates: Seq<Seq<char>>,
    pub converted_rules: int,
    pub retained_rules: int,
    pub rules: Seq<ReportModel>,
    pub warnings: Seq<WarningModel>,
    pub applied_edits: AppliedModels,
}

impl View for PlanResponse {
    type V = ResponseModel;

    open spec fn view(&self) -> ResponseModel {
        ResponseModel {
            files: views(self.files@),
            deleted_files: texts(self.deleted_files@),
            unlinked_files: texts(self.unlinked_files@),
            candidates: texts(self.candidates@),
            converted_rules: self.converted_rules as int,
            retained_rules: self.retained_rules as int,
            rules: views(self.rules@),
            warnings: views(self.warnings@),
            applied_edits: applied_models(self.applied_edits@),
        }
    }
}

/// The edits with one more round for a path, from entry `i` on.
pub open spec fn with_round(list: AppliedModels, path: Seq<char>, round: Seq<EditModel>, i: int) -> AppliedModels
    decreases list.len() - i,
{
    if i < 0 || i >= list.len() {
        list.push((path, seq![round]))
    } else if list[i].0 == path {
        list.update(i, (path, list[i].1.push(round)))
    } else {
        with_round(list, path, round, i + 1)
    }
}

fn add_round(list: &mut AppliedEdits, path: &str, round: &Vec<Edit>)
    ensures
        applied_models(final(list)@) == with_round(applied_models(old(list)@), path@, views(round@), 0),
{
    let ghost start = applied_models(list@);
    let mut i: usize = 0;
    while i < list.len()
        invariant
            i <= list@.len(),
            applied_models(list@) == start,
            start == applied_models(old(list)@),
            with_round(start, path@, views(round@), i as int) == with_round(start, path@, views(round@), 0),
        decreases list.len() - i,
    {
        assert(start[i as int] == (list@[i as int].0@, rounds(list@[i as int].1@)));
        if same(list[i].0.as_str(), path) {
            let mut known = duplicate_rounds(&list[i].1);
            let ghost before = known@;
            known.push(duplicate_all(round));
            assert(rounds(known@) =~= rounds(before).push(views(round@)));
            list[i].1 = known;
            assert(applied_models(list@) =~= start.update(i as int, (path@, start[i as int].1.push(views(round@)))));
            return;
        }
        i += 1;
    }
    let mut known: Vec<Vec<Edit>> = Vec::new();
    known.push(duplicate_all(round));
    assert(rounds(known@) =~= seq![views(round@)]);
    list.push((copy(path), known));
    assert(applied_models(list@) =~= start.push((path@, seq![views(round@)])));
}

// ---------------------------------------------------------------------------
// The Tailwind entry
// ---------------------------------------------------------------------------

/// Some candidate uses the keyframes.
pub open spec fn animates(candidates: Seq<Seq<char>>, keyframe: KeyframeModel) -> bool {
    exists|i: int| 0 <= i < candidates.len() && holds(#[trigger] candidates[i], keyframe.migrated_name)
}

/// Those of the first `n` keyframes that move: all of them, or those that a
/// candidate uses.
pub open spec fn moved_keyframes(keyframes: Seq<KeyframeModel>, candidates: Seq<Seq<char>>, all: bool, n: int) -> Seq<
    KeyframeModel,
>
    decreases n,
{
    if n <= 0 {
        seq![]
    } else if all || animates(candidates, keyframes[n - 1]) {
        moved_keyframes(keyframes, candidates, all, n - 1).push(keyframes[n - 1])
    } else {
        moved_keyframes(keyframes, candidates, all, n - 1)
    }
}

fn does_animate(candidates: &Vec<String>, keyframe: &KeyframePlan) -> (result: bool)
    ensures
        result == animates(texts(candidates@), keyframe@),
{
    let mut i: usize = 0;
    while i < candidates.len()
        invariant
            i <= candidates@.len(),
            forall|j: int| 0 <= j < i ==> !holds(#[trigger] texts(candidates@)[j], keyframe@.migrated_name),
        decreases candidates.len() - i,
    {
        assert(texts(candidates@)[i as int] == candidates@[i as int]@);
        if contains(candidates[i].as_str(), keyframe.migrated_name.as_str()) {
            assert(holds(texts(candidates@)[i as int], keyframe@.migrated_name));
            return true;
        }
        i += 1;
    }
    false
}

fn collect_moved_keyframes(keyframes: &Vec<KeyframePlan>, candidates: &Vec<String>, all: bool) -> (result: Vec<
    KeyframePlan,
>)
    ensures
        views(result@) == moved_keyframes(views(keyframes@), texts(candidates@), all, keyframes@.len() as int),
{
    let mut result: Vec<KeyframePlan> = Vec::new();
    assert(views(result@) =~= Seq::empty());
    let mut n: usize = 0;
    while n < keyframes.len()
        invariant
            n <= keyframes@.len(),
            views(result@) == moved_keyframes(views(keyframes@), texts(candidates@), all, n as int),
        decreases keyframes.len() - n,
    {
        assert(views(keyframes@)[n as int] == keyframes@[n as int]@);
        if all || does_animate(candidates, &keyframes[n]) {
            let ghost before = result@;
            result.push(keyframes[n].duplicate());
            assert(views(result@) =~= views(before).push(keyframes@[n as int]@));
        }
        n += 1;
    }
    result
}

/// What a text becomes when at-rules are appended to it, from entry `i` on.
pub open spec fn appended_from(list: Seq<AppendedModel>, source: Seq<char>, at_rules: Seq<Seq<char>>, i: int) -> Result<
    Seq<char>,
    HaltModel,
>
    decreases list.len() - i,
{
    if i < 0 || i >= list.len() {
        Err(HaltModel::Unappended(source, at_rules))
    } else if list[i].source == source && list[i].at_rules == at_rules {
        match list[i].outcome {
            Ok(text) => Ok(text),
            Err(error) => Err(HaltModel::Failed(error)),
        }
    } else {
        appended_from(list, source, at_rules, i + 1)
    }
}

/// What a text becomes when at-rules are appended to it.
pub open spec fn with_at_rules(list: Seq<AppendedModel>, source: Seq<char>, at_rules: Seq<Seq<char>>) -> Result<
    Seq<char>,
    HaltModel,
> {
    if at_rules.len() == 0 {
        Ok(source)
    } else {
        appended_from(list, source, at_rules, 0)
    }
}

fn append_at_rules(list: &Vec<Appended>, source: String, at_rules: Vec<String>) -> (result: Result<String, Halt>)
    ensures
        match with_at_rules(views(list@), source@, texts(at_rules@)) {
            Ok(model) => result matches Ok(text) && text@ == model,
            Err(model) => result matches Err(halt) && halt@ == model,
        },
{
    assert(texts(at_rules@).len() == at_rules@.len());
    if at_rules.len() == 0 {
        return Ok(source);
    }
    let mut i: usize = 0;
    while i < list.len()
        invariant
            i <= list@.len(),
            texts(at_rules@).len() > 0,
            appended_from(views(list@), source@, texts(at_rules@), i as int) == appended_from(
                views(list@),
                source@,
                texts(at_rules@),
                0,
            ),
        decreases list.len() - i,
    {
        let entry = &list[i];
        assert(views(list@)[i as int] == entry@);
        if same(entry.source.as_str(), source.as_str()) && same_texts(&entry.at_rules, &at_rules) {
            return match &entry.outcome {
                Ok(text) => Ok(copy(text.as_str())),
                Err(error) => Err(Halt::Failed(error.copy())),
            };
        }
        i += 1;
    }
    Err(Halt::Unappended(source, at_rules))
}

/// The texts of at-rules.
pub open spec fn global_texts(globals: Seq<GlobalModel>) -> Seq<Seq<char>> {
    globals.map_values(|global: GlobalModel| global.source)
}

fn collect_global_texts(globals: &Vec<GlobalAtRulePlan>) -> (result: Vec<String>)
    ensures
        texts(result@) == global_texts(views(globals@)),
{
    let ghost goal = global_texts(views(globals@));
    let mut result: Vec<String> = Vec::new();
    let mut i: usize = 0;
    while i < globals.len()
        invariant
            i <= globals@.len(),
            goal == global_texts(views(globals@)),
            goal.len() == globals@.len(),
            texts(result@) == goal.take(i as int),
        decreases globals.len() - i,
    {
        assert(views(globals@)[i as int] == globals@[i as int]@);
        let ghost before = result@;
        result.push(copy(globals[i].source.as_str()));
        assert(texts(result@) =~= texts(before).push(goal[i as int]));
        i += 1;
        assert(texts(result@) =~= goal.take(i as int));
    }
    assert(goal.take(i as int) =~= goal);
    result
}

/// The Tailwind entry with the at-rules that moved into it, where it changes.
pub open spec fn entry_file(
    know: KnowledgeModel,
    request: RequestModel,
    keyframes: Seq<KeyframeModel>,
    globals: Seq<GlobalModel>,
) -> Result<Seq<PlannedModel>, HaltModel> {
    match (request.settings.tailwind_path, request.settings.tailwind_source) {
        (Some(path), Some(source)) => if keyframes.len() == 0 && globals.len() == 0 {
            Ok(seq![])
        } else {
            match entry_with_keyframes(know.parses, source, keyframes) {
                Err(halt) => Err(halt),
                Ok(grown) => match with_at_rules(know.appended, grown, global_texts(globals)) {
                    Err(halt) => Err(halt),
                    Ok(text) => match validated(know.parses, text, StylesheetSyntax::Css) {
                        Err(halt) => Err(halt),
                        Ok(_) => if text == source {
                            Ok(seq![])
                        } else {
                            Ok(seq![PlannedModel { path, source: text }])
                        },
                    },
                },
            }
        },
        _ => Ok(seq![]),
    }
}

fn plan_entry(know: &Knowledge, request: &PlanRequest, keyframes: &Vec<KeyframePlan>, globals: &Vec<GlobalAtRulePlan>) -> (result:
    Result<Vec<PlannedFile>, Halt>)
    ensures
        match entry_file(know@, request@, views(keyframes@), views(globals@)) {
            Ok(model) => result matches Ok(files) && views(files@) == model,
            Err(model) => result matches Err(halt) && halt@ == model,
        },
{
    let mut files: Vec<PlannedFile> = Vec::new();
    assert(views(files@) =~= Seq::empty());
    assert(views(keyframes@).len() == keyframes@.len());
    assert(views(globals@).len() == globals@.len());
    match (&request.settings.tailwind_path, &request.settings.tailwind_source) {
        (Some(path), Some(source)) => {
            if keyframes.len() == 0 && globals.len() == 0 {
                return Ok(files);
            }
            let grown = match append_keyframes(&know.parses, source.as_str(), keyframes) {
                Ok(grown) => grown,
                Err(halt) => {
                    return Err(halt);
                },
            };
            let text = match append_at_rules(&know.appended, grown, collect_global_texts(globals)) {
                Ok(text) => text,
                Err(halt) => {
                    return Err(halt);
                },
            };
            if let Err(halt) = validate_css(&know.parses, text.as_str()) {
                return Err(halt);
            }
            if !same(text.as_str(), source.as_str()) {
                let ghost model = PlannedModel { path: path@, source: text@ };
                files.push(PlannedFile { path: copy(path.as_str()), source: text });
                assert(views(files@) =~= seq![model]);
            }
            Ok(files)
        },
        _ => Ok(files),
    }
}

// ---------------------------------------------------------------------------
// The stylesheet
// ---------------------------------------------------------------------------

/// The edits that delete at-rules that moved.
pub open spec fn at_rule_removals(keyframes: Seq<KeyframeModel>, globals: Seq<GlobalModel>) -> Seq<EditModel> {
    keyframes.map_values(
        |keyframe: KeyframeModel| EditModel {
            start: keyframe.span.0 as int,
            end: keyframe.span.1 as int,
            replacement: seq![],
        },
    ) + globals.map_values(
        |global: GlobalModel| EditModel {
            start: global.span.0 as int,
            end: global.span.1 as int,
            replacement: seq![],
        },
    )
}

fn push_at_rule_removals(edits: &mut Vec<Edit>, keyframes: &Vec<KeyframePlan>, globals: &Vec<GlobalAtRulePlan>)
    ensures
        views(final(edits)@) == views(old(edits)@) + at_rule_removals(views(keyframes@), views(globals@)),
{
    let ghost start = views(edits@);
    let ghost goal = at_rule_removals(views(keyframes@), views(globals@));
    assert(start + goal.take(0) =~= start);
    let mut i: usize = 0;
    while i < keyframes.len()
        invariant
            i <= keyframes@.len(),
            goal == at_rule_removals(views(keyframes@), views(globals@)),
            goal.len() == keyframes@.len() + globals@.len(),
            views(edits@) == start + goal.take(i as int),
        decreases keyframes.len() - i,
    {
        assert(views(keyframes@)[i as int] == keyframes@[i as int]@);
        let ghost before = edits@;
        let edit = Edit::removal(keyframes[i].span.0, keyframes[i].span.1);
        assert(edit@ == goal[i as int]);
        edits.push(edit);
        assert(views(edits@) =~= views(before).push(goal[i as int]));
        i += 1;
        assert(views(edits@) =~= start + goal.take(i as int));
    }
    let mut j: usize = 0;
    while j < globals.len()
        invariant
            j <= globals@.len(),
            goal == at_rule_removals(views(keyframes@), views(globals@)),
            goal.len() == keyframes@.len() + globals@.len(),
            views(edits@) == start + goal.take(keyframes@.len() + j),
        decreases globals.len() - j,
    {
        assert(views(globals@)[j as int] == globals@[j as int]@);
        let ghost before = edits@;
        let edit = Edit::removal(globals[j].span.0, globals[j].span.1);
        assert(edit@ == goal[keyframes@.len() + j]);
        edits.push(edit);
        assert(views(edits@) =~= views(before).push(goal[keyframes@.len() + j]));
        j += 1;
        assert(views(edits@) =~= start + goal.take(keyframes@.len() + j));
    }
    assert(goal.take(keyframes@.len() + j) =~= goal);
}

/// What becomes of the stylesheet's file.
pub struct SheetOutcomeModel {
    pub files: Seq<PlannedModel>,
    pub deleted: bool,
    pub applied: AppliedModels,
}

/// The stylesheet as it was.
pub open spec fn unchanged_sheet() -> SheetOutcomeModel {
    SheetOutcomeModel { files: seq![], deleted: false, applied: seq![] }
}

/// What becomes of a plain stylesheet under edits. A module file may only
/// disappear when every reference is matched and safe; an emptied stylesheet
/// with a dangling member reference must stay on disk so the consumer's
/// retained import keeps resolving.
pub open spec fn plain_outcome(
    know: KnowledgeModel,
    sheet: SheetModel,
    edits: Seq<EditModel>,
    can_go: bool,
) -> Result<SheetOutcomeModel, HaltModel> {
    match edited(sheet.css_source, edits) {
        Err(halt) => Err(halt),
        Ok(cut_source) => match if sheet_is_module(sheet) {
            without_empty(know.parses, know.converter.conditionals, cut_source, sheet.syntax)
        } else {
            Ok(cut_source)
        } {
            Err(halt) => Err(halt),
            Ok(source) => match validated(know.parses, source, sheet.syntax) {
                Err(halt) => Err(halt),
                Ok(_) => {
                    let gone = can_go && blank(source, Separator::Whitespace);
                    Ok(
                        SheetOutcomeModel {
                            files: if gone {
                                seq![]
                            } else {
                                seq![PlannedModel { path: sheet.css_path, source }]
                            },
                            deleted: gone,
                            applied: seq![(sheet.css_path, seq![edits])],
                        },
                    )
                },
            },
        },
    }
}

/// What becomes of the stylesheet's file under edits.
pub open spec fn sheet_outcome(
    know: KnowledgeModel,
    sheet: SheetModel,
    mask: Option<Seq<char>>,
    edits: Seq<EditModel>,
    can_go: bool,
) -> Result<SheetOutcomeModel, HaltModel> {
    if edits.len() == 0 {
        Ok(unchanged_sheet())
    } else {
        match mask {
            Some(mask) => match finished_vue(know.parses, know.converter.conditionals, sheet, mask, edits) {
                Err(halt) => Err(halt),
                Ok(finished) => Ok(
                    SheetOutcomeModel {
                        files: seq![PlannedModel { path: sheet.css_path, source: finished.source }],
                        deleted: false,
                        applied: seq![(sheet.css_path, finished.edit_batches)],
                    },
                ),
            },
            None => plain_outcome(know, sheet, edits, can_go),
        }
    }
}

struct SheetOutcome {
    files: Vec<PlannedFile>,
    deleted: bool,
    applied: AppliedEdits,
}

impl View for SheetOutcome {
    type V = SheetOutcomeModel;

    closed spec fn view(&self) -> SheetOutcomeModel {
        SheetOutcomeModel {
            files: views(self.files@),
            deleted: self.deleted,
            applied: applied_models(self.applied@),
        }
    }
}

fn one_file(path: &str, source: String) -> (result: Vec<PlannedFile>)
    ensures
        views(result@) == seq![PlannedModel { path: path@, source: source@ }],
{
    let ghost model = PlannedModel { path: path@, source: source@ };
    let mut files: Vec<PlannedFile> = Vec::new();
    files.push(PlannedFile { path: copy(path), source });
    assert(views(files@) =~= seq![model]);
    files
}

fn one_path(path: &str, batches: Vec<Vec<Edit>>) -> (result: AppliedEdits)
    ensures
        applied_models(result@) == seq![(path@, rounds(batches@))],
{
    let ghost model = (path@, rounds(batches@));
    let mut list: AppliedEdits = Vec::new();
    list.push((copy(path), batches));
    assert(applied_models(list@) =~= seq![model]);
    list
}

fn finish_plain(know: &Knowledge, sheet: &BatchStylesheet, edits: &Vec<Edit>, can_go: bool) -> (result: Result<
    SheetOutcome,
    Halt,
>)
    ensures
        match plain_outcome(know@, sheet@, views(edits@), can_go) {
            Ok(model) => result matches Ok(outcome) && outcome@ == model,
            Err(model) => result matches Err(halt) && halt@ == model,
        },
{
    let cut_source = match apply_edits(sheet.css_source.as_str(), edits) {
        Ok(text) => text,
        Err(message) => {
            return Err(fail(message));
        },
    };
    let source = if is_module_sheet(sheet) {
        match remove_empty_conditionals(&know.parses, &know.converter.conditionals, cut_source, sheet.syntax) {
            Ok(source) => source,
            Err(halt) => {
                return Err(halt);
            },
        }
    } else {
        cut_source
    };
    if let Err(halt) = validate_stylesheet(&know.parses, source.as_str(), sheet.syntax) {
        return Err(halt);
    }
    let gone = can_go && is_blank(source.as_str(), Separator::Whitespace);
    let mut batches: Vec<Vec<Edit>> = Vec::new();
    batches.push(duplicate_all(edits));
    assert(rounds(batches@) =~= seq![views(edits@)]);
    let path = sheet.css_path.as_str();
    let files = if gone {
        let none: Vec<PlannedFile> = Vec::new();
        assert(views(none@) =~= Seq::empty());
        none
    } else {
        one_file(path, source)
    };
    Ok(SheetOutcome { files, deleted: gone, applied: one_path(path, batches) })
}

fn finish_sheet(
    know: &Knowledge,
    sheet: &BatchStylesheet,
    mask: &Option<String>,
    edits: &Vec<Edit>,
    can_go: bool,
) -> (result: Result<SheetOutcome, Halt>)
    ensures
        match sheet_outcome(know@, sheet@, maybe(*mask), views(edits@), can_go) {
            Ok(model) => result matches Ok(outcome) && outcome@ == model,
            Err(model) => result matches Err(halt) && halt@ == model,
        },
{
    assert(views(edits@).len() == edits@.len());
    if edits.len() == 0 {
        let outcome = SheetOutcome { files: Vec::new(), deleted: false, applied: Vec::new() };
        assert(outcome@.files =~= Seq::empty());
        assert(outcome@.applied =~= Seq::empty());
        return Ok(outcome);
    }
    match mask {
        Some(mask) => match finish_vue_stylesheet(
            &know.parses,
            &know.converter.conditionals,
            sheet,
            mask.as_str(),
            edits,
        ) {
            Err(halt) => Err(halt),
            Ok(finished) => {
                let path = sheet.css_path.as_str();
                Ok(
                    SheetOutcome {
                        files: one_file(path, finished.source),
                        deleted: false,
                        applied: one_path(path, finished.edit_batches),
                    },
                )
            },
        },
        None => finish_plain(know, sheet, edits, can_go),
    }
}

// ---------------------------------------------------------------------------
// A component's own edits
// ---------------------------------------------------------------------------

/// The edits of the first `n` files that are the stylesheet's own file: a Vue
/// SFC is stylesheet and consumer at once.
pub open spec fn own_edits(files: Seq<FileModel>, plans: Seq<PlanModel>, path: Seq<char>, n: int) -> Seq<EditModel>
    decreases n,
{
    if n <= 0 {
        seq![]
    } else {
        own_edits(files, plans, path, n - 1) + if files[n - 1].path == path {
            plans[n - 1].edits
        } else {
            seq![]
        }
    }
}

/// The plans without the edits of the stylesheet's own file.
pub open spec fn other_plans(files: Seq<FileModel>, plans: Seq<PlanModel>, path: Seq<char>) -> Seq<PlanModel> {
    Seq::new(
        plans.len(),
        |i: int| if files[i].path == path {
            PlanModel { edits: seq![], ..plans[i] }
        } else {
            plans[i]
        },
    )
}

fn take_own_edits(files: &Vec<SourceFile>, plans: &mut Vec<SourcePlan>, path: &str, edits: &mut Vec<Edit>)
    requires
        old(plans)@.len() == files@.len(),
    ensures
        final(plans)@.len() == files@.len(),
        views(final(plans)@) == other_plans(views(files@), views(old(plans)@), path@),
        views(final(edits)@) == views(old(edits)@) + own_edits(
            views(files@),
            views(old(plans)@),
            path@,
            files@.len() as int,
        ),
{
    let ghost models = views(files@);
    let ghost start = views(plans@);
    let ghost first = views(edits@);
    assert(first + own_edits(models, start, path@, 0) =~= first);
    let mut n: usize = 0;
    while n < files.len()
        invariant
            n <= files@.len() == plans@.len(),
            models == views(files@),
            start.len() == files@.len(),
            views(edits@) == first + own_edits(models, start, path@, n as int),
            forall|k: int|
                0 <= k < n ==> #[trigger] views(plans@)[k] == if models[k].path == path@ {
                    (PlanModel { edits: seq![], ..start[k] })
                } else {
                    start[k]
                },
            forall|k: int| n <= k < start.len() ==> #[trigger] views(plans@)[k] == start[k],
        decreases files.len() - n,
    {
        let ghost before = plans@;
        let ghost known = views(edits@);
        assert(models[n as int] == files@[n as int]@);
        assert(views(plans@)[n as int] == plans@[n as int]@);
        if same(files[n].path.as_str(), path) {
            append_copies(edits, &plans[n].edits);
            plans[n].edits = Vec::new();
            assert(views(plans@[n as int].edits@) =~= Seq::empty());
        } else {
            assert(known + Seq::<EditModel>::empty() =~= known);
        }
        assert forall|k: int| 0 <= k < start.len() && k != n implies #[trigger] views(plans@)[k] == views(before)[k] by {
            assert(plans@[k] == before[k]);
        }
        assert(views(plans@)[n as int] == plans@[n as int]@);
        n += 1;
        assert(views(edits@) =~= first + own_edits(models, start, path@, n as int));
    }
    assert(views(plans@) =~= other_plans(models, start, path@));
}

// ---------------------------------------------------------------------------
// The files that use it
// ---------------------------------------------------------------------------

/// Whether an edited script still parses.
pub open spec fn script_checked(path: Seq<char>, source: Seq<char>) -> Result<(), ErrorModel> {
    if extension(path) == Some("html"@) || extension(path) == Some("vue"@) {
        Ok(())
    } else {
        match module_json(path, source, reads_jsx(path)) {
            Ok(_) => Ok(()),
            Err(SyntaxErrorModel::Unsupported(text)) => Err(
                ErrorModel {
                    kind: ErrorKind::UnsupportedSource,
                    message: "Unsupported source file "@ + path + ": "@ + text,
                },
            ),
            Err(_) => Err(unsound("Edited source no longer parses: "@ + path)),
        }
    }
}

fn check_script(path: &str, source: &str) -> (result: Result<(), MigrationError>)
    ensures
        match script_checked(path@, source@) {
            Ok(_) => result is Ok,
            Err(model) => result matches Err(error) && error@ == model,
        },
{
    if has_extension(path, "html") || has_extension(path, "vue") {
        return Ok(());
    }
    validate_js(path, source)
}

/// The edits of a file. The import of a module that nothing needs any more
/// goes, too.
pub open spec fn file_edits(plan: PlanModel, unlink: bool) -> Seq<EditModel> {
    if unlink {
        plan.edits + plan.removable_import_edits
    } else {
        plan.edits
    }
}

/// The files that change, and the edits that were applied.
pub struct WrittenModel {
    pub files: Seq<PlannedModel>,
    pub applied: AppliedModels,
}

/// What the first `n` files become.
pub open spec fn written(
    files: Seq<FileModel>,
    plans: Seq<PlanModel>,
    unlink: bool,
    start: WrittenModel,
    n: int,
) -> Result<WrittenModel, HaltModel>
    decreases n,
{
    if n <= 0 {
        Ok(start)
    } else {
        match written(files, plans, unlink, start, n - 1) {
            Err(halt) => Err(halt),
            Ok(known) => {
                let file = files[n - 1];
                let edits = file_edits(plans[n - 1], unlink);
                if edits.len() == 0 {
                    Ok(known)
                } else {
                    match edited(file.source, edits) {
                        Err(halt) => Err(halt),
                        Ok(source) => match script_checked(file.path, source) {
                            Err(error) => Err(HaltModel::Failed(error)),
                            Ok(_) => Ok(
                                WrittenModel {
                                    files: known.files.push(PlannedModel { path: file.path, source }),
                                    applied: with_round(known.applied, file.path, edits, 0),
                                },
                            ),
                        },
                    }
                }
            },
        }
    }
}

proof fn lemma_written_halt(
    files: Seq<FileModel>,
    plans: Seq<PlanModel>,
    unlink: bool,
    start: WrittenModel,
    k: int,
    n: int,
)
    requires
        0 <= k <= n,
        written(files, plans, unlink, start, k) is Err,
    ensures
        written(files, plans, unlink, start, n) == written(files, plans, unlink, start, k),
    decreases n - k,
{
    if k < n {
        lemma_written_halt(files, plans, unlink, start, k, n - 1);
    }
}

struct Written {
    files: Vec<PlannedFile>,
    applied: AppliedEdits,
}

impl View for Written {
    type V = WrittenModel;

    closed spec fn view(&self) -> WrittenModel {
        WrittenModel { files: views(self.files@), applied: applied_models(self.applied@) }
    }
}

fn get_file_edits(plan: &SourcePlan, unlink: bool) -> (result: Vec<Edit>)
    ensures
        views(result@) == file_edits(plan@, unlink),
{
    let mut edits = duplicate_all(&plan.edits);
    if unlink {
        append_copies(&mut edits, &plan.removable_import_edits);
    }
    edits
}

fn write_file(file: &SourceFile, edits: &Vec<Edit>) -> (result: Result<String, Halt>)
    ensures
        match edited(file@.source, views(edits@)) {
            Err(model) => result matches Err(halt) && halt@ == model,
            Ok(source) => match script_checked(file@.path, source) {
                Err(model) => result matches Err(halt) && halt@ == HaltModel::Failed(model),
                Ok(_) => result matches Ok(text) && text@ == source,
            },
        },
{
    match apply_edits(file.source.as_str(), edits) {
        Err(message) => Err(fail(message)),
        Ok(source) => match check_script(file.path.as_str(), source.as_str()) {
            Err(error) => Err(Halt::Failed(error)),
            Ok(_) => Ok(source),
        },
    }
}

fn write_files(files: &Vec<SourceFile>, plans: &Vec<SourcePlan>, unlink: bool, start: Written) -> (result: Result<
    Written,
    Halt,
>)
    requires
        plans@.len() == files@.len(),
    ensures
        match written(views(files@), views(plans@), unlink, start@, files@.len() as int) {
            Ok(model) => result matches Ok(known) && known@ == model,
            Err(model) => result matches Err(halt) && halt@ == model,
        },
{
    let ghost models = views(files@);
    let ghost offers = views(plans@);
    let ghost first = start@;
    let mut known = start;
    let mut n: usize = 0;
    while n < files.len()
        invariant
            n <= files@.len() == plans@.len(),
            models == views(files@),
            offers == views(plans@),
            first == start@,
            written(models, offers, unlink, first, n as int) == Ok::<WrittenModel, HaltModel>(known@),
        decreases files.len() - n,
    {
        let file = &files[n];
        assert(models[n as int] == file@);
        assert(offers[n as int] == plans@[n as int]@);
        let edits = get_file_edits(&plans[n], unlink);
        assert(views(edits@).len() == edits@.len());
        if edits.len() > 0 {
            match write_file(file, &edits) {
                Err(halt) => {
                    proof {
                        lemma_written_halt(models, offers, unlink, first, n + 1, files@.len() as int);
                    }
                    return Err(halt);
                },
                Ok(source) => {
                    add_round(&mut known.applied, file.path.as_str(), &edits);
                    let ghost before = known.files@;
                    let ghost model = PlannedModel { path: file@.path, source: source@ };
                    known.files.push(PlannedFile { path: copy(file.path.as_str()), source });
                    assert(views(known.files@) =~= views(before).push(model));
                },
            }
        }
        n += 1;
    }
    Ok(known)
}

// ---------------------------------------------------------------------------
// The whole
// ---------------------------------------------------------------------------

/// The code and the message under which an open template surface retains
/// rules.
pub open spec fn sheet_retention(sheet: SheetModel) -> Result<Option<(Seq<char>, Seq<char>)>, HaltModel> {
    match sheet.vue_retention {
        None => Ok(None),
        Some(code) => match retention_message(code) {
            Some(message) => Ok(Some((code, message))),
            None => Err(failed("Unknown Vue retention code: "@ + code)),
        },
    }
}

fn find_sheet_retention(sheet: &BatchStylesheet) -> (result: Result<Option<(String, String)>, Halt>)
    ensures
        match sheet_retention(sheet@) {
            Ok(model) => result matches Ok(found) && crate::reports::pair_model(found) == model,
            Err(model) => result matches Err(halt) && halt@ == model,
        },
{
    match &sheet.vue_retention {
        None => Ok(None),
        Some(code) => match vue_retention_warning(code.as_str()) {
            Ok(message) => Ok(Some((copy(code.as_str()), message))),
            Err(message) => Err(fail(message)),
        },
    }
}

/// What the rules of a stylesheet offer the files that use it.
pub open spec fn rules_offer(
    know: KnowledgeModel,
    request: RequestModel,
    rules: Seq<RuleModel>,
) -> OfferModel {
    let count = rules.len() as int;
    OfferModel {
        sheet: request.sheet,
        entries: candidate_map_of(rules, classes_of_rules(rules, Choice::Blocked, count), count),
        preserved: if sheet_is_module(request.sheet) {
            classes_of_rules(rules, Choice::BatchRetained, count)
        } else {
            seq![]
        },
        prefix: request.settings.utility_prefix,
        rule_classes: if request.sheet.vue_module {
            Some(classes_of_rules(rules, Choice::All, count))
        } else {
            None
        },
        conflicts: know.utilities.conflicts,
    }
}

/// The edits that the file at a path went through so far.
pub open spec fn prior_edits_from(files: Seq<FileModel>, path: Seq<char>, i: int) -> Seq<Seq<EditModel>>
    decreases files.len() - i,
{
    if i < 0 || i >= files.len() {
        seq![]
    } else if files[i].path == path {
        files[i].prior_edits
    } else {
        prior_edits_from(files, path, i + 1)
    }
}

fn find_prior_edits(files: &Vec<SourceFile>, path: &str) -> (result: Vec<Vec<Edit>>)
    ensures
        rounds(result@) == prior_edits_from(views(files@), path@, 0),
{
    let mut i: usize = 0;
    while i < files.len()
        invariant
            i <= files@.len(),
            prior_edits_from(views(files@), path@, i as int) == prior_edits_from(views(files@), path@, 0),
        decreases files.len() - i,
    {
        assert(views(files@)[i as int] == files@[i as int]@);
        if same(files[i].path.as_str(), path) {
            return duplicate_rounds(&files[i].prior_edits);
        }
        i += 1;
    }
    let none: Vec<Vec<Edit>> = Vec::new();
    assert(rounds(none@) =~= Seq::empty());
    none
}

/// What reports on the rules are made from.
pub open spec fn rules_reporting(
    request: RequestModel,
    verdicts: VerdictsModel,
    retention: Option<(Seq<char>, Seq<char>)>,
    known: ConsumedModel,
) -> ReportingModel {
    ReportingModel {
        sheet: request.sheet,
        verdicts,
        retention,
        safe: known.safe,
        module_refs: known.module_refs,
        matched_module_refs: known.matched_module_refs,
        prior_edits: prior_edits_from(request.files, request.sheet.css_path, 0),
    }
}

/// The at-rules of a CSS Module go, and its file may: every reference is safe
/// and was rewritten, and no rule stays.
pub open spec fn module_goes(sheet: SheetModel, known: ConsumedModel, reports: ReportedModel) -> bool {
    sheet_is_module(sheet) && known.safe && known.module_refs.len() == known.matched_module_refs.len()
        && reports.retained == 0
}

/// The warning that generated CSS is stale.
pub open spec fn rebuild_warnings(sheet: SheetModel, changed: bool) -> Seq<WarningModel> {
    if changed && sheet.syntax != StylesheetSyntax::Css {
        seq![
            file_warning(
                "rebuild-required"@,
                sheet.css_path,
                "Rebuild this preprocessor entry to refresh its generated CSS."@,
            ),
        ]
    } else {
        seq![]
    }
}

/// The rest of a plan, once the files were consumed and the rules reported on.
pub open spec fn concluded_plan(
    know: KnowledgeModel,
    request: RequestModel,
    found: RequestRulesModel,
    known: ConsumedModel,
    reports: ReportedModel,
) -> Result<ResponseModel, HaltModel> {
    let sheet = request.sheet;
    let goes = module_goes(sheet, known, reports);
    let keyframes = found.parsed.keyframes;
    let globals = found.parsed.global_at_rules;
    let moved = moved_keyframes(keyframes, known.candidates, goes, keyframes.len() as int);
    let own = if found.masked is Some {
        own_edits(request.files, known.plans, sheet.css_path, request.files.len() as int)
    } else {
        seq![]
    };
    let plans = if found.masked is Some {
        other_plans(request.files, known.plans, sheet.css_path)
    } else {
        known.plans
    };
    let edits = reports.edits + (if goes {
        at_rule_removals(keyframes, globals)
    } else {
        seq![]
    }) + own;
    let unused = found.masked is None && goes;
    match entry_file(
        know,
        request,
        moved,
        if goes {
            globals
        } else {
            seq![]
        },
    ) {
        Err(halt) => Err(halt),
        Ok(entry) => match sheet_outcome(know, sheet, found.masked, edits, goes) {
            Err(halt) => Err(halt),
            Ok(outcome) => match written(
                request.files,
                plans,
                outcome.deleted || unused,
                WrittenModel { files: entry + outcome.files, applied: outcome.applied },
                request.files.len() as int,
            ) {
                Err(halt) => Err(halt),
                Ok(done) => Ok(
                    ResponseModel {
                        files: done.files,
                        deleted_files: if outcome.deleted {
                            seq![sheet.css_path]
                        } else {
                            seq![]
                        },
                        unlinked_files: if unused {
                            seq![sheet.css_path]
                        } else {
                            seq![]
                        },
                        candidates: known.candidates,
                        converted_rules: reports.converted,
                        retained_rules: reports.retained,
                        rules: reports.reports,
                        warnings: known.warnings + reports.warnings + rebuild_warnings(sheet, edits.len() > 0),
                        applied_edits: done.applied,
                    },
                ),
            },
        },
    }
}

/// The plan of a request.
pub open spec fn planned(
    know: KnowledgeModel,
    request: RequestModel,
    verdicts: VerdictsModel,
) -> Result<ResponseModel, HaltModel> {
    match request_rules(know, request) {
        Err(halt) => Err(halt),
        Ok(found) => match sheet_retention(request.sheet) {
            Err(halt) => Err(halt),
            Ok(retention) => {
                let rules = decided_rules(know, request, verdicts, found.parsed.rules);
                let offer = rules_offer(know, request, rules);
                match consumed(offer, rules, request.files, request.files.len() as int) {
                    Err(halt) => Err(halt),
                    Ok(known) => concluded_plan(
                        know,
                        request,
                        found,
                        known,
                        reported(rules_reporting(request, verdicts, retention, known), rules, rules.len() as int),
                    ),
                }
            },
        },
    }
}

fn append_files(files: &mut Vec<PlannedFile>, more: Vec<PlannedFile>)
    ensures
        views(final(files)@) == views(old(files)@) + views(more@),
{
    let ghost before = files@;
    let ghost added = more@;
    let mut more = more;
    files.append(&mut more);
    assert(views(files@) =~= views(before) + views(added));
}

fn list_path(path: &str, listed: bool) -> (result: Vec<String>)
    ensures
        texts(result@) == if listed {
            seq![path@]
        } else {
            seq![]
        },
{
    let mut list: Vec<String> = Vec::new();
    if listed {
        list.push(copy(path));
        assert(texts(list@) =~= seq![path@]);
    } else {
        assert(texts(list@) =~= Seq::empty());
    }
    list
}

fn no_globals() -> (result: Vec<GlobalAtRulePlan>)
    ensures
        views(result@) == Seq::<GlobalModel>::empty(),
{
    let none: Vec<GlobalAtRulePlan> = Vec::new();
    assert(views(none@) =~= Seq::empty());
    none
}

fn conclude_plan(
    know: &Knowledge,
    request: &PlanRequest,
    found: &crate::request_rules::RequestRules,
    known: Consumed,
    reports: crate::reports::Reported,
) -> (result: Result<PlanResponse, Halt>)
    requires
        known.plans@.len() == request.files@.len(),
    ensures
        match concluded_plan(know@, request@, found@, known@, reports@) {
            Ok(model) => result matches Ok(response) && response@ == model,
            Err(model) => result matches Err(halt) && halt@ == model,
        },
{
    let sheet = &request.sheet;
    let path = sheet.css_path.as_str();
    let keyframes = &found.parsed.keyframes;
    let globals = &found.parsed.global_at_rules;
    assert(views(keyframes@).len() == keyframes@.len());
    assert(known@.module_refs.len() == known.module_refs.names@.len());
    assert(known@.matched_module_refs.len() == known.matched_module_refs.names@.len());
    assert(request@.files.len() == request.files@.len());
    let goes = is_module_sheet(sheet) && known.safe && known.module_refs.names.len()
        == known.matched_module_refs.names.len() && reports.retained == 0;
    let moved = collect_moved_keyframes(keyframes, &known.candidates, goes);
    let moved_globals = if goes {
        duplicate_all(globals)
    } else {
        no_globals()
    };
    let ghost known_model = known@;
    let ghost reports_model = reports@;
    let ghost found_model = found@;
    let mut edits = reports.edits;
    if goes {
        push_at_rule_removals(&mut edits, keyframes, globals);
    } else {
        assert(reports_model.edits + Seq::<EditModel>::empty() =~= reports_model.edits);
    }
    let mut plans = known.plans;
    let ghost first = views(edits@);
    if found.masked.is_some() {
        take_own_edits(&request.files, &mut plans, path, &mut edits);
    } else {
        assert(first + Seq::<EditModel>::empty() =~= first);
    }
    let unused = found.masked.is_none() && goes;
    let mut files = match plan_entry(know, request, &moved, &moved_globals) {
        Ok(files) => files,
        Err(halt) => {
            return Err(halt);
        },
    };
    let outcome = match finish_sheet(know, sheet, &found.masked, &edits, goes) {
        Ok(outcome) => outcome,
        Err(halt) => {
            return Err(halt);
        },
    };
    let deleted = outcome.deleted;
    append_files(&mut files, outcome.files);
    let done = match write_files(
        &request.files,
        &plans,
        deleted || unused,
        Written { files, applied: outcome.applied },
    ) {
        Ok(done) => done,
        Err(halt) => {
            return Err(halt);
        },
    };
    let mut warnings = known.warnings;
    let ghost consumed_warnings = views(warnings@);
    append_copies(&mut warnings, &reports.warnings);
    assert(views(edits@).len() == edits@.len());
    if edits.len() > 0 && sheet.syntax != StylesheetSyntax::Css {
        let ghost before = warnings@;
        let warning = Warning::new(
            "rebuild-required",
            path,
            (0, 0),
            "Rebuild this preprocessor entry to refresh its generated CSS.".to_owned(),
        );
        let ghost model = warning@;
        warnings.push(warning);
        assert(views(warnings@) =~= views(before) + seq![model]);
    } else {
        assert(views(warnings@) =~= views(warnings@) + Seq::<WarningModel>::empty());
    }
    Ok(
        PlanResponse {
            files: done.files,
            deleted_files: list_path(path, deleted),
            unlinked_files: list_path(path, unused),
            candidates: known.candidates,
            converted_rules: reports.converted,
            retained_rules: reports.retained,
            rules: reports.reports,
            warnings,
            applied_edits: done.applied,
        },
    )
}

/// Plans one stylesheet and the files that use it.
pub fn plan_request<'a>(know: &Knowledge, request: &PlanRequest, verdicts: &Verdicts<'a>) -> (result: Result<
    PlanResponse,
    Halt,
>)
    ensures
        match planned(know@, request@, verdicts@) {
            Ok(model) => result matches Ok(response) && response@ == model,
            Err(model) => result matches Err(halt) && halt@ == model,
        },
{
    let mut found = match parse_request_rules(know, request) {
        Ok(found) => found,
        Err(halt) => {
            return Err(halt);
        },
    };
    let ghost found_model = found@;
    let retention = match find_sheet_retention(&request.sheet) {
        Ok(retention) => retention,
        Err(halt) => {
            return Err(halt);
        },
    };
    let mut rules: Vec<RulePlan> = Vec::new();
    rules.append(&mut found.parsed.rules);
    assert(views(rules@) =~= found_model.parsed.rules);
    decide_rules(know, request, verdicts, &mut rules);
    assert(views(rules@).len() == rules@.len());
    let blocked = collect_rule_classes(&rules, Choice::Blocked);
    let preserved = if is_module_sheet(&request.sheet) {
        collect_rule_classes(&rules, Choice::BatchRetained)
    } else {
        let none: Vec<String> = Vec::new();
        assert(texts(none@) =~= Seq::empty());
        none
    };
    let candidates = build_candidate_map(&rules, &blocked);
    let all_classes = collect_rule_classes(&rules, Choice::All);
    let offer = Offer {
        sheet: &request.sheet,
        candidates: &candidates,
        preserved: &preserved,
        prefix: &request.settings.utility_prefix,
        rule_classes: if request.sheet.vue_module {
            Some(&all_classes)
        } else {
            None
        },
        conflicts: &know.utilities.conflicts,
    };
    assert(request@.files.len() == request.files@.len());
    let known = match consume(&offer, &rules, &request.files) {
        Ok(known) => known,
        Err(halt) => {
            return Err(halt);
        },
    };
    let prior_edits = find_prior_edits(&request.files, request.sheet.css_path.as_str());
    let reports = report_rules(
        &Reporting {
            sheet: &request.sheet,
            verdicts,
            retention: &retention,
            consumed: &known,
            prior_edits: &prior_edits,
        },
        &rules,
    );
    conclude_plan(know, request, &found, known, reports)
}

// ---------------------------------------------------------------------------
// Laws
// ---------------------------------------------------------------------------

/// A stylesheet is deleted, and its imports are removed with it, only where it
/// is a CSS Module of which every reference is safe and was rewritten, and of
/// which no rule stays.
pub proof fn deleted_modules_are_unused(
    know: KnowledgeModel,
    request: RequestModel,
    found: RequestRulesModel,
    known: ConsumedModel,
    reports: ReportedModel,
)
    ensures
        concluded_plan(know, request, found, known, reports) matches Ok(response) && (response.deleted_files.len() > 0
            || response.unlinked_files.len() > 0) ==> {
            &&& sheet_is_module(request.sheet)
            &&& known.safe
            &&& known.module_refs.len() == known.matched_module_refs.len()
            &&& reports.retained == 0
        },
{
}

} // verus!
