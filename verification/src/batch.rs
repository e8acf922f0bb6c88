//! Planning a batch of stylesheets that share files and one Tailwind entry.
use crate::batch_conflicts::{collect_sheet_conflicts, owned_models, sheet_conflicts, OwnedModel, OwnedPairs};
use crate::batch_snapshot::{
    batch_conflicts, co_located, copy_pieces, copy_proof, find_batch_conflicts, find_co_located, piece_models,
    pieces_at, proof_at, proofs_of, prove_batch, PieceModels, Pieces, Proofs, ProofsModel,
};
use crate::css::{fail, failed, Halt, HaltModel};
use crate::decisions::{Verdicts, VerdictsModel};
use crate::duplicate::{append_copies, Duplicate};
use crate::edit::rounds;
use crate::errors::{ErrorKind, ErrorModel, MigrationError};
use crate::names::{ascending, insert_name, insert_names, naming_keeps_the_order, with_name, with_names};
use crate::number::pairs_of;
use crate::order::{all_placed, lemma_placed, lemma_placed_members, placed};
use crate::path_table::{
    add_rounds, drop_source, find_rounds, find_source, lemma_with_source, lemma_without_source, lists, one_each,
    put_source, rounds_from, source_at, with_rounds, with_source, without_source,
};
use crate::plan::{Warning, WarningModel};
use crate::planner::{
    applied_models, plan_request, planned, AppliedEdits, AppliedModels, PlanResponse, PlannedFile, PlannedModel,
    ResponseModel,
};
use crate::reports::{ReportModel, RuleReport};
use crate::request::{
    BatchModel, BatchPlanRequest, BatchStylesheet, PlanRequest, RequestModel, Settings, SettingsModel, SheetModel,
};
use crate::request_rules::{Knowledge, KnowledgeModel};
use crate::source::{FileModel, SourceFile};
use crate::text::{copy, is_before, precedes, push_texts, same, texts, views};
use crate::vue::{rebase_vue_blocks, rebased_blocks};
use vstd::prelude::*;

verus! {

// ---------------------------------------------------------------------------
// The order of the stylesheets
// ---------------------------------------------------------------------------

/// The stylesheets compared by their paths.
pub open spec fn by_path(sheets: Seq<SheetModel>) -> spec_fn(int, int) -> bool {
    |a: int, b: int| precedes(sheets[a].css_path, sheets[b].css_path)
}

/// The numbers below `n`.
pub open spec fn numbers(n: int) -> Seq<int> {
    Seq::new(n as nat, |i: int| i)
}

/// The order in which the stylesheets are planned: by path, and those of one
/// path as the batch lists them.
pub open spec fn sheet_order(sheets: Seq<SheetModel>) -> Seq<int> {
    all_placed(numbers(sheets.len() as int), by_path(sheets), sheets.len() as int)
}

pub open spec fn ints(list: Seq<usize>) -> Seq<int> {
    list.map_values(|item: usize| item as int)
}

fn place_sheet(sheets: &Vec<BatchStylesheet>, order: &mut Vec<usize>, s: usize)
    requires
        s < sheets@.len(),
        forall|i: int| 0 <= i < old(order)@.len() ==> #[trigger] old(order)@[i] < sheets@.len(),
    ensures
        ints(final(order)@) == placed(ints(old(order)@), s as int, by_path(views(sheets@))),
        forall|i: int| 0 <= i < final(order)@.len() ==> #[trigger] final(order)@[i] < sheets@.len(),
{
    let ghost start = ints(order@);
    let ghost models = views(sheets@);
    let mut k: usize = order.len();
    assert(models[s as int] == sheets@[s as int]@);
    while k > 0 && is_before(sheets[s].css_path.as_str(), sheets[order[k - 1]].css_path.as_str())
        invariant
            k <= order@.len(),
            s < sheets@.len(),
            order@ == old(order)@,
            start == ints(order@),
            models == views(sheets@),
            models[s as int] == sheets@[s as int]@,
            forall|i: int| 0 <= i < order@.len() ==> #[trigger] order@[i] < sheets@.len(),
            forall|j: int| k <= j < order@.len() ==> (by_path(models))(s as int, #[trigger] start[j]),
        decreases k,
    {
        assert(start[k - 1] == order@[k - 1]);
        assert(models[order@[k - 1] as int] == sheets@[order@[k - 1] as int]@);
        k -= 1;
    }
    proof {
        if k > 0 {
            assert(start[k - 1] == order@[k - 1]);
            assert(models[order@[k - 1] as int] == sheets@[order@[k - 1] as int]@);
        }
        lemma_placed(start, s as int, by_path(models), k as int);
    }
    order.insert(k, s);
    assert(ints(order@) =~= start.insert(k as int, s as int));
}

fn order_sheets(sheets: &Vec<BatchStylesheet>) -> (result: Vec<usize>)
    ensures
        ints(result@) == sheet_order(views(sheets@)),
        forall|i: int| 0 <= i < result@.len() ==> #[trigger] result@[i] < sheets@.len(),
{
    let ghost models = views(sheets@);
    let ghost listed = numbers(models.len() as int);
    let mut order: Vec<usize> = Vec::new();
    assert(ints(order@) =~= Seq::empty());
    let mut n: usize = 0;
    while n < sheets.len()
        invariant
            n <= sheets@.len() == models.len(),
            models == views(sheets@),
            listed == numbers(models.len() as int),
            ints(order@) == all_placed(listed, by_path(models), n as int),
            forall|i: int| 0 <= i < order@.len() ==> #[trigger] order@[i] < sheets@.len(),
        decreases sheets.len() - n,
    {
        place_sheet(sheets, &mut order, n);
        assert(listed[n as int] == n);
        n += 1;
    }
    order
}

// ---------------------------------------------------------------------------
// The files before the batch
// ---------------------------------------------------------------------------

/// The texts of the first `n` files.
pub open spec fn file_sources(files: Seq<FileModel>, n: int) -> Seq<(Seq<char>, Seq<char>)>
    decreases n,
{
    if n <= 0 {
        seq![]
    } else {
        with_source(file_sources(files, n - 1), files[n - 1].path, files[n - 1].source)
    }
}

/// The texts of files and of the first `n` stylesheets.
pub open spec fn sheet_sources(batch: BatchModel, n: int) -> Seq<(Seq<char>, Seq<char>)>
    decreases n,
{
    if n <= 0 {
        file_sources(batch.files, batch.files.len() as int)
    } else {
        with_source(sheet_sources(batch, n - 1), batch.stylesheets[n - 1].css_path, batch.stylesheets[n - 1].css_source)
    }
}

/// The texts before the batch.
pub open spec fn originals_of(batch: BatchModel) -> Seq<(Seq<char>, Seq<char>)> {
    let list = sheet_sources(batch, batch.stylesheets.len() as int);
    match (batch.settings.tailwind_path, batch.settings.tailwind_source) {
        (Some(path), Some(source)) => with_source(list, path, source),
        _ => list,
    }
}

fn collect_originals(batch: &BatchPlanRequest) -> (result: Vec<(String, String)>)
    ensures
        pairs_of(result@) == originals_of(batch@),
{
    let mut list: Vec<(String, String)> = Vec::new();
    assert(pairs_of(list@) =~= Seq::empty());
    assert(batch@.files.len() == batch.files@.len());
    assert(batch@.stylesheets.len() == batch.stylesheets@.len());
    let mut n: usize = 0;
    while n < batch.files.len()
        invariant
            n <= batch.files@.len(),
            pairs_of(list@) == file_sources(batch@.files, n as int),
        decreases batch.files.len() - n,
    {
        assert(batch@.files[n as int] == batch.files@[n as int]@);
        put_source(&mut list, batch.files[n].path.as_str(), batch.files[n].source.as_str());
        n += 1;
    }
    let mut n: usize = 0;
    while n < batch.stylesheets.len()
        invariant
            n <= batch.stylesheets@.len(),
            pairs_of(list@) == sheet_sources(batch@, n as int),
        decreases batch.stylesheets.len() - n,
    {
        assert(batch@.stylesheets[n as int] == batch.stylesheets@[n as int]@);
        put_source(&mut list, batch.stylesheets[n].css_path.as_str(), batch.stylesheets[n].css_source.as_str());
        n += 1;
    }
    if let Some(path) = &batch.settings.tailwind_path {
        if let Some(source) = &batch.settings.tailwind_source {
            put_source(&mut list, path.as_str(), source.as_str());
        }
    }
    list
}

// ---------------------------------------------------------------------------
// What a batch has done so far
// ---------------------------------------------------------------------------

/// What a batch has done so far.
pub struct Progress {
    /// The files as they are, by path.
    pub current: Vec<(String, String)>,
    pub applied_edits: AppliedEdits,
    /// In ascending order.
    pub deleted: Vec<String>,
    /// In ascending order.
    pub unlinked: Vec<String>,
    /// In ascending order.
    pub candidates: Vec<String>,
    pub converted_rules: usize,
    pub retained_rules: usize,
    pub rules: Vec<RuleReport>,
    pub warnings: Vec<Warning>,
}

/// The model of [`Progress`].
pub struct BatchProgressModel {
    pub current: Seq<(Seq<char>, Seq<char>)>,
    pub applied_edits: AppliedModels,
    pub deleted: Seq<Seq<char>>,
    pub unlinked: Seq<Seq<char>>,
    pub candidates: Seq<Seq<char>>,
    pub converted_rules: int,
    pub retained_rules: int,
    pub rules: Seq<ReportModel>,
    pub warnings: Seq<WarningModel>,
}

impl View for Progress {
    type V = BatchProgressModel;

    open spec fn view(&self) -> BatchProgressModel {
        BatchProgressModel {
            current: pairs_of(self.current@),
            applied_edits: applied_models(self.applied_edits@),
            deleted: texts(self.deleted@),
            unlinked: texts(self.unlinked@),
            candidates: texts(self.candidates@),
            converted_rules: self.converted_rules as int,
            retained_rules: self.retained_rules as int,
            rules: views(self.rules@),
            warnings: views(self.warnings@),
        }
    }
}

/// A batch that has done nothing yet.
pub open spec fn no_progress(originals: Seq<(Seq<char>, Seq<char>)>) -> BatchProgressModel {
    BatchProgressModel {
        current: originals,
        applied_edits: seq![],
        deleted: seq![],
        unlinked: seq![],
        candidates: seq![],
        converted_rules: 0,
        retained_rules: 0,
        rules: seq![],
        warnings: seq![],
    }
}

fn start_progress(originals: Vec<(String, String)>) -> (result: Progress)
    ensures
        result@ == no_progress(pairs_of(originals@)),
{
    let result = Progress {
        current: originals,
        applied_edits: Vec::new(),
        deleted: Vec::new(),
        unlinked: Vec::new(),
        candidates: Vec::new(),
        converted_rules: 0,
        retained_rules: 0,
        rules: Vec::new(),
        warnings: Vec::new(),
    };
    assert(result@.applied_edits =~= Seq::empty());
    assert(result@.deleted =~= Seq::empty());
    assert(result@.unlinked =~= Seq::empty());
    assert(result@.candidates =~= Seq::empty());
    assert(result@.rules =~= Seq::empty());
    assert(result@.warnings =~= Seq::empty());
    result
}

/// The edits with the rounds of the first `n` entries.
pub open spec fn with_applied(list: AppliedModels, more: AppliedModels, n: int) -> AppliedModels
    decreases n,
{
    if n <= 0 {
        list
    } else {
        with_rounds(with_applied(list, more, n - 1), more[n - 1].0, more[n - 1].1, 0)
    }
}

fn add_applied(list: &mut AppliedEdits, more: &AppliedEdits)
    ensures
        applied_models(final(list)@) == with_applied(
            applied_models(old(list)@),
            applied_models(more@),
            more@.len() as int,
        ),
{
    let ghost start = applied_models(list@);
    let mut n: usize = 0;
    while n < more.len()
        invariant
            n <= more@.len(),
            applied_models(list@) == with_applied(start, applied_models(more@), n as int),
        decreases more.len() - n,
    {
        let entry = &more[n];
        assert(applied_models(more@)[n as int] == (entry.0@, rounds(entry.1@)));
        add_rounds(list, entry.0.as_str(), &entry.1);
        n += 1;
    }
}

/// The first `n` names but one.
pub open spec fn without_name(list: Seq<Seq<char>>, name: Seq<char>, n: int) -> Seq<Seq<char>>
    decreases n,
{
    if n <= 0 {
        seq![]
    } else if list[n - 1] == name {
        without_name(list, name, n - 1)
    } else {
        without_name(list, name, n - 1).push(list[n - 1])
    }
}

fn drop_name(list: &mut Vec<String>, name: &str)
    ensures
        texts(final(list)@) == without_name(texts(old(list)@), name@, old(list)@.len() as int),
{
    let ghost start = texts(list@);
    let mut kept: Vec<String> = Vec::new();
    assert(texts(kept@) =~= Seq::empty());
    let mut n: usize = 0;
    while n < list.len()
        invariant
            n <= list@.len(),
            list@ == old(list)@,
            start == texts(list@),
            texts(kept@) == without_name(start, name@, n as int),
        decreases list.len() - n,
    {
        assert(start[n as int] == list@[n as int]@);
        if !same(list[n].as_str(), name) {
            let ghost before = kept@;
            kept.push(copy(list[n].as_str()));
            assert(texts(kept@) =~= texts(before).push(start[n as int]));
        }
        n += 1;
    }
    *list = kept;
}

/// What was done once the first `n` files are written. A path that is written
/// is no longer deleted.
pub open spec fn with_files(known: BatchProgressModel, files: Seq<PlannedModel>, n: int) -> BatchProgressModel
    decreases n,
{
    if n <= 0 {
        known
    } else {
        let before = with_files(known, files, n - 1);
        BatchProgressModel {
            current: with_source(before.current, files[n - 1].path, files[n - 1].source),
            deleted: without_name(before.deleted, files[n - 1].path, before.deleted.len() as int),
            ..before
        }
    }
}

fn write_files(known: &mut Progress, files: &Vec<PlannedFile>)
    ensures
        final(known)@ == with_files(old(known)@, views(files@), files@.len() as int),
{
    let ghost start = known@;
    let mut n: usize = 0;
    while n < files.len()
        invariant
            n <= files@.len(),
            known@ == with_files(start, views(files@), n as int),
        decreases files.len() - n,
    {
        let file = &files[n];
        assert(views(files@)[n as int] == file@);
        assert(known@.deleted.len() == known.deleted@.len());
        drop_name(&mut known.deleted, file.path.as_str());
        put_source(&mut known.current, file.path.as_str(), file.source.as_str());
        n += 1;
    }
}

/// What was done once the first `n` paths are deleted.
pub open spec fn with_deletions(known: BatchProgressModel, paths: Seq<Seq<char>>, n: int) -> BatchProgressModel
    decreases n,
{
    if n <= 0 {
        known
    } else {
        let before = with_deletions(known, paths, n - 1);
        BatchProgressModel {
            current: without_source(before.current, paths[n - 1], before.current.len() as int),
            deleted: with_name(before.deleted, paths[n - 1]),
            ..before
        }
    }
}

fn delete_files(known: &mut Progress, paths: &Vec<String>)
    ensures
        final(known)@ == with_deletions(old(known)@, texts(paths@), paths@.len() as int),
{
    let ghost start = known@;
    let mut n: usize = 0;
    while n < paths.len()
        invariant
            n <= paths@.len(),
            known@ == with_deletions(start, texts(paths@), n as int),
        decreases paths.len() - n,
    {
        assert(texts(paths@)[n as int] == paths@[n as int]@);
        assert(known@.current.len() == known.current@.len());
        drop_source(&mut known.current, paths[n].as_str());
        insert_name(&mut known.deleted, paths[n].as_str());
        n += 1;
    }
}

/// A report of a rule of stylesheet `s`.
pub open spec fn owned_report(report: ReportModel, s: usize) -> ReportModel {
    ReportModel { stylesheet: s, ..report }
}

fn push_reports(list: &mut Vec<RuleReport>, more: &Vec<RuleReport>, s: usize)
    ensures
        views(final(list)@) == views(old(list)@) + views(more@).map_values(
            |report: ReportModel| owned_report(report, s),
        ),
{
    let ghost start = views(list@);
    let ghost goal = views(more@).map_values(|report: ReportModel| owned_report(report, s));
    let mut i: usize = 0;
    assert(start + goal.take(0) =~= start);
    while i < more.len()
        invariant
            i <= more@.len(),
            goal == views(more@).map_values(|report: ReportModel| owned_report(report, s)),
            goal.len() == more@.len(),
            views(list@) == start + goal.take(i as int),
        decreases more.len() - i,
    {
        assert(views(more@)[i as int] == more@[i as int]@);
        let ghost before = list@;
        let mut report = more[i].duplicate();
        report.stylesheet = s;
        list.push(report);
        assert(views(list@) =~= views(before).push(goal[i as int]));
        i += 1;
        assert(views(list@) =~= start + goal.take(i as int));
    }
    assert(goal.take(i as int) =~= goal);
}

/// The sum of two counts, as far as it can be counted.
pub open spec fn counted(a: int, b: int) -> int {
    if a + b <= usize::MAX {
        a + b
    } else {
        usize::MAX as int
    }
}

/// What was done once the plan of stylesheet `s` is carried out.
pub open spec fn with_response(known: BatchProgressModel, response: ResponseModel, s: usize) -> BatchProgressModel {
    let written = with_files(
        BatchProgressModel {
            applied_edits: with_applied(
                known.applied_edits,
                response.applied_edits,
                response.applied_edits.len() as int,
            ),
            ..known
        },
        response.files,
        response.files.len() as int,
    );
    let left = with_deletions(written, response.deleted_files, response.deleted_files.len() as int);
    BatchProgressModel {
        unlinked: with_names(left.unlinked, response.unlinked_files),
        candidates: with_names(left.candidates, response.candidates),
        converted_rules: counted(left.converted_rules, response.converted_rules),
        retained_rules: counted(left.retained_rules, response.retained_rules),
        rules: left.rules + response.rules.map_values(|report: ReportModel| owned_report(report, s)),
        warnings: left.warnings + response.warnings,
        ..left
    }
}

fn carry_out(known: &mut Progress, response: &PlanResponse, s: usize)
    ensures
        final(known)@ == with_response(old(known)@, response@, s),
{
    assert(response@.applied_edits.len() == response.applied_edits@.len());
    assert(response@.files.len() == response.files@.len());
    assert(response@.deleted_files.len() == response.deleted_files@.len());
    add_applied(&mut known.applied_edits, &response.applied_edits);
    write_files(known, &response.files);
    delete_files(known, &response.deleted_files);
    insert_names(&mut known.unlinked, &response.unlinked_files);
    insert_names(&mut known.candidates, &response.candidates);
    known.converted_rules = known.converted_rules.saturating_add(response.converted_rules);
    known.retained_rules = known.retained_rules.saturating_add(response.retained_rules);
    push_reports(&mut known.rules, &response.rules, s);
    append_copies(&mut known.warnings, &response.warnings);
}

// ---------------------------------------------------------------------------
// One stylesheet of the batch
// ---------------------------------------------------------------------------

/// A file as it is, with the edits that led there.
pub open spec fn current_file(known: BatchProgressModel, file: FileModel) -> FileModel {
    FileModel {
        source: match source_at(known.current, file.path) {
            Some(source) => source,
            None => file.source,
        },
        prior_edits: rounds_from(known.applied_edits, file.path, 0),
        ..file
    }
}

/// The files as they are.
pub open spec fn current_files(known: BatchProgressModel, files: Seq<FileModel>) -> Seq<FileModel> {
    files.map_values(|file: FileModel| current_file(known, file))
}

fn copy_current_files(known: &Progress, files: &Vec<SourceFile>) -> (result: Vec<SourceFile>)
    ensures
        views(result@) == current_files(known@, views(files@)),
{
    let ghost goal = current_files(known@, views(files@));
    let mut result: Vec<SourceFile> = Vec::new();
    let mut i: usize = 0;
    while i < files.len()
        invariant
            i <= files@.len(),
            goal == current_files(known@, views(files@)),
            goal.len() == files@.len(),
            views(result@) == goal.take(i as int),
        decreases files.len() - i,
    {
        assert(views(files@)[i as int] == files@[i as int]@);
        let ghost before = result@;
        let mut file = files[i].duplicate();
        if let Some(source) = find_source(&known.current, files[i].path.as_str()) {
            file.source = copy(source.as_str());
        }
        file.prior_edits = find_rounds(&known.applied_edits, files[i].path.as_str());
        result.push(file);
        assert(views(result@) =~= views(before).push(goal[i as int]));
        i += 1;
        assert(views(result@) =~= goal.take(i as int));
    }
    assert(goal.take(i as int) =~= goal);
    result
}

/// A stylesheet as it is. Its Vue blocks follow the edits of the component,
/// and a module block competes with the rules that stay beside it.
pub open spec fn current_sheet(known: BatchProgressModel, pieces: PieceModels, sheet: SheetModel) -> Result<
    SheetModel,
    HaltModel,
> {
    let prior = rounds_from(known.applied_edits, sheet.css_path, 0);
    let css_source = match source_at(known.current, sheet.css_path) {
        Some(source) => source,
        None => sheet.css_source,
    };
    let vue_shadow_css = if sheet.vue_module {
        sheet.vue_shadow_css + pieces_at(pieces, sheet.css_path, 0)
    } else {
        sheet.vue_shadow_css
    };
    if sheet.vue_blocks.len() == 0 {
        Ok(SheetModel { css_source, vue_shadow_css, ..sheet })
    } else {
        match rebased_blocks(prior, sheet.vue_blocks, prior.len() as int) {
            Some(vue_blocks) => Ok(SheetModel { css_source, vue_shadow_css, vue_blocks, ..sheet }),
            None => Err(failed("A Vue style block changed during batch planning"@)),
        }
    }
}

fn copy_current_sheet(known: &Progress, pieces: &Pieces, sheet: &BatchStylesheet) -> (result: Result<
    BatchStylesheet,
    Halt,
>)
    ensures
        match current_sheet(known@, piece_models(pieces@), sheet@) {
            Ok(model) => result matches Ok(sheet) && sheet@ == model,
            Err(model) => result matches Err(halt) && halt@ == model,
        },
{
    let mut copied = sheet.duplicate();
    if sheet.vue_module {
        let more = copy_pieces(pieces, sheet.css_path.as_str());
        push_texts(&mut copied.vue_shadow_css, &more);
    }
    if let Some(source) = find_source(&known.current, sheet.css_path.as_str()) {
        copied.css_source = copy(source.as_str());
    }
    assert(sheet@.vue_blocks.len() == sheet.vue_blocks@.len());
    if sheet.vue_blocks.len() > 0 {
        let prior = find_rounds(&known.applied_edits, sheet.css_path.as_str());
        assert(rounds(prior@).len() == prior@.len());
        match rebase_vue_blocks(&prior, &sheet.vue_blocks) {
            Ok(blocks) => {
                copied.vue_blocks = blocks;
            },
            Err(message) => {
                return Err(fail(message));
            },
        }
    }
    Ok(copied)
}

/// The settings with the Tailwind entry as it is.
pub open spec fn current_settings(known: BatchProgressModel, settings: SettingsModel) -> SettingsModel {
    SettingsModel {
        tailwind_source: match settings.tailwind_path {
            Some(path) => source_at(known.current, path),
            None => None,
        },
        ..settings
    }
}

fn copy_current_settings(known: &Progress, settings: &Settings) -> (result: Settings)
    ensures
        result@ == current_settings(known@, settings@),
{
    let mut copied = settings.duplicate();
    copied.tailwind_source = match &settings.tailwind_path {
        Some(path) => match find_source(&known.current, path.as_str()) {
            Some(source) => Some(copy(source.as_str())),
            None => None,
        },
        None => None,
    };
    copied
}

/// What the snapshot decided.
pub struct Decided<'a> {
    pub proofs: &'a Proofs,
    pub conflicts: &'a Vec<OwnedPairs>,
    pub pieces: &'a Pieces,
}

/// The model of [`Decided`].
pub struct DecidedModel {
    pub proofs: ProofsModel,
    pub conflicts: Seq<OwnedModel>,
    pub pieces: PieceModels,
}

impl<'a> View for Decided<'a> {
    type V = DecidedModel;

    open spec fn view(&self) -> DecidedModel {
        DecidedModel {
            proofs: self.proofs@,
            conflicts: owned_models(self.conflicts@),
            pieces: piece_models(self.pieces@),
        }
    }
}

/// The plan of stylesheet `s` on the files as they are.
pub open spec fn sheet_plan(
    know: KnowledgeModel,
    batch: BatchModel,
    decided: DecidedModel,
    known: BatchProgressModel,
    s: int,
) -> Result<ResponseModel, HaltModel> {
    match current_sheet(known, decided.pieces, batch.stylesheets[s]) {
        Err(halt) => Err(halt),
        Ok(sheet) => planned(
            know,
            RequestModel {
                sheet,
                settings: current_settings(known, batch.settings),
                files: current_files(known, batch.files),
            },
            VerdictsModel {
                conflicts: sheet_conflicts(decided.conflicts, s, decided.conflicts.len() as int),
                blocked: batch.stylesheets[s].blocked_rules,
                unproven: proof_at(decided.proofs.shown, s),
            },
        ),
    }
}

fn plan_sheet<'a>(know: &Knowledge, batch: &BatchPlanRequest, decided: &Decided<'a>, known: &Progress, s: usize) -> (result:
    Result<PlanResponse, Halt>)
    requires
        s < batch.stylesheets@.len(),
    ensures
        match sheet_plan(know@, batch@, decided@, known@, s as int) {
            Ok(model) => result matches Ok(response) && response@ == model,
            Err(model) => result matches Err(halt) && halt@ == model,
        },
{
    let stylesheet = &batch.stylesheets[s];
    assert(batch@.stylesheets[s as int] == stylesheet@);
    let sheet = match copy_current_sheet(known, decided.pieces, stylesheet) {
        Ok(sheet) => sheet,
        Err(halt) => {
            return Err(halt);
        },
    };
    let request = PlanRequest {
        sheet,
        settings: copy_current_settings(known, &batch.settings),
        files: copy_current_files(known, &batch.files),
    };
    let conflicts = collect_sheet_conflicts(decided.conflicts, s);
    assert(decided@.conflicts.len() == decided.conflicts@.len());
    let unproven = copy_proof(&decided.proofs.shown, s);
    let verdicts = Verdicts { conflicts: &conflicts, blocked: &stylesheet.blocked_rules, unproven: &unproven };
    plan_request(know, &request, &verdicts)
}

/// What was done once the first `n` stylesheets of the order are planned.
pub open spec fn batch_progress(
    know: KnowledgeModel,
    batch: BatchModel,
    decided: DecidedModel,
    order: Seq<int>,
    n: int,
) -> Result<BatchProgressModel, HaltModel>
    decreases n,
{
    if n <= 0 {
        Ok(no_progress(originals_of(batch)))
    } else {
        match batch_progress(know, batch, decided, order, n - 1) {
            Err(halt) => Err(halt),
            Ok(known) => match sheet_plan(know, batch, decided, known, order[n - 1]) {
                Err(halt) => Err(halt),
                Ok(response) => Ok(with_response(known, response, order[n - 1] as usize)),
            },
        }
    }
}

proof fn lemma_progress_halt(
    know: KnowledgeModel,
    batch: BatchModel,
    decided: DecidedModel,
    order: Seq<int>,
    k: int,
    n: int,
)
    requires
        0 <= k <= n,
        batch_progress(know, batch, decided, order, k) is Err,
    ensures
        batch_progress(know, batch, decided, order, n) == batch_progress(know, batch, decided, order, k),
    decreases n - k,
{
    if k < n {
        lemma_progress_halt(know, batch, decided, order, k, n - 1);
    }
}

/// Plans the stylesheets in the given order.
fn plan_in_order<'a>(
    know: &Knowledge,
    batch: &BatchPlanRequest,
    decided: &Decided<'a>,
    order: &Vec<usize>,
    start: Progress,
) -> (result: Result<Progress, Halt>)
    requires
        forall|i: int| 0 <= i < order@.len() ==> #[trigger] order@[i] < batch.stylesheets@.len(),
        start@ == no_progress(originals_of(batch@)),
    ensures
        match batch_progress(know@, batch@, decided@, ints(order@), order@.len() as int) {
            Ok(model) => result matches Ok(known) && known@ == model,
            Err(model) => result matches Err(halt) && halt@ == model,
        },
{
    let ghost indices = ints(order@);
    let mut known = start;
    let mut n: usize = 0;
    while n < order.len()
        invariant
            n <= order@.len(),
            indices == ints(order@),
            forall|i: int| 0 <= i < order@.len() ==> #[trigger] order@[i] < batch.stylesheets@.len(),
            batch_progress(know@, batch@, decided@, indices, n as int) == Ok::<BatchProgressModel, HaltModel>(known@),
        decreases order.len() - n,
    {
        let s = order[n];
        assert(indices[n as int] == s);
        match plan_sheet(know, batch, decided, &known, s) {
            Err(halt) => {
                proof {
                    lemma_progress_halt(know@, batch@, decided@, indices, n + 1, order@.len() as int);
                }
                return Err(halt);
            },
            Ok(response) => {
                carry_out(&mut known, &response, s);
            },
        }
        n += 1;
    }
    Ok(known)
}

// ---------------------------------------------------------------------------
// The response
// ---------------------------------------------------------------------------

/// Files compared by their paths.
pub open spec fn by_file_path() -> spec_fn(PlannedModel, PlannedModel) -> bool {
    |a: PlannedModel, b: PlannedModel| precedes(a.path, b.path)
}

/// Those of the first `n` files whose text is no longer the original one, in
/// ascending order of their paths.
pub open spec fn changed_files(
    originals: Seq<(Seq<char>, Seq<char>)>,
    current: Seq<(Seq<char>, Seq<char>)>,
    n: int,
) -> Seq<PlannedModel>
    decreases n,
{
    if n <= 0 {
        seq![]
    } else {
        let before = changed_files(originals, current, n - 1);
        match source_at(originals, current[n - 1].0) {
            Some(original) => if original != current[n - 1].1 {
                placed(before, PlannedModel { path: current[n - 1].0, source: current[n - 1].1 }, by_file_path())
            } else {
                before
            },
            None => before,
        }
    }
}

fn place_file(list: &mut Vec<PlannedFile>, file: PlannedFile)
    ensures
        views(final(list)@) == placed(views(old(list)@), file@, by_file_path()),
{
    let ghost start = views(list@);
    let ghost model = file@;
    let mut k: usize = list.len();
    while k > 0 && is_before(file.path.as_str(), list[k - 1].path.as_str())
        invariant
            k <= list@.len(),
            list@ == old(list)@,
            start == views(list@),
            model == file@,
            forall|j: int| k <= j < list@.len() ==> (by_file_path())(model, #[trigger] start[j]),
        decreases k,
    {
        assert(start[k - 1] == list@[k - 1]@);
        k -= 1;
    }
    proof {
        if k > 0 {
            assert(start[k - 1] == list@[k - 1]@);
        }
        lemma_placed(start, model, by_file_path(), k as int);
    }
    list.insert(k, file);
    assert(views(list@) =~= start.insert(k as int, model));
}

fn collect_changed_files(originals: &Vec<(String, String)>, current: &Vec<(String, String)>) -> (result: Vec<
    PlannedFile,
>)
    ensures
        views(result@) == changed_files(pairs_of(originals@), pairs_of(current@), current@.len() as int),
{
    let mut result: Vec<PlannedFile> = Vec::new();
    assert(views(result@) =~= Seq::empty());
    let mut n: usize = 0;
    while n < current.len()
        invariant
            n <= current@.len(),
            views(result@) == changed_files(pairs_of(originals@), pairs_of(current@), n as int),
        decreases current.len() - n,
    {
        let entry = &current[n];
        assert(pairs_of(current@)[n as int] == (entry.0@, entry.1@));
        if let Some(original) = find_source(originals, entry.0.as_str()) {
            if !same(original.as_str(), entry.1.as_str()) {
                place_file(
                    &mut result,
                    PlannedFile { path: copy(entry.0.as_str()), source: copy(entry.1.as_str()) },
                );
            }
        }
        n += 1;
    }
    result
}

/// Warnings compared by file, place and code.
pub open spec fn by_place() -> spec_fn(WarningModel, WarningModel) -> bool {
    |a: WarningModel, b: WarningModel|
        {
            ||| precedes(a.file, b.file)
            ||| a.file == b.file && a.start < b.start
            ||| a.file == b.file && a.start == b.start && a.end < b.end
            ||| a.file == b.file && a.start == b.start && a.end == b.end && precedes(a.code, b.code)
        }
}

fn is_warning_before(a: &Warning, b: &Warning) -> (result: bool)
    ensures
        result == (by_place())(a@, b@),
{
    if !same(a.file.as_str(), b.file.as_str()) {
        is_before(a.file.as_str(), b.file.as_str())
    } else if is_before(a.file.as_str(), b.file.as_str()) {
        true
    } else if a.start != b.start {
        a.start < b.start
    } else if a.end != b.end {
        a.end < b.end
    } else {
        is_before(a.code.as_str(), b.code.as_str())
    }
}

fn place_warning(list: &mut Vec<Warning>, warning: Warning)
    ensures
        views(final(list)@) == placed(views(old(list)@), warning@, by_place()),
{
    let ghost start = views(list@);
    let ghost model = warning@;
    let mut k: usize = list.len();
    while k > 0 && is_warning_before(&warning, &list[k - 1])
        invariant
            k <= list@.len(),
            list@ == old(list)@,
            start == views(list@),
            model == warning@,
            forall|j: int| k <= j < list@.len() ==> (by_place())(model, #[trigger] start[j]),
        decreases k,
    {
        assert(start[k - 1] == list@[k - 1]@);
        k -= 1;
    }
    proof {
        if k > 0 {
            assert(start[k - 1] == list@[k - 1]@);
        }
        lemma_placed(start, model, by_place(), k as int);
    }
    list.insert(k, warning);
    assert(views(list@) =~= start.insert(k as int, model));
}

fn sort_warnings(warnings: &Vec<Warning>) -> (result: Vec<Warning>)
    ensures
        views(result@) == all_placed(views(warnings@), by_place(), warnings@.len() as int),
{
    let mut result: Vec<Warning> = Vec::new();
    assert(views(result@) =~= Seq::empty());
    let mut n: usize = 0;
    while n < warnings.len()
        invariant
            n <= warnings@.len(),
            views(result@) == all_placed(views(warnings@), by_place(), n as int),
        decreases warnings.len() - n,
    {
        assert(views(warnings@)[n as int] == warnings@[n as int]@);
        place_warning(&mut result, warnings[n].duplicate());
        n += 1;
    }
    result
}

/// What the batch answers once every stylesheet is planned.
pub open spec fn batch_response(batch: BatchModel, known: BatchProgressModel) -> ResponseModel {
    ResponseModel {
        files: changed_files(originals_of(batch), known.current, known.current.len() as int),
        deleted_files: known.deleted,
        unlinked_files: known.unlinked,
        candidates: known.candidates,
        converted_rules: known.converted_rules,
        retained_rules: known.retained_rules,
        rules: known.rules,
        warnings: all_placed(known.warnings, by_place(), known.warnings.len() as int),
        applied_edits: known.applied_edits,
    }
}

// ---------------------------------------------------------------------------
// The batch
// ---------------------------------------------------------------------------

/// A batch without a stylesheet is no request.
pub open spec fn no_stylesheet() -> ErrorModel {
    ErrorModel { kind: ErrorKind::InvalidRequest, message: "Batch migration requires at least one stylesheet"@ }
}

/// What becomes of a batch, given the relationship proofs on its snapshot.
pub open spec fn planned_batch(
    know: KnowledgeModel,
    batch: BatchModel,
    proofs: ProofsModel,
) -> Result<ResponseModel, HaltModel> {
    if batch.stylesheets.len() == 0 {
        Err(HaltModel::Failed(no_stylesheet()))
    } else {
        match batch_conflicts(know, batch, proofs) {
            Err(halt) => Err(halt),
            Ok(conflicts) => match co_located(know, batch, proofs, conflicts, batch.stylesheets.len() as int) {
                Err(halt) => Err(halt),
                Ok(pieces) => {
                    let order = sheet_order(batch.stylesheets);
                    match batch_progress(
                        know,
                        batch,
                        DecidedModel { proofs, conflicts, pieces },
                        order,
                        order.len() as int,
                    ) {
                        Err(halt) => Err(halt),
                        Ok(known) => Ok(batch_response(batch, known)),
                    }
                },
            },
        }
    }
}

/// Plans a batch, given the relationship proofs on its snapshot.
pub fn plan_proven_batch(
    know: &Knowledge,
    batch: &BatchPlanRequest,
    proofs: &Proofs,
) -> (result: Result<PlanResponse, Halt>)
    ensures
        match planned_batch(know@, batch@, proofs@) {
            Ok(model) => result matches Ok(response) && response@ == model,
            Err(model) => result matches Err(halt) && halt@ == model,
        },
{
    assert(batch@.stylesheets.len() == batch.stylesheets@.len());
    if batch.stylesheets.len() == 0 {
        return Err(
            Halt::Failed(
                MigrationError::new(
                    ErrorKind::InvalidRequest,
                    "Batch migration requires at least one stylesheet".to_owned(),
                ),
            ),
        );
    }
    let conflicts = match find_batch_conflicts(know, batch, proofs) {
        Ok(conflicts) => conflicts,
        Err(halt) => {
            return Err(halt);
        },
    };
    let pieces = match find_co_located(know, batch, proofs, &conflicts) {
        Ok(pieces) => pieces,
        Err(halt) => {
            return Err(halt);
        },
    };
    let decided = Decided { proofs, conflicts: &conflicts, pieces: &pieces };
    let order = order_sheets(&batch.stylesheets);
    let originals = collect_originals(batch);
    let start = start_progress(crate::request::copy_pairs(&originals));
    let known = match plan_in_order(know, batch, &decided, &order, start) {
        Ok(known) => known,
        Err(halt) => {
            return Err(halt);
        },
    };
    assert(known@.current.len() == known.current@.len());
    assert(known@.warnings.len() == known.warnings@.len());
    let files = collect_changed_files(&originals, &known.current);
    let warnings = sort_warnings(&known.warnings);
    Ok(
        PlanResponse {
            files,
            deleted_files: known.deleted,
            unlinked_files: known.unlinked,
            candidates: known.candidates,
            converted_rules: known.converted_rules,
            retained_rules: known.retained_rules,
            rules: known.rules,
            warnings,
            applied_edits: known.applied_edits,
        },
    )
}

/// The response is that of the batch under some proofs that hold of its
/// snapshot.
pub open spec fn answers(
    know: KnowledgeModel,
    batch: BatchModel,
    proofs: ProofsModel,
    result: Result<ResponseModel, HaltModel>,
) -> bool {
    &&& proofs_of(know, batch, proofs)
    &&& result == planned_batch(know, batch, proofs)
}

pub open spec fn response_model(result: Result<PlanResponse, Halt>) -> Result<ResponseModel, HaltModel> {
    match result {
        Ok(response) => Ok(response@),
        Err(halt) => Err(halt@),
    }
}

/// Plans a batch.
pub fn plan_batch(know: &Knowledge, batch: &BatchPlanRequest) -> (result: Result<
    PlanResponse,
    Halt,
>)
    ensures
        batch.stylesheets@.len() == 0 ==> response_model(result) == Err::<ResponseModel, HaltModel>(
            HaltModel::Failed(no_stylesheet()),
        ),
        exists|proofs: ProofsModel| #[trigger]
            answers(know@, batch@, proofs, response_model(result)),
{
    let proofs = prove_batch(know, batch);
    let result = plan_proven_batch(know, batch, &proofs);
    assert(answers(know@, batch@, proofs@, response_model(result)));
    assert(batch@.stylesheets.len() == batch.stylesheets@.len());
    result
}

// ---------------------------------------------------------------------------
// Laws
// ---------------------------------------------------------------------------

/// Every stylesheet of a batch is planned, and none twice.
pub proof fn every_stylesheet_is_planned_once(sheets: Seq<SheetModel>)
    ensures
        sheet_order(sheets).len() == sheets.len(),
        forall|s: int| 0 <= s < sheets.len() ==> #[trigger] sheet_order(sheets).contains(s),
        forall|i: int, j: int|
            0 <= i < j < sheet_order(sheets).len() ==> #[trigger] sheet_order(sheets)[i] != #[trigger] sheet_order(
                sheets,
            )[j],
{
    let count = sheets.len() as int;
    lemma_order(sheets, count);
    assert forall|s: int| 0 <= s < sheets.len() implies #[trigger] sheet_order(sheets).contains(s) by {
        assert(numbers(count)[s] == s);
        assert(all_placed(numbers(count), by_path(sheets), count).contains(s));
    }
}

proof fn lemma_order(sheets: Seq<SheetModel>, n: int)
    requires
        0 <= n <= sheets.len(),
    ensures
        all_placed(numbers(sheets.len() as int), by_path(sheets), n).len() == n,
        forall|s: int|
            #[trigger] all_placed(numbers(sheets.len() as int), by_path(sheets), n).contains(s) <==> 0 <= s < n,
        all_placed(numbers(sheets.len() as int), by_path(sheets), n).no_duplicates(),
    decreases n,
{
    let listed = numbers(sheets.len() as int);
    if n > 0 {
        lemma_order(sheets, n - 1);
        let before = all_placed(listed, by_path(sheets), n - 1);
        assert(listed[n - 1] == n - 1);
        assert(!before.contains(n - 1));
        lemma_placed_once(before, n - 1, by_path(sheets));
    } else {
        assert forall|s: int| !(#[trigger] Seq::<int>::empty().contains(s)) by {}
    }
}

proof fn lemma_placed_once(list: Seq<int>, item: int, before: spec_fn(int, int) -> bool)
    requires
        list.no_duplicates(),
        !list.contains(item),
    ensures
        placed(list, item, before).len() == list.len() + 1,
        placed(list, item, before).no_duplicates(),
        forall|x: int| #[trigger] placed(list, item, before).contains(x) <==> x == item || list.contains(x),
    decreases list.len(),
{
    let result = placed(list, item, before);
    if list.len() == 0 || !before(item, list.last()) {
        assert(result =~= list.push(item));
        assert forall|x: int| #[trigger] result.contains(x) <==> x == item || list.contains(x) by {
            if x == item {
                assert(result[list.len() as int] == x);
            }
            if list.contains(x) {
                let k = choose|k: int| 0 <= k < list.len() && list[k] == x;
                assert(result[k] == x);
            }
        }
    } else {
        let rest = list.drop_last();
        assert(!rest.contains(item)) by {
            if rest.contains(item) {
                let k = choose|k: int| 0 <= k < rest.len() && rest[k] == item;
                assert(list[k] == item);
            }
        }
        lemma_placed_once(rest, item, before);
        let inner = placed(rest, item, before);
        assert(!inner.contains(list.last())) by {
            assert(list[list.len() - 1] == list.last());
            assert(list.contains(list.last()));
            if rest.contains(list.last()) {
                let k = choose|k: int| 0 <= k < rest.len() && rest[k] == list.last();
                assert(list[k] == list[list.len() - 1]);
            }
        }
        assert forall|x: int| #[trigger] result.contains(x) <==> x == item || list.contains(x) by {
            if result.contains(x) {
                let k = choose|k: int| 0 <= k < result.len() && result[k] == x;
                if k < inner.len() {
                    assert(inner[k] == x);
                    assert(inner.contains(x));
                    if rest.contains(x) {
                        let m = choose|m: int| 0 <= m < rest.len() && rest[m] == x;
                        assert(list[m] == x);
                    }
                } else {
                    assert(list[list.len() - 1] == x);
                }
            }
            if x == item || list.contains(x) {
                if list.contains(x) && x != list.last() {
                    let m = choose|m: int| 0 <= m < list.len() && list[m] == x;
                    assert(rest[m] == x);
                }
                if inner.contains(x) {
                    let k = choose|k: int| 0 <= k < inner.len() && inner[k] == x;
                    assert(result[k] == x);
                } else {
                    assert(result[inner.len() as int] == x);
                }
            }
        }
        assert forall|i: int, j: int| 0 <= i < result.len() && 0 <= j < result.len() && i != j implies result[i]
            != result[j] by {
            if i < inner.len() && j < inner.len() {
                assert(inner[i] != inner[j]);
            } else if i < inner.len() {
                assert(inner.contains(inner[i]));
            } else {
                assert(inner.contains(inner[j]));
            }
        }
    }
}

/// What holds of a batch all along: each path has one text, deleted paths
/// stand in order, and a deleted path has no text.
pub open spec fn sound(known: BatchProgressModel) -> bool {
    &&& one_each(known.current)
    &&& ascending(known.deleted)
    &&& forall|path: Seq<char>| #[trigger] known.deleted.contains(path) ==> !lists(known.current, path)
}

proof fn lemma_originals(batch: BatchModel)
    ensures
        one_each(originals_of(batch)),
{
    lemma_sheet_sources(batch, batch.stylesheets.len() as int);
    let list = sheet_sources(batch, batch.stylesheets.len() as int);
    match (batch.settings.tailwind_path, batch.settings.tailwind_source) {
        (Some(path), Some(source)) => {
            lemma_with_source(list, path, source);
        },
        _ => {},
    }
}

proof fn lemma_file_sources(files: Seq<FileModel>, n: int)
    ensures
        one_each(file_sources(files, n)),
    decreases n,
{
    if n > 0 {
        lemma_file_sources(files, n - 1);
        lemma_with_source(file_sources(files, n - 1), files[n - 1].path, files[n - 1].source);
    }
}

proof fn lemma_sheet_sources(batch: BatchModel, n: int)
    ensures
        one_each(sheet_sources(batch, n)),
    decreases n,
{
    if n > 0 {
        lemma_sheet_sources(batch, n - 1);
        lemma_with_source(
            sheet_sources(batch, n - 1),
            batch.stylesheets[n - 1].css_path,
            batch.stylesheets[n - 1].css_source,
        );
    } else {
        lemma_file_sources(batch.files, batch.files.len() as int);
    }
}

proof fn lemma_without_name(list: Seq<Seq<char>>, name: Seq<char>, n: int)
    requires
        0 <= n <= list.len(),
        ascending(list),
    ensures
        ascending(without_name(list, name, n)),
        forall|x: Seq<char>|
            #[trigger] without_name(list, name, n).contains(x) ==> x != name && exists|i: int|
                0 <= i < n && #[trigger] list[i] == x,
    decreases n,
{
    let result = without_name(list, name, n);
    if n > 0 {
        lemma_without_name(list, name, n - 1);
        let before = without_name(list, name, n - 1);
        assert forall|x: Seq<char>| #[trigger] result.contains(x) implies x != name && exists|i: int|
            0 <= i < n && #[trigger] list[i] == x by {
            let k = choose|k: int| 0 <= k < result.len() && result[k] == x;
            if k < before.len() {
                assert(before[k] == x);
                assert(before.contains(x));
            } else {
                assert(list[n - 1] == x);
            }
        }
        assert forall|i: int, j: int| 0 <= i < j < result.len() implies precedes(
            #[trigger] result[i],
            #[trigger] result[j],
        ) by {
            assert(before[i] == result[i]);
            if j < before.len() {
                assert(before[j] == result[j]);
            } else {
                assert(before.contains(before[i]));
                let k = choose|k: int| 0 <= k < n - 1 && #[trigger] list[k] == before[i];
                assert(precedes(list[k], list[n - 1]));
            }
        }
    }
}

proof fn lemma_files_sound(known: BatchProgressModel, files: Seq<PlannedModel>, n: int)
    requires
        sound(known),
    ensures
        sound(with_files(known, files, n)),
    decreases n,
{
    if n > 0 {
        lemma_files_sound(known, files, n - 1);
        let before = with_files(known, files, n - 1);
        let after = with_files(known, files, n);
        let path = files[n - 1].path;
        lemma_with_source(before.current, path, files[n - 1].source);
        lemma_without_name(before.deleted, path, before.deleted.len() as int);
        assert forall|other: Seq<char>| #[trigger] after.deleted.contains(other) implies !lists(
            after.current,
            other,
        ) by {
            let k = choose|k: int| 0 <= k < before.deleted.len() && #[trigger] before.deleted[k] == other;
            assert(before.deleted.contains(other));
            assert(lists(with_source(before.current, path, files[n - 1].source), other) <==> other == path || lists(
                before.current,
                other,
            ));
        }
    }
}

proof fn lemma_deletions_sound(known: BatchProgressModel, paths: Seq<Seq<char>>, n: int)
    requires
        sound(known),
    ensures
        sound(with_deletions(known, paths, n)),
    decreases n,
{
    if n > 0 {
        lemma_deletions_sound(known, paths, n - 1);
        let before = with_deletions(known, paths, n - 1);
        let after = with_deletions(known, paths, n);
        lemma_without_source(before.current, paths[n - 1], before.current.len() as int);
        naming_keeps_the_order(before.deleted, paths[n - 1]);
        assert forall|other: Seq<char>| #[trigger] after.deleted.contains(other) implies !lists(
            after.current,
            other,
        ) by {
            assert(with_name(before.deleted, paths[n - 1]).contains(other));
            if lists(after.current, other) {
                let k = choose|k: int| 0 <= k < before.current.len() && (#[trigger] before.current[k]).0 == other;
                assert(lists(before.current, other));
            }
        }
    }
}

proof fn lemma_progress_sound(
    know: KnowledgeModel,
    batch: BatchModel,
    decided: DecidedModel,
    order: Seq<int>,
    n: int,
)
    ensures
        batch_progress(know, batch, decided, order, n) matches Ok(known) ==> sound(known),
    decreases n,
{
    if n > 0 {
        lemma_progress_sound(know, batch, decided, order, n - 1);
        if let Ok(known) = batch_progress(know, batch, decided, order, n - 1) {
            if let Ok(response) = sheet_plan(know, batch, decided, known, order[n - 1]) {
                let applied = BatchProgressModel {
                    applied_edits: with_applied(
                        known.applied_edits,
                        response.applied_edits,
                        response.applied_edits.len() as int,
                    ),
                    ..known
                };
                lemma_files_sound(applied, response.files, response.files.len() as int);
                lemma_deletions_sound(
                    with_files(applied, response.files, response.files.len() as int),
                    response.deleted_files,
                    response.deleted_files.len() as int,
                );
            }
        }
    } else {
        lemma_originals(batch);
    }
}

proof fn lemma_changed(
    originals: Seq<(Seq<char>, Seq<char>)>,
    current: Seq<(Seq<char>, Seq<char>)>,
    n: int,
)
    requires
        0 <= n <= current.len(),
    ensures
        forall|file: PlannedModel|
            #[trigger] changed_files(originals, current, n).contains(file) ==> lists(current, file.path)
                && source_at(originals, file.path) is Some && source_at(originals, file.path) != Some(file.source),
    decreases n,
{
    if n > 0 {
        lemma_changed(originals, current, n - 1);
        let before = changed_files(originals, current, n - 1);
        let item = PlannedModel { path: current[n - 1].0, source: current[n - 1].1 };
        lemma_placed_members(before, item, by_file_path());
        assert(current[n - 1].0 == item.path);
        assert(lists(current, item.path));
    }
}

/// A batch writes only files that it was given and that change, and a path is
/// never both written and deleted.
pub proof fn a_batch_writes_what_changes(
    know: KnowledgeModel,
    batch: BatchModel,
    proofs: ProofsModel,
)
    ensures
        planned_batch(know, batch, proofs) matches Ok(response) ==> {
            forall|file: PlannedModel| #[trigger]
                response.files.contains(file) ==> {
                    &&& source_at(originals_of(batch), file.path) matches Some(original) && original != file.source
                    &&& !response.deleted_files.contains(file.path)
                }
        },
{
    if let Ok(response) = planned_batch(know, batch, proofs) {
        let conflicts = batch_conflicts(know, batch, proofs)->Ok_0;
        let pieces = co_located(know, batch, proofs, conflicts, batch.stylesheets.len() as int)->Ok_0;
        let decided = DecidedModel { proofs, conflicts, pieces };
        let order = sheet_order(batch.stylesheets);
        lemma_progress_sound(know, batch, decided, order, order.len() as int);
        let known = batch_progress(know, batch, decided, order, order.len() as int)->Ok_0;
        lemma_changed(originals_of(batch), known.current, known.current.len() as int);
        assert forall|file: PlannedModel| #[trigger] response.files.contains(file) implies {
            &&& source_at(originals_of(batch), file.path) matches Some(original) && original != file.source
            &&& !response.deleted_files.contains(file.path)
        } by {
            assert(changed_files(originals_of(batch), known.current, known.current.len() as int).contains(file));
            if response.deleted_files.contains(file.path) {
                assert(known.deleted.contains(file.path));
            }
        }
    }
}

} // verus!
