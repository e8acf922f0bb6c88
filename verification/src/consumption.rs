//! What the files that use a stylesheet come to.
use crate::consumer::{consumer_plan, plan_consumer_file, Offer, OfferModel};
use crate::css::{Halt, HaltModel};
use crate::names::{insert_names, with_names, References};
use crate::plan::{PlanModel, SourcePlan, Warning, WarningModel};
use crate::position::{mentioned, mentions_word};
use crate::request::{is_module_sheet, sheet_is_module, BatchStylesheet, SheetModel};
use crate::rules::{RuleModel, RulePlan};
use crate::source::{FileModel, SourceFile};
use crate::text::{same, texts, views};
use vstd::prelude::*;

verus! {

/// How a file links a stylesheet.
#[derive(Clone, Copy, PartialEq, Eq, Structural, Debug)]
pub enum Link {
    /// In any way.
    Any,
    /// Directly.
    Direct,
    /// Directly, and in a way that cannot be analyzed.
    Opaque,
}

/// Some link of the file to the stylesheet is of this kind.
pub open spec fn linked(file: FileModel, css_path: Seq<char>, link: Link) -> bool {
    exists|i: int|
        0 <= i < file.html_stylesheets.len() && (#[trigger] file.html_stylesheets[i]).css_path == css_path
            && match link {
            Link::Any => true,
            Link::Direct => file.html_stylesheets[i].direct,
            Link::Opaque => file.html_stylesheets[i].direct && !file.html_stylesheets[i].analyzable,
        }
}

fn is_linked(file: &SourceFile, css_path: &str, link: Link) -> (result: bool)
    ensures
        result == linked(file@, css_path@, link),
{
    let mut i: usize = 0;
    while i < file.html_stylesheets.len()
        invariant
            i <= file.html_stylesheets@.len(),
            forall|j: int|
                0 <= j < i ==> !((#[trigger] file@.html_stylesheets[j]).css_path == css_path@ && match link {
                    Link::Any => true,
                    Link::Direct => file@.html_stylesheets[j].direct,
                    Link::Opaque => file@.html_stylesheets[j].direct && !file@.html_stylesheets[j].analyzable,
                }),
        decreases file.html_stylesheets.len() - i,
    {
        let context = &file.html_stylesheets[i];
        assert(file@.html_stylesheets[i as int] == context@);
        let fits = match link {
            Link::Any => true,
            Link::Direct => context.direct,
            Link::Opaque => context.direct && !context.analyzable,
        };
        if same(context.css_path.as_str(), css_path) && fits {
            return true;
        }
        i += 1;
    }
    false
}

/// The script names one of the classes.
pub open spec fn script_names(script: Seq<char>, classes: Seq<Seq<char>>) -> bool {
    exists|i: int| 0 <= i < classes.len() && mentioned(script, #[trigger] classes[i])
}

/// The script names a class of the rules.
pub open spec fn script_names_rules(script: Seq<char>, rules: Seq<RuleModel>) -> bool {
    exists|i: int| 0 <= i < rules.len() && script_names(script, (#[trigger] rules[i]).related_classes)
}

fn does_script_name(script: &str, classes: &Vec<String>) -> (result: bool)
    ensures
        result == script_names(script@, texts(classes@)),
{
    let mut i: usize = 0;
    while i < classes.len()
        invariant
            i <= classes@.len(),
            forall|j: int| 0 <= j < i ==> !mentioned(script@, #[trigger] texts(classes@)[j]),
        decreases classes.len() - i,
    {
        assert(texts(classes@)[i as int] == classes@[i as int]@);
        if mentions_word(script, classes[i].as_str()) {
            assert(mentioned(script@, texts(classes@)[i as int]));
            return true;
        }
        i += 1;
    }
    false
}

fn does_script_name_rules(script: &str, rules: &Vec<RulePlan>) -> (result: bool)
    ensures
        result == script_names_rules(script@, views(rules@)),
{
    let mut i: usize = 0;
    while i < rules.len()
        invariant
            i <= rules@.len(),
            forall|j: int| 0 <= j < i ==> !script_names(script@, (#[trigger] views(rules@)[j]).related_classes),
        decreases rules.len() - i,
    {
        assert(views(rules@)[i as int] == rules@[i as int]@);
        if does_script_name(script, &rules[i].related_classes) {
            assert(script_names(script@, views(rules@)[i as int].related_classes));
            return true;
        }
        i += 1;
    }
    false
}

// ---------------------------------------------------------------------------
// One file
// ---------------------------------------------------------------------------

/// What the files so far have come to.
pub struct ConsumedModel {
    /// Every reference to the CSS Module is known.
    pub safe: bool,
    /// The candidates written, in ascending order.
    pub candidates: Seq<Seq<char>>,
    pub module_refs: Seq<Seq<char>>,
    pub matched_module_refs: Seq<Seq<char>>,
    pub warnings: Seq<WarningModel>,
    /// The plan of each file.
    pub plans: Seq<PlanModel>,
}

/// What the files so far have come to.
pub struct Consumed {
    pub safe: bool,
    pub candidates: Vec<String>,
    pub module_refs: References,
    pub matched_module_refs: References,
    pub warnings: Vec<Warning>,
    pub plans: Vec<SourcePlan>,
}

impl View for Consumed {
    type V = ConsumedModel;

    open spec fn view(&self) -> ConsumedModel {
        ConsumedModel {
            safe: self.safe,
            candidates: texts(self.candidates@),
            module_refs: self.module_refs@,
            matched_module_refs: self.matched_module_refs@,
            warnings: views(self.warnings@),
            plans: views(self.plans@),
        }
    }
}

/// A warning about a whole file.
pub open spec fn file_warning(code: Seq<char>, file: Seq<char>, message: Seq<char>) -> WarningModel {
    WarningModel { code, file, start: 0, end: 0, message }
}

/// The file links the CSS Module in a way that hides references.
pub open spec fn hides_references(sheet: SheetModel, file: FileModel) -> bool {
    sheet_is_module(sheet) && !sheet.vue_module && (linked(file, sheet.css_path, Link::Opaque) || (linked(
        file,
        sheet.css_path,
        Link::Direct,
    ) && !file.html_references_safe))
}

/// Inline scripts are never analyzed, so a script that names one of the
/// module's classes may create consumers at runtime.
pub open spec fn script_may_refer(sheet: SheetModel, rules: Seq<RuleModel>, file: FileModel) -> bool {
    sheet_is_module(sheet) && !sheet.vue_module && linked(file, sheet.css_path, Link::Any)
        && file.html_script_text.len() > 0 && script_names_rules(file.html_script_text, rules)
}

/// The file is there only to be read, and uses the CSS Module.
pub open spec fn refers_only(sheet: SheetModel, file: FileModel, plan: PlanModel) -> bool {
    sheet_is_module(sheet) && !file.writable && (linked(file, sheet.css_path, Link::Direct) || plan.module_refs.len()
        > 0 || plan.removable_import_edits.len() > 0)
}

/// What is left of a plan for a file that is there only to be read.
pub open spec fn writable_plan(file: FileModel, plan: PlanModel) -> PlanModel {
    if file.writable {
        plan
    } else {
        PlanModel {
            edits: seq![],
            removable_import_edits: seq![],
            candidates: seq![],
            matched_module_refs: seq![],
            ..plan
        }
    }
}

/// The warnings of a file.
pub open spec fn consumer_warnings(
    sheet: SheetModel,
    rules: Seq<RuleModel>,
    file: FileModel,
    plan: PlanModel,
) -> Seq<WarningModel> {
    (if script_may_refer(sheet, rules, file) {
        seq![
            file_warning(
                "unproven-script-reference"@,
                file.path,
                "An inline script names a CSS Module class, so the module is retained."@,
            ),
        ]
    } else {
        seq![]
    }) + (if refers_only(sheet, file, plan) {
        seq![
            file_warning(
                "reference-only-css-module-consumer"@,
                file.path,
                "A reference-only source uses this CSS Module, so it is retained."@,
            ),
        ]
    } else {
        seq![]
    }) + plan.warnings
}

/// What one more file adds.
pub open spec fn with_consumer(
    sheet: SheetModel,
    rules: Seq<RuleModel>,
    known: ConsumedModel,
    file: FileModel,
    plan: PlanModel,
) -> ConsumedModel {
    let kept = writable_plan(file, plan);
    ConsumedModel {
        safe: known.safe && plan.module_references_safe && !hides_references(sheet, file) && !script_may_refer(
            sheet,
            rules,
            file,
        ) && !refers_only(sheet, file, plan),
        candidates: with_names(known.candidates, kept.candidates),
        module_refs: known.module_refs + kept.module_refs,
        matched_module_refs: known.matched_module_refs + kept.matched_module_refs,
        warnings: known.warnings + consumer_warnings(sheet, rules, file, plan),
        plans: known.plans.push(kept),
    }
}

fn push_warning(list: &mut Vec<Warning>, warning: Warning)
    ensures
        views(final(list)@) == views(old(list)@).push(warning@),
{
    let ghost before = list@;
    let ghost model = warning@;
    list.push(warning);
    assert(views(list@) =~= views(before).push(model));
}

fn clear_plan(plan: &mut SourcePlan)
    ensures
        final(plan)@ == (PlanModel {
            edits: seq![],
            removable_import_edits: seq![],
            candidates: seq![],
            matched_module_refs: seq![],
            ..old(plan)@
        }),
{
    plan.edits = Vec::new();
    plan.removable_import_edits = Vec::new();
    plan.candidates = Vec::new();
    plan.matched_module_refs = References::new();
    assert(views(plan.edits@) =~= Seq::empty());
    assert(views(plan.removable_import_edits@) =~= Seq::empty());
    assert(texts(plan.candidates@) =~= Seq::empty());
}

fn note_consumer(
    sheet: &BatchStylesheet,
    rules: &Vec<RulePlan>,
    known: &mut Consumed,
    file: &SourceFile,
    plan: SourcePlan,
)
    ensures
        final(known)@ == with_consumer(sheet@, views(rules@), old(known)@, file@, plan@),
{
    let ghost start = known@;
    let ghost model = plan@;
    let css_path = sheet.css_path.as_str();
    let is_module = is_module_sheet(sheet);
    let direct = is_linked(file, css_path, Link::Direct);
    if !plan.module_references_safe {
        known.safe = false;
    }
    if is_module && !sheet.vue_module && (is_linked(file, css_path, Link::Opaque) || (direct
        && !file.html_references_safe)) {
        known.safe = false;
    }
    let named = is_module && !sheet.vue_module && is_linked(file, css_path, Link::Any)
        && !file.html_script_text.as_str().is_empty() && does_script_name_rules(file.html_script_text.as_str(), rules);
    if named {
        known.safe = false;
        push_warning(
            &mut known.warnings,
            Warning::new(
                "unproven-script-reference",
                file.path.as_str(),
                (0, 0),
                "An inline script names a CSS Module class, so the module is retained.".to_owned(),
            ),
        );
    }
    let mut plan = plan;
    assert(plan@.module_refs.len() == plan.module_refs.names@.len());
    assert(plan@.removable_import_edits.len() == plan.removable_import_edits@.len());
    let reading = is_module && !file.writable && (direct || !plan.module_refs.is_empty()
        || plan.removable_import_edits.len() > 0);
    if reading {
        known.safe = false;
        push_warning(
            &mut known.warnings,
            Warning::new(
                "reference-only-css-module-consumer",
                file.path.as_str(),
                (0, 0),
                "A reference-only source uses this CSS Module, so it is retained.".to_owned(),
            ),
        );
    }
    if !file.writable {
        clear_plan(&mut plan);
    }
    insert_names(&mut known.candidates, &plan.candidates);
    known.module_refs.extend(&plan.module_refs);
    known.matched_module_refs.extend(&plan.matched_module_refs);
    crate::duplicate::append_copies(&mut known.warnings, &plan.warnings);
    assert(known@.warnings =~= start.warnings + consumer_warnings(sheet@, views(rules@), file@, model));
    let ghost before = known.plans@;
    let ghost kept = plan@;
    known.plans.push(plan);
    assert(views(known.plans@) =~= views(before).push(kept));
}

// ---------------------------------------------------------------------------
// All files
// ---------------------------------------------------------------------------

/// The warnings about the first `n` stylesheets that depend on the module.
pub open spec fn dependent_warnings(dependents: Seq<Seq<char>>, n: int) -> Seq<WarningModel>
    decreases n,
{
    if n <= 0 {
        seq![]
    } else {
        dependent_warnings(dependents, n - 1).push(
            file_warning(
                "unsupported-css-module-reference"@,
                dependents[n - 1],
                "Another stylesheet references the CSS Module, so it is retained."@,
            ),
        )
    }
}

/// Nothing consumed yet. A stylesheet that depends on the module would break
/// if the module went.
pub open spec fn unconsumed(sheet: SheetModel) -> ConsumedModel {
    let bound = sheet_is_module(sheet) && sheet.css_dependents.len() > 0;
    ConsumedModel {
        safe: !bound,
        candidates: seq![],
        module_refs: seq![],
        matched_module_refs: seq![],
        warnings: if bound {
            dependent_warnings(sheet.css_dependents, sheet.css_dependents.len() as int)
        } else {
            seq![]
        },
        plans: seq![],
    }
}

/// What the first `n` files come to.
pub open spec fn consumed(offer: OfferModel, rules: Seq<RuleModel>, files: Seq<FileModel>, n: int) -> Result<
    ConsumedModel,
    HaltModel,
>
    decreases n,
{
    if n <= 0 {
        Ok(unconsumed(offer.sheet))
    } else {
        match consumed(offer, rules, files, n - 1) {
            Err(halt) => Err(halt),
            Ok(known) => match consumer_plan(files[n - 1], offer) {
                Err(error) => Err(HaltModel::Failed(error)),
                Ok(plan) => Ok(with_consumer(offer.sheet, rules, known, files[n - 1], plan)),
            },
        }
    }
}

proof fn lemma_consumed_halt(offer: OfferModel, rules: Seq<RuleModel>, files: Seq<FileModel>, k: int, n: int)
    requires
        0 <= k <= n,
        consumed(offer, rules, files, k) is Err,
    ensures
        consumed(offer, rules, files, n) == consumed(offer, rules, files, k),
    decreases n - k,
{
    if k < n {
        lemma_consumed_halt(offer, rules, files, k, n - 1);
    }
}

fn warn_of_dependents(dependents: &Vec<String>) -> (result: Vec<Warning>)
    ensures
        views(result@) == dependent_warnings(texts(dependents@), dependents@.len() as int),
{
    let mut result: Vec<Warning> = Vec::new();
    assert(views(result@) =~= Seq::empty());
    let mut n: usize = 0;
    while n < dependents.len()
        invariant
            n <= dependents@.len(),
            views(result@) == dependent_warnings(texts(dependents@), n as int),
        decreases dependents.len() - n,
    {
        assert(texts(dependents@)[n as int] == dependents@[n as int]@);
        push_warning(
            &mut result,
            Warning::new(
                "unsupported-css-module-reference",
                dependents[n].as_str(),
                (0, 0),
                "Another stylesheet references the CSS Module, so it is retained.".to_owned(),
            ),
        );
        n += 1;
    }
    result
}

fn start_consuming(sheet: &BatchStylesheet) -> (result: Consumed)
    ensures
        result@ == unconsumed(sheet@),
{
    assert(sheet@.css_dependents.len() == sheet.css_dependents@.len());
    let bound = is_module_sheet(sheet) && sheet.css_dependents.len() > 0;
    let result = Consumed {
        safe: !bound,
        candidates: Vec::new(),
        module_refs: References::new(),
        matched_module_refs: References::new(),
        warnings: if bound {
            warn_of_dependents(&sheet.css_dependents)
        } else {
            let none: Vec<Warning> = Vec::new();
            assert(views(none@) =~= Seq::empty());
            none
        },
        plans: Vec::new(),
    };
    assert(result@.candidates =~= Seq::empty());
    assert(result@.plans =~= Seq::empty());
    result
}

/// What the files come to.
pub fn consume<'a>(offer: &Offer<'a>, rules: &Vec<RulePlan>, files: &Vec<SourceFile>) -> (result: Result<Consumed, Halt>)
    ensures
        match consumed(offer@, views(rules@), views(files@), files@.len() as int) {
            Ok(model) => result matches Ok(known) && known@ == model,
            Err(model) => result matches Err(halt) && halt@ == model,
        },
        result matches Ok(known) ==> known.plans@.len() == files@.len(),
{
    let mut known = start_consuming(offer.sheet);
    assert(known@.plans.len() == known.plans@.len());
    let mut n: usize = 0;
    while n < files.len()
        invariant
            n <= files@.len(),
            known.plans@.len() == n,
            consumed(offer@, views(rules@), views(files@), n as int) == Ok::<ConsumedModel, HaltModel>(known@),
        decreases files.len() - n,
    {
        assert(views(files@)[n as int] == files@[n as int]@);
        match plan_consumer_file(&files[n], offer) {
            Err(error) => {
                proof {
                    lemma_consumed_halt(offer@, views(rules@), views(files@), n + 1, files@.len() as int);
                }
                return Err(Halt::Failed(error));
            },
            Ok(plan) => {
                let ghost before = known@;
                note_consumer(offer.sheet, rules, &mut known, &files[n], plan);
                assert(known@.plans.len() == before.plans.len() + 1);
                assert(known@.plans.len() == known.plans@.len());
            },
        }
        n += 1;
    }
    Ok(known)
}

} // verus!
