//! How each kind of file consumes each kind of stylesheet.
use crate::duplicate::{duplicate_all, Duplicate};
use crate::errors::{ErrorModel, MigrationError};
use crate::html_rewrite::{html_plan, plan_html_file, plan_vue_module_file, vue_module_plan};
use crate::js_rewrite::{opaque_plan, opaque_reference_plan, parsed_plan, plan_batch_source_file, plan_result};
use crate::names::References;
use crate::path::{extension, has_extension};
use crate::plan::{empty_source_plan, no_plan, CandidateMatch, Candidates, Conflicts, PlanModel, SourcePlan, Warning};
use crate::request::{is_module_sheet, is_vue_path, sheet_is_module, vue_path, BatchStylesheet, SheetModel};
use crate::selector::KeyModel;
use crate::source::{contexts_of, FileModel, SourceFile};
use crate::syntax::module_at;
use crate::text::{copy_texts, maybe, texts};
use vstd::prelude::*;

verus! {

impl Duplicate for Warning {
    fn duplicate(&self) -> (result: Self) {
        Warning {
            code: self.code.clone(),
            file: self.file.clone(),
            start: self.start,
            end: self.end,
            message: self.message.clone(),
        }
    }
}

impl Duplicate for CandidateMatch {
    fn duplicate(&self) -> (result: Self) {
        CandidateMatch {
            start: self.start,
            end: self.end,
            element_start: self.element_start,
            key: self.key.copy(),
            candidate: self.candidate.clone(),
            origin_candidate: self.origin_candidate.clone(),
        }
    }
}

impl Duplicate for References {
    fn duplicate(&self) -> (result: Self) {
        References { names: copy_texts(&self.names) }
    }
}

impl Duplicate for SourcePlan {
    fn duplicate(&self) -> (result: Self) {
        SourcePlan {
            edits: duplicate_all(&self.edits),
            removable_import_edits: duplicate_all(&self.removable_import_edits),
            candidates: copy_texts(&self.candidates),
            matches: duplicate_all(&self.matches),
            module_refs: self.module_refs.duplicate(),
            matched_module_refs: self.matched_module_refs.duplicate(),
            module_references_safe: self.module_references_safe,
            warnings: duplicate_all(&self.warnings),
        }
    }
}

/// What is written into a file.
pub struct OfferModel {
    pub sheet: SheetModel,
    pub entries: Seq<(KeyModel, Seq<Seq<char>>)>,
    /// Module classes that stay referenced.
    pub preserved: Seq<Seq<char>>,
    pub prefix: Option<Seq<char>>,
    /// The classes that the bindings of a component have to name.
    pub rule_classes: Option<Seq<Seq<char>>>,
    pub conflicts: Seq<(Seq<char>, Seq<char>)>,
}

/// The plan of a script.
pub open spec fn script_plan(file: FileModel, at: OfferModel, is_module: bool) -> Result<PlanModel, ErrorModel> {
    parsed_plan(
        file,
        at.sheet.css_path,
        is_module,
        module_at(file.path, file.source),
        at.entries,
        at.preserved,
        true,
        at.conflicts,
    )
}

/// The plan of a file. Vue scoped styles never apply outside their own SFC,
/// and a `.vue` file is not parseable JavaScript: the only live pairing is an
/// SFC consuming its own scoped blocks through the HTML contract. A `.vue`
/// consumer of any other stylesheet is an opaque reference that can only
/// retain a module.
pub open spec fn consumer_plan(file: FileModel, at: OfferModel) -> Result<PlanModel, ErrorModel> {
    let css_path = at.sheet.css_path;
    let is_module = sheet_is_module(at.sheet);
    let vue_sheet = vue_path(css_path);
    let vue_file = vue_path(file.path);
    let linked = contexts_of(file, css_path).len() > 0;
    let html_file = extension(file.path) == Some("html"@);
    let html = html_plan(file, css_path, at.entries, at.prefix, at.conflicts);
    if vue_sheet && at.sheet.vue_module {
        if vue_file && linked {
            Ok(
                vue_module_plan(
                    file,
                    css_path,
                    at.entries,
                    at.preserved,
                    at.rule_classes,
                    at.prefix,
                    at.conflicts,
                ),
            )
        } else {
            Ok(no_plan())
        }
    } else if vue_sheet && at.sheet.vue_unscoped {
        if vue_file || html_file {
            Ok(html)
        } else {
            script_plan(file, at, false)
        }
    } else if vue_sheet || vue_file {
        if vue_file && linked {
            Ok(html)
        } else if vue_file && !vue_sheet {
            Ok(opaque_plan(file, css_path, is_module))
        } else {
            Ok(no_plan())
        }
    } else if html_file {
        Ok(html)
    } else {
        script_plan(file, at, is_module)
    }
}

/// What is written into a file.
pub struct Offer<'a> {
    pub sheet: &'a BatchStylesheet,
    pub candidates: &'a Candidates,
    pub preserved: &'a Vec<String>,
    pub prefix: &'a Option<String>,
    pub rule_classes: Option<&'a Vec<String>>,
    pub conflicts: &'a Conflicts,
}

impl<'a> View for Offer<'a> {
    type V = OfferModel;

    open spec fn view(&self) -> OfferModel {
        OfferModel {
            sheet: self.sheet@,
            entries: self.candidates@,
            preserved: texts(self.preserved@),
            prefix: maybe(*self.prefix),
            rule_classes: match self.rule_classes {
                Some(classes) => Some(texts(classes@)),
                None => None,
            },
            conflicts: self.conflicts@,
        }
    }
}

/// What a file becomes when the candidates of a stylesheet are written into
/// it.
pub fn plan_consumer_file<'a>(file: &SourceFile, at: &Offer<'a>) -> (result: Result<SourcePlan, MigrationError>)
    ensures
        plan_result(result) == consumer_plan(file@, at@),
{
    let css_path = at.sheet.css_path.as_str();
    let is_module = is_module_sheet(at.sheet);
    let vue_sheet = is_vue_path(css_path);
    let vue_file = is_vue_path(file.path.as_str());
    let html_file = has_extension(file.path.as_str(), "html");
    if vue_sheet && at.sheet.vue_module {
        if vue_file && file.has_analyzable_context(css_path) {
            return Ok(
                plan_vue_module_file(
                    file,
                    css_path,
                    at.candidates,
                    at.preserved,
                    at.rule_classes,
                    at.prefix,
                    at.conflicts,
                ),
            );
        }
        return Ok(empty_source_plan());
    }
    if vue_sheet && at.sheet.vue_unscoped {
        if vue_file || html_file {
            return Ok(plan_html_file(file, css_path, at.candidates, at.prefix, at.conflicts));
        }
        return plan_batch_source_file(file, css_path, false, at.candidates, at.preserved, at.conflicts);
    }
    if vue_sheet || vue_file {
        if vue_file && file.has_analyzable_context(css_path) {
            return Ok(plan_html_file(file, css_path, at.candidates, at.prefix, at.conflicts));
        }
        if vue_file && !vue_sheet {
            return Ok(opaque_reference_plan(file, css_path, is_module));
        }
        return Ok(empty_source_plan());
    }
    if html_file {
        return Ok(plan_html_file(file, css_path, at.candidates, at.prefix, at.conflicts));
    }
    plan_batch_source_file(file, css_path, is_module, at.candidates, at.preserved, at.conflicts)
}

} // verus!
