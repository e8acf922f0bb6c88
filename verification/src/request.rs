//! What a migration is asked to plan.
use crate::css::StylesheetSyntax;
use crate::duplicate::{duplicate_all, duplicate_maybe, duplicate_rounds, Duplicate};
use crate::number::pairs_of;
use crate::path::{extension, has_extension};
use crate::rules::RuleId;
use crate::source::{FileModel, HtmlAttribute, HtmlElement, HtmlStylesheet, ModuleBinding, SourceFile};
use crate::text::{copy_maybe, copy_texts, ends, ends_with, maybe, maybe_texts, texts, views};
use vstd::prelude::*;

verus! {

/// Where a position of generated CSS comes from.
#[derive(Debug)]
pub struct SourceMapping {
    pub generated_line: usize,
    pub generated_column: usize,
    pub source_path: String,
    pub original_line: usize,
    pub original_column: usize,
}

/// The model of a [`SourceMapping`].
pub struct MappingModel {
    pub generated: (usize, usize),
    pub source_path: Seq<char>,
    pub original: (usize, usize),
}

impl View for SourceMapping {
    type V = MappingModel;

    open spec fn view(&self) -> MappingModel {
        MappingModel {
            generated: (self.generated_line, self.generated_column),
            source_path: self.source_path@,
            original: (self.original_line, self.original_column),
        }
    }
}

impl Duplicate for SourceMapping {
    fn duplicate(&self) -> (result: Self) {
        SourceMapping {
            generated_line: self.generated_line,
            generated_column: self.generated_column,
            source_path: self.source_path.clone(),
            original_line: self.original_line,
            original_column: self.original_column,
        }
    }
}

/// One plain-CSS `<style scoped>` block of a Vue SFC, in absolute byte
/// offsets of the `.vue` file. The outer span covers the whole block
/// including its tags; the content span covers only the CSS text.
#[derive(Debug)]
pub struct VueBlock {
    pub outer_start: usize,
    pub outer_end: usize,
    pub content_start: usize,
    pub content_end: usize,
    pub syntax: StylesheetSyntax,
    /// The compiled CSS of a preprocessor block.
    pub analysis_source: Option<String>,
    pub source_path: Option<String>,
    pub source_mappings: Vec<SourceMapping>,
}

/// The model of a [`VueBlock`].
pub struct BlockModel {
    pub outer_start: int,
    pub outer_end: int,
    pub content_start: int,
    pub content_end: int,
    pub syntax: StylesheetSyntax,
    pub analysis_source: Option<Seq<char>>,
    pub source_path: Option<Seq<char>>,
    pub source_mappings: Seq<MappingModel>,
}

impl View for VueBlock {
    type V = BlockModel;

    open spec fn view(&self) -> BlockModel {
        BlockModel {
            outer_start: self.outer_start as int,
            outer_end: self.outer_end as int,
            content_start: self.content_start as int,
            content_end: self.content_end as int,
            syntax: self.syntax,
            analysis_source: maybe(self.analysis_source),
            source_path: maybe(self.source_path),
            source_mappings: views(self.source_mappings@),
        }
    }
}

impl Duplicate for VueBlock {
    fn duplicate(&self) -> (result: Self) {
        VueBlock {
            outer_start: self.outer_start,
            outer_end: self.outer_end,
            content_start: self.content_start,
            content_end: self.content_end,
            syntax: self.syntax,
            analysis_source: copy_maybe(&self.analysis_source),
            source_path: copy_maybe(&self.source_path),
            source_mappings: duplicate_all(&self.source_mappings),
        }
    }
}

/// One stylesheet of a batch.
#[derive(Debug)]
pub struct BatchStylesheet {
    /// Overrides the request's flag: false for a shared-entry member's
    /// stylesheet inside a group batch, or for a stylesheet whose
    /// registrations collide with another member's.
    pub global_at_rule_moves: Option<bool>,
    pub css_path: String,
    pub css_source: String,
    /// The compiled CSS of a preprocessor stylesheet.
    pub analysis_source: Option<String>,
    pub source_mappings: Vec<SourceMapping>,
    pub syntax: StylesheetSyntax,
    pub is_module: Option<bool>,
    pub is_partial: bool,
    pub css_module_id: Option<String>,
    pub css_dependents: Vec<String>,
    /// Present only for Vue SFC stylesheets: the plain-CSS `<style scoped>`
    /// blocks of the `.vue` file named by `css_path`, whose `css_source` is
    /// the whole SFC source.
    pub vue_blocks: Vec<VueBlock>,
    /// True for the `<style module>` entry of an SFC: consumers match proven
    /// `$style` binding sites instead of literal classes.
    pub vue_module: bool,
    /// Present only for Vue SFC stylesheets with an open template surface:
    /// the retention warning code every otherwise-unwarned rule receives.
    pub vue_retention: Option<String>,
    pub vue_unscoped: bool,
    /// Present only for closed Vue SFC stylesheets: the package's non-scoped
    /// CSS corpus as parseable pieces. Their parsed selector surface decides
    /// which scoped rules may be deleted without handing the cascade to an
    /// unlayered competitor.
    pub vue_shadow_css: Vec<String>,
    /// CSS Module sources: their class and id names are localized at build
    /// time, so only their bare type and attribute selectors count.
    pub vue_shadow_module_css: Vec<String>,
    /// True when the shadow corpus contains selectors that cannot be proven;
    /// every closed rule is then retained.
    pub vue_shadow_unverifiable: bool,
    /// Rules whose candidates failed Tailwind compilation in a previous
    /// planning pass; they are retained without converting anything.
    pub blocked_rules: Vec<RuleId>,
}

/// The model of a [`BatchStylesheet`].
pub struct SheetModel {
    pub global_at_rule_moves: Option<bool>,
    pub css_path: Seq<char>,
    pub css_source: Seq<char>,
    pub analysis_source: Option<Seq<char>>,
    pub source_mappings: Seq<MappingModel>,
    pub syntax: StylesheetSyntax,
    pub is_module: Option<bool>,
    pub is_partial: bool,
    pub css_module_id: Option<Seq<char>>,
    pub css_dependents: Seq<Seq<char>>,
    pub vue_blocks: Seq<BlockModel>,
    pub vue_module: bool,
    pub vue_retention: Option<Seq<char>>,
    pub vue_unscoped: bool,
    pub vue_shadow_css: Seq<Seq<char>>,
    pub vue_shadow_module_css: Seq<Seq<char>>,
    pub vue_shadow_unverifiable: bool,
    pub blocked_rules: Seq<RuleId>,
}

impl View for BatchStylesheet {
    type V = SheetModel;

    open spec fn view(&self) -> SheetModel {
        SheetModel {
            global_at_rule_moves: self.global_at_rule_moves,
            css_path: self.css_path@,
            css_source: self.css_source@,
            analysis_source: maybe(self.analysis_source),
            source_mappings: views(self.source_mappings@),
            syntax: self.syntax,
            is_module: self.is_module,
            is_partial: self.is_partial,
            css_module_id: maybe(self.css_module_id),
            css_dependents: texts(self.css_dependents@),
            vue_blocks: views(self.vue_blocks@),
            vue_module: self.vue_module,
            vue_retention: maybe(self.vue_retention),
            vue_unscoped: self.vue_unscoped,
            vue_shadow_css: texts(self.vue_shadow_css@),
            vue_shadow_module_css: texts(self.vue_shadow_module_css@),
            vue_shadow_unverifiable: self.vue_shadow_unverifiable,
            blocked_rules: self.blocked_rules@,
        }
    }
}

fn copy_ids(list: &Vec<RuleId>) -> (result: Vec<RuleId>)
    ensures
        result@ == list@,
{
    let mut result: Vec<RuleId> = Vec::new();
    let mut i: usize = 0;
    while i < list.len()
        invariant
            i <= list@.len(),
            result@ == list@.take(i as int),
        decreases list.len() - i,
    {
        result.push(list[i]);
        i += 1;
        assert(result@ =~= list@.take(i as int));
    }
    assert(list@.take(i as int) =~= list@);
    result
}

impl Duplicate for BatchStylesheet {
    fn duplicate(&self) -> (result: Self) {
        BatchStylesheet {
            global_at_rule_moves: self.global_at_rule_moves,
            css_path: self.css_path.clone(),
            css_source: self.css_source.clone(),
            analysis_source: copy_maybe(&self.analysis_source),
            source_mappings: duplicate_all(&self.source_mappings),
            syntax: self.syntax,
            is_module: self.is_module,
            is_partial: self.is_partial,
            css_module_id: copy_maybe(&self.css_module_id),
            css_dependents: copy_texts(&self.css_dependents),
            vue_blocks: duplicate_all(&self.vue_blocks),
            vue_module: self.vue_module,
            vue_retention: copy_maybe(&self.vue_retention),
            vue_unscoped: self.vue_unscoped,
            vue_shadow_css: copy_texts(&self.vue_shadow_css),
            vue_shadow_module_css: copy_texts(&self.vue_shadow_module_css),
            vue_shadow_unverifiable: self.vue_shadow_unverifiable,
            blocked_rules: copy_ids(&self.blocked_rules),
        }
    }
}

/// What holds for every stylesheet of a batch.
#[derive(Debug)]
pub struct Settings {
    pub tailwind_path: Option<String>,
    pub tailwind_source: Option<String>,
    pub utility_prefix: Option<String>,
    pub theme_tokens: Vec<(String, String)>,
    /// The entry group's fixed key-to-name map: normalized media condition
    /// keys to resolved variant names. `None` when extraction is disabled, in
    /// which case media handling is unchanged. An explicitly supplied empty
    /// map stays authoritative: every condition then uses the arbitrary
    /// fallback, never the legacy conversions.
    pub media_names: Option<Vec<(String, String)>>,
    /// False when the resolved Tailwind entry must not be edited: keyframe and
    /// global at-rule movement is disabled so their rules retain with the
    /// existing warnings, and no entry file is planned.
    pub entry_writable: bool,
    /// False for members that reuse an ancestor-shared entry: actively applied
    /// global at-rules stay in their modules while renamed keyframes may still
    /// move.
    pub global_at_rule_moves: bool,
}

/// The model of [`Settings`].
pub struct SettingsModel {
    pub tailwind_path: Option<Seq<char>>,
    pub tailwind_source: Option<Seq<char>>,
    pub utility_prefix: Option<Seq<char>>,
    pub theme_tokens: Seq<(Seq<char>, Seq<char>)>,
    pub media_names: Option<Seq<(Seq<char>, Seq<char>)>>,
    pub entry_writable: bool,
    pub global_at_rule_moves: bool,
}

impl View for Settings {
    type V = SettingsModel;

    open spec fn view(&self) -> SettingsModel {
        SettingsModel {
            tailwind_path: maybe(self.tailwind_path),
            tailwind_source: maybe(self.tailwind_source),
            utility_prefix: maybe(self.utility_prefix),
            theme_tokens: pairs_of(self.theme_tokens@),
            media_names: match self.media_names {
                Some(names) => Some(pairs_of(names@)),
                None => None,
            },
            entry_writable: self.entry_writable,
            global_at_rule_moves: self.global_at_rule_moves,
        }
    }
}

/// A copy of a list of pairs.
pub fn copy_pairs(list: &Vec<(String, String)>) -> (result: Vec<(String, String)>)
    ensures
        pairs_of(result@) == pairs_of(list@),
{
    let mut result: Vec<(String, String)> = Vec::new();
    let mut i: usize = 0;
    while i < list.len()
        invariant
            i <= list@.len(),
            pairs_of(result@) == pairs_of(list@).take(i as int),
        decreases list.len() - i,
    {
        let ghost before = result@;
        result.push((list[i].0.clone(), list[i].1.clone()));
        assert(pairs_of(result@) =~= pairs_of(before).push((list@[i as int].0@, list@[i as int].1@)));
        i += 1;
        assert(pairs_of(result@) =~= pairs_of(list@).take(i as int));
    }
    assert(pairs_of(list@).take(i as int) =~= pairs_of(list@));
    result
}

impl Duplicate for Settings {
    fn duplicate(&self) -> (result: Self) {
        Settings {
            tailwind_path: copy_maybe(&self.tailwind_path),
            tailwind_source: copy_maybe(&self.tailwind_source),
            utility_prefix: copy_maybe(&self.utility_prefix),
            theme_tokens: copy_pairs(&self.theme_tokens),
            media_names: match &self.media_names {
                Some(names) => Some(copy_pairs(names)),
                None => None,
            },
            entry_writable: self.entry_writable,
            global_at_rule_moves: self.global_at_rule_moves,
        }
    }
}

/// A batch of stylesheets and the files that use them.
pub struct BatchPlanRequest {
    pub stylesheets: Vec<BatchStylesheet>,
    pub settings: Settings,
    pub files: Vec<SourceFile>,
}

/// The model of a [`BatchPlanRequest`].
pub struct BatchModel {
    pub stylesheets: Seq<SheetModel>,
    pub settings: SettingsModel,
    pub files: Seq<FileModel>,
}

impl View for BatchPlanRequest {
    type V = BatchModel;

    open spec fn view(&self) -> BatchModel {
        BatchModel {
            stylesheets: views(self.stylesheets@),
            settings: self.settings@,
            files: views(self.files@),
        }
    }
}

/// One stylesheet and the files that use it.
pub struct PlanRequest {
    pub sheet: BatchStylesheet,
    pub settings: Settings,
    pub files: Vec<SourceFile>,
}

/// The model of a [`PlanRequest`].
pub struct RequestModel {
    pub sheet: SheetModel,
    pub settings: SettingsModel,
    pub files: Seq<FileModel>,
}

impl View for PlanRequest {
    type V = RequestModel;

    open spec fn view(&self) -> RequestModel {
        RequestModel { sheet: self.sheet@, settings: self.settings@, files: views(self.files@) }
    }
}

/// The request for one stylesheet of a batch.
pub fn batch_stylesheet_request(
    settings: &Settings,
    stylesheet: &BatchStylesheet,
    files: Vec<SourceFile>,
) -> (result: PlanRequest)
    ensures
        result@ == (RequestModel { sheet: stylesheet@, settings: settings@, files: views(files@) }),
{
    PlanRequest { sheet: stylesheet.duplicate(), settings: settings.duplicate(), files }
}

// Copies of sources

impl Duplicate for HtmlAttribute {
    fn duplicate(&self) -> (result: Self) {
        self.copy()
    }
}

impl Duplicate for ModuleBinding {
    fn duplicate(&self) -> (result: Self) {
        ModuleBinding { name: self.name.clone(), start: self.start, end: self.end }
    }
}

impl Duplicate for HtmlStylesheet {
    fn duplicate(&self) -> (result: Self) {
        self.copy()
    }
}

fn copy_maybe_texts(list: &Option<Vec<String>>) -> (result: Option<Vec<String>>)
    ensures
        maybe_texts(result) == maybe_texts(*list),
{
    match list {
        Some(list) => Some(copy_texts(list)),
        None => None,
    }
}

impl Duplicate for HtmlElement {
    fn duplicate(&self) -> (result: Self) {
        HtmlElement {
            class_attribute: duplicate_maybe(&self.class_attribute),
            id_attribute: duplicate_maybe(&self.id_attribute),
            node_start: self.node_start,
            match_classes: copy_maybe_texts(&self.match_classes),
            write_classes: copy_maybe_texts(&self.write_classes),
            match_ids: copy_maybe_texts(&self.match_ids),
            match_tag: copy_maybe(&self.match_tag),
            tag: copy_maybe(&self.tag),
            css_paths: copy_texts(&self.css_paths),
            class_opaque: self.class_opaque,
            module_binding: duplicate_maybe(&self.module_binding),
        }
    }
}

impl Duplicate for SourceFile {
    fn duplicate(&self) -> (result: Self) {
        SourceFile {
            path: self.path.clone(),
            source: self.source.clone(),
            writable: self.writable,
            html_elements: duplicate_all(&self.html_elements),
            html_stylesheets: duplicate_all(&self.html_stylesheets),
            html_references_safe: self.html_references_safe,
            html_script_text: self.html_script_text.clone(),
            prior_edits: duplicate_rounds(&self.prior_edits),
        }
    }
}

// ---------------------------------------------------------------------------
// Kinds of paths
// ---------------------------------------------------------------------------

/// A CSS Module by its name.
pub open spec fn stylesheet_module(path: Seq<char>) -> bool {
    ||| ends(path, ".module.css"@)
    ||| ends(path, ".module.scss"@)
    ||| ends(path, ".module.sass"@)
    ||| ends(path, ".module.less"@)
}

/// Whether the path names a CSS Module.
pub fn is_stylesheet_module(path: &str) -> (result: bool)
    ensures
        result == stylesheet_module(path@),
{
    ends_with(path, ".module.css") || ends_with(path, ".module.scss") || ends_with(path, ".module.sass") || ends_with(
        path,
        ".module.less",
    )
}

/// A Vue SFC by its name.
pub open spec fn vue_path(path: Seq<char>) -> bool {
    extension(path) == Some("vue"@)
}

/// Whether the path names a Vue SFC.
pub fn is_vue_path(path: &str) -> (result: bool)
    ensures
        result == vue_path(path@),
{
    has_extension(path, "vue")
}

/// The stylesheet is a CSS Module, as it says itself or by its name.
pub open spec fn sheet_is_module(sheet: SheetModel) -> bool {
    match sheet.is_module {
        Some(is_module) => is_module,
        None => stylesheet_module(sheet.css_path),
    }
}

/// Whether the stylesheet is a CSS Module.
pub fn is_module_sheet(sheet: &BatchStylesheet) -> (result: bool)
    ensures
        result == sheet_is_module(sheet@),
{
    match sheet.is_module {
        Some(is_module) => is_module,
        None => is_stylesheet_module(sheet.css_path.as_str()),
    }
}

} // verus!
