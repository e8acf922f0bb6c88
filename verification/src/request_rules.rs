//! The rules of a requested stylesheet, and why each of them stays.
use crate::animations::KeyframePlan;
use crate::css::{fail, failed, Halt, HaltModel, Parse, ParseModel, StylesheetSyntax};
use crate::css_plan::{
    css_rules, parse_css_rules, Converter, ConverterModel, GlobalAtRulePlan, ParseOptions, ParsedCss, ParsedModel,
};
use crate::errors::{ErrorModel, MigrationError};
use crate::html_attribute::byte_len;
use crate::media_gate::{Utilities, UtilitiesModel};
use crate::path::same_texts;
use crate::request::{
    is_module_sheet, sheet_is_module, BlockModel, PlanRequest, RequestModel, SheetModel, VueBlock,
};
use crate::rules::{prefix_rule_candidates, rule_prefixed, warn_rule, RuleModel, RulePlan};
use crate::shadow::{
    index_shadow_selectors, indexed, package_stamped, shadow_settled, stamp_in_file_shadow, stamp_package_shadow, Contest,
    ContestModel, ShadowEntry, ShadowEntryModel,
};
use crate::source_map::{based, map_rule_spans, rules_mapped};
use crate::text::{copy, copy_cut, cut, maybe, same, split, pieces, texts, views, Separator};
use crate::vue::{mask_vue_source, masked};
use vstd::prelude::*;

verus! {

// ---------------------------------------------------------------------------
// What is known
// ---------------------------------------------------------------------------

/// What a text becomes when global at-rules are appended to it.
#[derive(Debug)]
pub struct Appended {
    pub source: String,
    pub at_rules: Vec<String>,
    pub outcome: Result<String, MigrationError>,
}

/// The model of [`Appended`].
pub struct AppendedModel {
    pub source: Seq<char>,
    pub at_rules: Seq<Seq<char>>,
    pub outcome: Result<Seq<char>, ErrorModel>,
}

impl View for Appended {
    type V = AppendedModel;

    open spec fn view(&self) -> AppendedModel {
        AppendedModel {
            source: self.source@,
            at_rules: texts(self.at_rules@),
            outcome: match self.outcome {
                Ok(text) => Ok(text@),
                Err(error) => Err(error@),
            },
        }
    }
}

/// What planning knows of the world: the trees of texts, and Tailwind's
/// answers.
pub struct Knowledge {
    pub parses: Vec<Parse>,
    pub converter: Converter,
    pub utilities: Utilities,
    pub shadows: Vec<ShadowEntry>,
    pub appended: Vec<Appended>,
}

/// The model of [`Knowledge`].
pub struct KnowledgeModel {
    pub parses: Seq<ParseModel>,
    pub converter: ConverterModel,
    pub utilities: UtilitiesModel,
    pub shadows: Seq<ShadowEntryModel>,
    pub appended: Seq<AppendedModel>,
}

impl View for Knowledge {
    type V = KnowledgeModel;

    open spec fn view(&self) -> KnowledgeModel {
        KnowledgeModel {
            parses: views(self.parses@),
            converter: self.converter@,
            utilities: self.utilities@,
            shadows: views(self.shadows@),
            appended: views(self.appended@),
        }
    }
}

// ---------------------------------------------------------------------------
// Folders
// ---------------------------------------------------------------------------

/// The components among the first `n` segments of a path: empty segments name
/// nothing, and a dot only at the start.
pub open spec fn components_of(segments: Seq<Seq<char>>, n: int) -> Seq<Seq<char>>
    decreases n,
{
    if n <= 0 {
        seq![]
    } else {
        let segment = segments[n - 1];
        if segment.len() == 0 || (segment == "."@ && n > 1) {
            components_of(segments, n - 1)
        } else {
            components_of(segments, n - 1).push(segment)
        }
    }
}

/// The folder of a path: whether it starts at the root, and its components.
/// The root and the empty path have none.
pub open spec fn folder_of(path: Seq<char>) -> Option<(bool, Seq<Seq<char>>)> {
    let segments = pieces(path, Separator::Char('/'));
    let components = components_of(segments, segments.len() as int);
    if components.len() == 0 {
        None
    } else {
        Some((crate::path::is_absolute(path), components.drop_last()))
    }
}

fn collect_components(segments: &Vec<String>) -> (result: Vec<String>)
    ensures
        texts(result@) == components_of(texts(segments@), segments@.len() as int),
{
    let mut result: Vec<String> = Vec::new();
    assert(texts(result@) =~= Seq::empty());
    let mut n: usize = 0;
    while n < segments.len()
        invariant
            n <= segments@.len(),
            texts(result@) == components_of(texts(segments@), n as int),
        decreases segments.len() - n,
    {
        let segment = &segments[n];
        assert(texts(segments@)[n as int] == segment@);
        if !(segment.as_str().is_empty() || (same(segment.as_str(), ".") && n > 0)) {
            let ghost before = result@;
            result.push(copy(segment.as_str()));
            assert(texts(result@) =~= texts(before).push(segment@));
        }
        n += 1;
    }
    result
}

pub open spec fn folder_model(folder: Option<(bool, Vec<String>)>) -> Option<(bool, Seq<Seq<char>>)> {
    match folder {
        Some(found) => Some((found.0, texts(found.1@))),
        None => None,
    }
}

fn find_folder(path: &str) -> (result: Option<(bool, Vec<String>)>)
    ensures
        folder_model(result) == folder_of(path@),
{
    let segments = split(path, Separator::Char('/'));
    assert(texts(segments@).len() == segments@.len());
    let mut components = collect_components(&segments);
    assert(texts(components@).len() == components@.len());
    if components.len() == 0 {
        return None;
    }
    let ghost before = components@;
    components.pop();
    assert(texts(components@) =~= texts(before).drop_last());
    Some((crate::path::starts_absolute(path), components))
}

/// Both paths lie in the same folder.
pub fn are_neighbours(a: &str, b: &str) -> (result: bool)
    ensures
        result == (folder_of(a@) == folder_of(b@)),
{
    match (find_folder(a), find_folder(b)) {
        (Some(left), Some(right)) => left.0 == right.0 && same_texts(&left.1, &right.1),
        (None, None) => true,
        _ => false,
    }
}

// ---------------------------------------------------------------------------
// Stamps
// ---------------------------------------------------------------------------

/// A rule without a unique authored rule stays.
pub open spec fn map_stamped(rule: RuleModel) -> RuleModel {
    if rule.warning is None && rule.authored_span is None {
        rule.warned("unproven-source-map"@)
    } else {
        rule
    }
}

fn stamp_unmapped(rules: &mut Vec<RulePlan>)
    ensures
        final(rules)@.len() == old(rules)@.len(),
        views(final(rules)@) == views(old(rules)@).map_values(|rule: RuleModel| map_stamped(rule)),
{
    let ghost start = views(rules@);
    let mut i: usize = 0;
    while i < rules.len()
        invariant
            i <= rules@.len() == start.len(),
            rules@.len() == old(rules)@.len(),
            forall|k: int| 0 <= k < i ==> #[trigger] views(rules@)[k] == map_stamped(start[k]),
            forall|k: int| i <= k < start.len() ==> #[trigger] views(rules@)[k] == start[k],
        decreases rules.len() - i,
    {
        assert(views(rules@)[i as int] == rules@[i as int]@);
        if rules[i].warning.is_none() && rules[i].authored_span.is_none() {
            warn_rule(rules, i, "unproven-source-map");
        }
        i += 1;
    }
    assert(views(rules@) =~= start.map_values(|rule: RuleModel| map_stamped(rule)));
}

fn stamp_all(rules: &mut Vec<RulePlan>, code: &str)
    ensures
        final(rules)@.len() == old(rules)@.len(),
        views(final(rules)@) == views(old(rules)@).map_values(|rule: RuleModel| rule.warned(code@)),
{
    let ghost start = views(rules@);
    let mut i: usize = 0;
    while i < rules.len()
        invariant
            i <= rules@.len() == start.len(),
            rules@.len() == old(rules)@.len(),
            forall|k: int| 0 <= k < i ==> #[trigger] views(rules@)[k] == start[k].warned(code@),
            forall|k: int| i <= k < start.len() ==> #[trigger] views(rules@)[k] == start[k],
        decreases rules.len() - i,
    {
        warn_rule(rules, i, code);
        i += 1;
    }
    assert(views(rules@) =~= start.map_values(|rule: RuleModel| rule.warned(code@)));
}

/// A rule whose authored span is its span behind `base` bytes.
pub open spec fn placed_at(base: int, rule: RuleModel) -> RuleModel {
    RuleModel { authored_span: based(base, rule.span), ..rule }
}

fn place_all(rules: &mut Vec<RulePlan>, base: usize)
    ensures
        final(rules)@.len() == old(rules)@.len(),
        views(final(rules)@) == views(old(rules)@).map_values(|rule: RuleModel| placed_at(base as int, rule)),
{
    let ghost start = views(rules@);
    let mut i: usize = 0;
    while i < rules.len()
        invariant
            i <= rules@.len() == start.len(),
            rules@.len() == old(rules)@.len(),
            forall|k: int| 0 <= k < i ==> #[trigger] views(rules@)[k] == placed_at(base as int, start[k]),
            forall|k: int| i <= k < start.len() ==> #[trigger] views(rules@)[k] == start[k],
        decreases rules.len() - i,
    {
        let ghost before = rules@;
        assert(views(rules@)[i as int] == rules@[i as int]@);
        let span = rules[i].span;
        rules[i].authored_span = match (base.checked_add(span.0), base.checked_add(span.1)) {
            (Some(start), Some(end)) => Some((start, end)),
            _ => None,
        };
        assert(rules@[i as int]@ == placed_at(base as int, start[i as int]));
        assert forall|k: int| 0 <= k < start.len() && k != i implies #[trigger] views(rules@)[k] == views(before)[k] by {
            assert(rules@[k] == before[k]);
        }
        i += 1;
    }
    assert(views(rules@) =~= start.map_values(|rule: RuleModel| placed_at(base as int, rule)));
}

/// The rules with their spans behind `base` bytes; there are none past the
/// range of offsets.
pub open spec fn spans_based(base: int, rules: Seq<RuleModel>, n: int) -> Option<Seq<RuleModel>>
    decreases n,
{
    if n <= 0 {
        Some(rules)
    } else {
        match (spans_based(base, rules, n - 1), based(base, rules[n - 1].span)) {
            (Some(before), Some(span)) => Some(before.update(n - 1, RuleModel { span, ..rules[n - 1] })),
            _ => None,
        }
    }
}

proof fn lemma_spans_missing(base: int, rules: Seq<RuleModel>, k: int, n: int)
    requires
        0 <= k <= n,
        spans_based(base, rules, k) is None,
    ensures
        spans_based(base, rules, n) is None,
    decreases n - k,
{
    if k < n {
        lemma_spans_missing(base, rules, k, n - 1);
    }
}

fn base_spans(rules: &mut Vec<RulePlan>, base: usize) -> (result: bool)
    ensures
        match spans_based(base as int, views(old(rules)@), old(rules)@.len() as int) {
            Some(model) => result && views(final(rules)@) == model,
            None => !result,
        },
{
    let ghost start = views(rules@);
    let count = rules.len();
    let mut n: usize = 0;
    while n < count
        invariant
            n <= count == rules@.len() == start.len(),
            start == views(old(rules)@),
            count == old(rules)@.len(),
            spans_based(base as int, start, n as int) == Some(views(rules@)),
            forall|k: int| n <= k < start.len() ==> #[trigger] views(rules@)[k] == start[k],
        decreases count - n,
    {
        let ghost before = rules@;
        assert(views(rules@)[n as int] == rules@[n as int]@);
        let span = rules[n].span;
        match (base.checked_add(span.0), base.checked_add(span.1)) {
            (Some(first), Some(last)) => {
                rules[n].span = (first, last);
                assert(views(rules@) =~= views(before).update(
                    n as int,
                    RuleModel { span: (first, last), ..start[n as int] },
                ));
            },
            _ => {
                proof {
                    lemma_spans_missing(base as int, start, n + 1, count as int);
                }
                return false;
            },
        }
        n += 1;
    }
    true
}

// ---------------------------------------------------------------------------
// Plain stylesheets
// ---------------------------------------------------------------------------

/// What keyframes are named after.
pub open spec fn keyframe_scope(sheet: SheetModel) -> Seq<char> {
    match sheet.css_module_id {
        Some(id) => id,
        None => sheet.css_path,
    }
}

/// At-rules may move to the Tailwind entry. Vue keyframes and at-rules stay
/// inside their scoped block; moving them would change their scope.
pub open spec fn can_move(request: RequestModel) -> bool {
    &&& request.settings.entry_writable
    &&& request.sheet.vue_blocks.len() == 0
    &&& request.sheet.syntax == StylesheetSyntax::Css
    &&& request.settings.tailwind_source is Some
    &&& request.settings.tailwind_path matches Some(path) && path != request.sheet.css_path
}

/// How the stylesheet is read.
pub open spec fn sheet_options(request: RequestModel) -> ParseOptions {
    ParseOptions {
        syntax: if request.sheet.analysis_source is Some {
            StylesheetSyntax::Css
        } else {
            request.sheet.syntax
        },
        is_module: sheet_is_module(request.sheet),
        can_move_at_rules: can_move(request),
        can_move_global_at_rules: match request.sheet.global_at_rule_moves {
            Some(moves) => moves,
            None => request.settings.global_at_rule_moves,
        },
        relative_urls_stable: request.settings.tailwind_path matches Some(path) && folder_of(path) == folder_of(
            request.sheet.css_path,
        ),
    }
}

/// The rules of a plain stylesheet.
pub open spec fn plain_rules(know: KnowledgeModel, request: RequestModel) -> Result<ParsedModel, HaltModel> {
    let sheet = request.sheet;
    let analysis = match sheet.analysis_source {
        Some(text) => text,
        None => sheet.css_source,
    };
    match css_rules(
        know.parses,
        know.converter,
        know.utilities.conflicts,
        sheet.css_path,
        keyframe_scope(sheet),
        analysis,
        sheet_options(request),
    ) {
        Err(halt) => Err(halt),
        Ok(parsed) => if sheet.analysis_source is Some {
            match rules_mapped(
                know.parses,
                sheet.css_source,
                sheet.syntax,
                sheet.css_path,
                sheet.source_mappings,
                analysis,
                parsed.rules,
                0,
            ) {
                Err(halt) => Err(halt),
                Ok(rules) => Ok(
                    ParsedModel {
                        rules: if sheet_is_module(sheet) {
                            rules.map_values(|rule: RuleModel| map_stamped(rule))
                        } else {
                            rules
                        },
                        ..parsed
                    },
                ),
            }
        } else {
            Ok(
                ParsedModel {
                    rules: parsed.rules.map_values(|rule: RuleModel| placed_at(0, rule)),
                    ..parsed
                },
            )
        },
    }
}

fn get_sheet_options(request: &PlanRequest) -> (result: ParseOptions)
    ensures
        result == sheet_options(request@),
{
    let moves = request.settings.entry_writable && request.sheet.vue_blocks.len() == 0 && request.sheet.syntax
        == StylesheetSyntax::Css && request.settings.tailwind_source.is_some() && match &request.settings.tailwind_path {
        Some(path) => !same(path.as_str(), request.sheet.css_path.as_str()),
        None => false,
    };
    assert(request@.sheet.vue_blocks.len() == request.sheet.vue_blocks@.len());
    ParseOptions {
        syntax: if request.sheet.analysis_source.is_some() {
            StylesheetSyntax::Css
        } else {
            request.sheet.syntax
        },
        is_module: is_module_sheet(&request.sheet),
        can_move_at_rules: moves,
        can_move_global_at_rules: match request.sheet.global_at_rule_moves {
            Some(moves) => moves,
            None => request.settings.global_at_rule_moves,
        },
        relative_urls_stable: match &request.settings.tailwind_path {
            Some(path) => are_neighbours(path.as_str(), request.sheet.css_path.as_str()),
            None => false,
        },
    }
}

fn read_plain_rules(know: &Knowledge, request: &PlanRequest) -> (result: Result<ParsedCss, Halt>)
    ensures
        match plain_rules(know@, request@) {
            Ok(model) => result matches Ok(parsed) && parsed@ == model,
            Err(model) => result matches Err(halt) && halt@ == model,
        },
{
    let sheet = &request.sheet;
    let analysis = match &sheet.analysis_source {
        Some(text) => text.as_str(),
        None => sheet.css_source.as_str(),
    };
    let scope = match &sheet.css_module_id {
        Some(id) => id.as_str(),
        None => sheet.css_path.as_str(),
    };
    let options = get_sheet_options(request);
    let parsed = match parse_css_rules(
        &know.parses,
        &know.converter,
        &know.utilities.conflicts,
        sheet.css_path.as_str(),
        scope,
        analysis,
        options,
    ) {
        Ok(parsed) => parsed,
        Err(halt) => {
            return Err(halt);
        },
    };
    let mut rules = parsed.rules;
    if sheet.analysis_source.is_some() {
        match map_rule_spans(
            &know.parses,
            sheet.css_source.as_str(),
            sheet.syntax,
            sheet.css_path.as_str(),
            &sheet.source_mappings,
            analysis,
            &mut rules,
            0,
        ) {
            Ok(_) => {},
            Err(halt) => {
                return Err(halt);
            },
        }
        if is_module_sheet(sheet) {
            stamp_unmapped(&mut rules);
        }
    } else {
        place_all(&mut rules, 0);
    }
    Ok(ParsedCss { rules, keyframes: parsed.keyframes, global_at_rules: parsed.global_at_rules })
}

// ---------------------------------------------------------------------------
// Vue components
// ---------------------------------------------------------------------------

/// The CSS of a block that is analyzed.
pub open spec fn block_analysis(block: BlockModel, authored: Seq<char>) -> Seq<char> {
    match block.analysis_source {
        Some(text) => text,
        None => authored,
    }
}

/// How a block is read.
pub open spec fn block_options(sheet: SheetModel, block: BlockModel) -> ParseOptions {
    ParseOptions {
        syntax: if block.analysis_source is Some {
            StylesheetSyntax::Css
        } else {
            block.syntax
        },
        is_module: sheet_is_module(sheet),
        can_move_at_rules: false,
        can_move_global_at_rules: false,
        relative_urls_stable: false,
    }
}

/// The rules of a block with their authored spans.
pub open spec fn block_rules(know: KnowledgeModel, sheet: SheetModel, block: BlockModel, authored: Seq<char>) -> Result<
    Seq<RuleModel>,
    HaltModel,
> {
    let analysis = block_analysis(block, authored);
    match css_rules(
        know.parses,
        know.converter,
        know.utilities.conflicts,
        sheet.css_path,
        keyframe_scope(sheet),
        analysis,
        block_options(sheet, block),
    ) {
        Err(halt) => Err(halt),
        Ok(parsed) => if block.analysis_source is Some {
            match rules_mapped(
                know.parses,
                authored,
                block.syntax,
                match block.source_path {
                    Some(path) => path,
                    None => sheet.css_path,
                },
                block.source_mappings,
                analysis,
                parsed.rules,
                block.content_start,
            ) {
                Err(halt) => Err(halt),
                Ok(rules) => Ok(rules.map_values(|rule: RuleModel| map_stamped(rule))),
            }
        } else {
            Ok(parsed.rules.map_values(|rule: RuleModel| placed_at(block.content_start, rule)))
        },
    }
}

fn read_block_rules(know: &Knowledge, request: &PlanRequest, block: &VueBlock, authored: &str) -> (result: Result<
    Vec<RulePlan>,
    Halt,
>)
    ensures
        match block_rules(know@, request@.sheet, block@, authored@) {
            Ok(model) => result matches Ok(rules) && views(rules@) == model,
            Err(model) => result matches Err(halt) && halt@ == model,
        },
{
    let sheet = &request.sheet;
    let analysis = match &block.analysis_source {
        Some(text) => text.as_str(),
        None => authored,
    };
    let scope = match &sheet.css_module_id {
        Some(id) => id.as_str(),
        None => sheet.css_path.as_str(),
    };
    let options = ParseOptions {
        syntax: if block.analysis_source.is_some() {
            StylesheetSyntax::Css
        } else {
            block.syntax
        },
        is_module: is_module_sheet(sheet),
        can_move_at_rules: false,
        can_move_global_at_rules: false,
        relative_urls_stable: false,
    };
    let parsed = match parse_css_rules(
        &know.parses,
        &know.converter,
        &know.utilities.conflicts,
        sheet.css_path.as_str(),
        scope,
        analysis,
        options,
    ) {
        Ok(parsed) => parsed,
        Err(halt) => {
            return Err(halt);
        },
    };
    let mut rules = parsed.rules;
    if block.analysis_source.is_some() {
        let path = match &block.source_path {
            Some(path) => path.as_str(),
            None => sheet.css_path.as_str(),
        };
        match map_rule_spans(
            &know.parses,
            authored,
            block.syntax,
            path,
            &block.source_mappings,
            analysis,
            &mut rules,
            block.content_start,
        ) {
            Ok(_) => {},
            Err(halt) => {
                return Err(halt);
            },
        }
        stamp_unmapped(&mut rules);
    } else {
        place_all(&mut rules, block.content_start);
    }
    Ok(rules)
}

/// The rules of the first `n` blocks, and how many bytes of analyzed CSS they
/// stand in: the spans of a block's rules lie behind the CSS of the blocks
/// before it.
pub open spec fn vue_rules(know: KnowledgeModel, sheet: SheetModel, n: int) -> Result<(Seq<RuleModel>, int), HaltModel>
    decreases n,
{
    if n <= 0 {
        Ok((seq![], 0))
    } else {
        let block = sheet.vue_blocks[n - 1];
        match vue_rules(know, sheet, n - 1) {
            Err(halt) => Err(halt),
            Ok((before, base)) => match cut(sheet.css_source, block.content_start, block.content_end) {
                None => Err(failed("Invalid Vue style block span"@)),
                Some(authored) => match block_rules(know, sheet, block, authored) {
                    Err(halt) => Err(halt),
                    Ok(rules) => match spans_based(base, rules, rules.len() as int) {
                        None => Err(failed("Invalid Vue style block span"@)),
                        Some(moved) => {
                            let next = base + byte_len(block_analysis(block, authored)) + 1;
                            if next > usize::MAX {
                                Err(failed("Invalid Vue style block span"@))
                            } else {
                                Ok((before + moved, next))
                            }
                        },
                    },
                },
            },
        }
    }
}

proof fn lemma_vue_halt(know: KnowledgeModel, sheet: SheetModel, k: int, n: int)
    requires
        0 <= k <= n,
        vue_rules(know, sheet, k) is Err,
    ensures
        vue_rules(know, sheet, n) == vue_rules(know, sheet, k),
    decreases n - k,
{
    if k < n {
        lemma_vue_halt(know, sheet, k, n - 1);
    }
}

fn next_base(base: usize, analysis: &str) -> (result: Option<usize>)
    ensures
        match result {
            Some(next) => next == base + byte_len(analysis@) + 1,
            None => base + byte_len(analysis@) + 1 > usize::MAX,
        },
{
    match base.checked_add(analysis.as_bytes().len()) {
        Some(sum) => sum.checked_add(1),
        None => None,
    }
}

fn append_rules(rules: &mut Vec<RulePlan>, more: Vec<RulePlan>)
    ensures
        views(final(rules)@) == views(old(rules)@) + views(more@),
{
    let ghost before = rules@;
    let ghost added = more@;
    let mut more = more;
    rules.append(&mut more);
    assert(views(rules@) =~= views(before) + views(added));
}

fn parse_block(know: &Knowledge, request: &PlanRequest, n: usize, base: usize) -> (result: Result<
    (Vec<RulePlan>, usize),
    Halt,
>)
    requires
        n < request.sheet.vue_blocks@.len(),
        vue_rules(know@, request@.sheet, n as int) matches Ok((_, known)) && known == base,
    ensures
        match vue_rules(know@, request@.sheet, n + 1) {
            Ok((rules, next)) => result matches Ok((added, reached)) && reached == next && rules == (vue_rules(
                know@,
                request@.sheet,
                n as int,
            )->Ok_0).0 + views(added@),
            Err(model) => result matches Err(halt) && halt@ == model,
        },
{
    let block = &request.sheet.vue_blocks[n];
    assert(request@.sheet.vue_blocks[n as int] == block@);
    let authored = match copy_cut(request.sheet.css_source.as_str(), block.content_start, block.content_end) {
        Some(authored) => authored,
        None => {
            return Err(fail("Invalid Vue style block span".to_owned()));
        },
    };
    let mut rules = match read_block_rules(know, request, block, authored.as_str()) {
        Ok(rules) => rules,
        Err(halt) => {
            return Err(halt);
        },
    };
    assert(views(rules@).len() == rules@.len());
    if !base_spans(&mut rules, base) {
        return Err(fail("Invalid Vue style block span".to_owned()));
    }
    let analysis = match &block.analysis_source {
        Some(text) => text.as_str(),
        None => authored.as_str(),
    };
    match next_base(base, analysis) {
        None => Err(fail("Invalid Vue style block span".to_owned())),
        Some(next) => Ok((rules, next)),
    }
}

fn parse_vue_rules(know: &Knowledge, request: &PlanRequest) -> (result: Result<Vec<RulePlan>, Halt>)
    ensures
        match vue_rules(know@, request@.sheet, request@.sheet.vue_blocks.len() as int) {
            Ok(model) => result matches Ok(rules) && views(rules@) == model.0,
            Err(model) => result matches Err(halt) && halt@ == model,
        },
{
    let ghost count = request@.sheet.vue_blocks.len() as int;
    assert(count == request.sheet.vue_blocks@.len());
    let mut rules: Vec<RulePlan> = Vec::new();
    assert(views(rules@) =~= Seq::empty());
    let mut base: usize = 0;
    let mut n: usize = 0;
    while n < request.sheet.vue_blocks.len()
        invariant
            n <= request.sheet.vue_blocks@.len(),
            count == request.sheet.vue_blocks@.len(),
            count == request@.sheet.vue_blocks.len(),
            vue_rules(know@, request@.sheet, n as int) == Ok::<(Seq<RuleModel>, int), HaltModel>(
                (views(rules@), base as int),
            ),
        decreases request.sheet.vue_blocks.len() - n,
    {
        match parse_block(know, request, n, base) {
            Err(halt) => {
                proof {
                    lemma_vue_halt(know@, request@.sheet, n + 1, count);
                }
                return Err(halt);
            },
            Ok((added, next)) => {
                append_rules(&mut rules, added);
                base = next;
            },
        }
        n += 1;
    }
    Ok(rules)
}

// ---------------------------------------------------------------------------
// The whole
// ---------------------------------------------------------------------------

/// The rules of a request, and the masked copy of a Vue component.
pub struct RequestRules {
    pub parsed: ParsedCss,
    pub masked: Option<String>,
}

/// The model of [`RequestRules`].
pub struct RequestRulesModel {
    pub parsed: ParsedModel,
    pub masked: Option<Seq<char>>,
}

impl View for RequestRules {
    type V = RequestRulesModel;

    open spec fn view(&self) -> RequestRulesModel {
        RequestRulesModel { parsed: self.parsed@, masked: maybe(self.masked) }
    }
}

/// The masked copy of a Vue component.
pub open spec fn request_mask(request: RequestModel) -> Result<Option<Seq<char>>, HaltModel> {
    if request.sheet.vue_blocks.len() == 0 {
        Ok(None)
    } else {
        match masked(request.sheet.css_source, request.sheet.vue_blocks) {
            Ok(text) => Ok(Some(text)),
            Err(message) => Err(failed(message)),
        }
    }
}

/// The rules as they are read.
pub open spec fn read_request_rules(know: KnowledgeModel, request: RequestModel) -> Result<ParsedModel, HaltModel> {
    if request.sheet.vue_blocks.len() == 0 {
        plain_rules(know, request)
    } else {
        match vue_rules(know, request.sheet, request.sheet.vue_blocks.len() as int) {
            Err(halt) => Err(halt),
            Ok((rules, _)) => Ok(ParsedModel { rules, keyframes: seq![], global_at_rules: seq![] }),
        }
    }
}

/// Which files and elements contest the rules of a request.
pub open spec fn request_contest(request: RequestModel) -> ContestModel {
    ContestModel {
        files: request.files,
        css_path: request.sheet.css_path,
        vue_module: request.sheet.vue_module,
    }
}

/// The rules of a Vue component once its rivals are known. A removable Vue
/// rule is unlayered and can outrank non-scoped CSS that a layered Tailwind
/// utility would lose to.
pub open spec fn shadow_stamped(know: KnowledgeModel, request: RequestModel, rules: Seq<RuleModel>) -> Seq<RuleModel> {
    let at = request_contest(request);
    let shadow = indexed(know.shadows, request.sheet.vue_shadow_css, request.sheet.vue_shadow_module_css);
    let unverifiable = request.sheet.vue_shadow_unverifiable || shadow.unverifiable;
    shadow_settled(
        know.shadows,
        at,
        seq![],
        rules.map_values(|rule: RuleModel| package_stamped(at, shadow, unverifiable, rule)),
    )
}

/// The rules of a request, stamped and prefixed.
pub open spec fn finished_rules(know: KnowledgeModel, request: RequestModel, rules: Seq<RuleModel>) -> Seq<RuleModel> {
    let partial = if request.sheet.is_partial {
        rules.map_values(|rule: RuleModel| rule.warned("shared-preprocessor-source"@))
    } else {
        rules
    };
    let shadowed = if request.sheet.vue_blocks.len() > 0 && sheet_is_module(request.sheet) {
        shadow_stamped(know, request, partial)
    } else {
        partial
    };
    match request.settings.utility_prefix {
        Some(prefix) => if prefix.len() > 0 {
            shadowed.map_values(|rule: RuleModel| rule_prefixed(rule, prefix))
        } else {
            shadowed
        },
        None => shadowed,
    }
}

/// The rules of a request.
pub open spec fn request_rules(know: KnowledgeModel, request: RequestModel) -> Result<RequestRulesModel, HaltModel> {
    match request_mask(request) {
        Err(halt) => Err(halt),
        Ok(mask) => match read_request_rules(know, request) {
            Err(halt) => Err(halt),
            Ok(parsed) => Ok(
                RequestRulesModel {
                    parsed: ParsedModel { rules: finished_rules(know, request, parsed.rules), ..parsed },
                    masked: mask,
                },
            ),
        },
    }
}

fn stamp_shadows(know: &Knowledge, request: &PlanRequest, rules: &mut Vec<RulePlan>)
    ensures
        views(final(rules)@) == shadow_stamped(know@, request@, views(old(rules)@)),
{
    let at = Contest {
        files: &request.files,
        css_path: request.sheet.css_path.as_str(),
        vue_module: request.sheet.vue_module,
    };
    let shadow = index_shadow_selectors(
        &know.shadows,
        &request.sheet.vue_shadow_css,
        &request.sheet.vue_shadow_module_css,
    );
    let unverifiable = request.sheet.vue_shadow_unverifiable || shadow.unverifiable;
    stamp_package_shadow(&at, &shadow, unverifiable, rules);
    let none: Vec<crate::rules::RuleId> = Vec::new();
    assert(none@ =~= Seq::empty());
    stamp_in_file_shadow(&know.shadows, &at, &none, rules);
}

/// Shared head of the candidate-map and main planning passes: derive the
/// request flags, read the stylesheet, and apply the utility prefix, so
/// rule-selection behavior cannot silently diverge between the two paths.
pub fn parse_request_rules(know: &Knowledge, request: &PlanRequest) -> (result: Result<RequestRules, Halt>)
    ensures
        match request_rules(know@, request@) {
            Ok(model) => result matches Ok(found) && found@ == model,
            Err(model) => result matches Err(halt) && halt@ == model,
        },
{
    assert(request@.sheet.vue_blocks.len() == request.sheet.vue_blocks@.len());
    let mut mask: Option<String> = None;
    let parsed = if request.sheet.vue_blocks.len() == 0 {
        match read_plain_rules(know, request) {
            Ok(parsed) => parsed,
            Err(halt) => {
                return Err(halt);
            },
        }
    } else {
        match mask_vue_source(request.sheet.css_source.as_str(), &request.sheet.vue_blocks) {
            Ok(text) => {
                mask = Some(text);
            },
            Err(message) => {
                return Err(fail(message));
            },
        }
        match parse_vue_rules(know, request) {
            Ok(rules) => {
                let keyframes: Vec<KeyframePlan> = Vec::new();
                let globals: Vec<GlobalAtRulePlan> = Vec::new();
                assert(views(keyframes@) =~= Seq::empty());
                assert(views(globals@) =~= Seq::empty());
                ParsedCss { rules, keyframes, global_at_rules: globals }
            },
            Err(halt) => {
                return Err(halt);
            },
        }
    };
    let mut rules = parsed.rules;
    if request.sheet.is_partial {
        stamp_all(&mut rules, "shared-preprocessor-source");
    }
    if request.sheet.vue_blocks.len() > 0 && is_module_sheet(&request.sheet) {
        stamp_shadows(know, request, &mut rules);
    }
    if let Some(prefix) = &request.settings.utility_prefix {
        if !prefix.as_str().is_empty() {
            prefix_rule_candidates(&mut rules, prefix.as_str());
        }
    }
    Ok(
        RequestRules {
            parsed: ParsedCss { rules, keyframes: parsed.keyframes, global_at_rules: parsed.global_at_rules },
            masked: mask,
        },
    )
}

} // verus!
