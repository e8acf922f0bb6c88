//! CSS-side planning: read rules, build candidates, and classify selectors.
use crate::animations::{animation_candidate, animation_of, keyframe_plan, keyframes_of, KeyframeModel, KeyframePlan};
use crate::arbitrary::{encode, encoding};
use crate::css::{
    block_statements, condition_warning, css_span, find_condition, get_block_statements, get_css_span, get_span_in,
    has_block, ident_name, in_block, is_present, lemma_block_inside, literal_ident, optional_css_span, parse_css,
    present, read_css, rule_spans, span_in, ConditionalModels, Conditionals, Halt, HaltModel, Parse, ParseModel,
    RuleSpans, StylesheetSyntax,
};
use crate::duplicate::Duplicate;
use crate::errors::ErrorKind;
use crate::jsx_extract::{first, get_first, is_text};
use crate::names::{insert_name, insert_names, with_name, with_names};
use crate::number::{entry_of, find_entry, pairs_of};
use crate::plan::{Conflicts, do_lists_conflict, lists_conflict};
use crate::rules::{property_models, warn_rule, Properties, PropertyModels, RuleModel, RulePlan};
use crate::selector::{KeyModel, SelectorKey};
use crate::syntax::{field, get, get_items, is_kind, items, of_kind};
use crate::text::{
    begins, copy, copy_cut, copy_texts, cut, from_chars, join, joined, list_has, maybe, maybe_texts, maybe_view, same,
    split_words, starts_with, texts, to_chars, trim, trimmed, views, words, Separator,
};
use crate::tree::{lemma_list_model, list_model, tree_model, Tree, TreeModel};
use vstd::prelude::*;

verus! {

// ---------------------------------------------------------------------------
// What is known of declarations and at-rules
// ---------------------------------------------------------------------------

/// The utility for a declaration, or the warning for one that has none.
#[derive(Debug)]
pub struct Declared {
    pub property: String,
    pub value: String,
    pub outcome: Result<String, String>,
}

/// The model of [`Declared`].
pub struct DeclaredModel {
    pub property: Seq<char>,
    pub value: Seq<char>,
    pub outcome: Result<Seq<char>, Seq<char>>,
}

impl View for Declared {
    type V = DeclaredModel;

    open spec fn view(&self) -> DeclaredModel {
        DeclaredModel {
            property: self.property@,
            value: self.value@,
            outcome: match self.outcome {
                Ok(candidate) => Ok(candidate@),
                Err(code) => Err(code@),
            },
        }
    }
}

/// What a declaration does to the margins and paddings of its block.
#[derive(Clone, Copy, PartialEq, Eq, Structural, Debug)]
pub enum Spaced {
    /// It is one of them, and is summed up with the others.
    Taken,
    /// It overlaps one of them.
    Overlaps,
    /// It is none of them.
    Other,
}

/// The margins and paddings of a block that declares some.
#[derive(Debug)]
pub struct Spacing {
    /// The text of the block.
    pub css: String,
    /// What each statement does.
    pub results: Vec<Spaced>,
    /// The utilities for the margins, where there are any.
    pub margin: Option<Vec<String>>,
    /// The utilities for the paddings, where there are any.
    pub padding: Option<Vec<String>>,
}

/// The model of a [`Spacing`].
pub struct SpacingModel {
    pub css: Seq<char>,
    pub results: Seq<Spaced>,
    pub margin: Option<Seq<Seq<char>>>,
    pub padding: Option<Seq<Seq<char>>>,
}

impl View for Spacing {
    type V = SpacingModel;

    open spec fn view(&self) -> SpacingModel {
        SpacingModel {
            css: self.css@,
            results: self.results@,
            margin: maybe_texts(self.margin),
            padding: maybe_texts(self.padding),
        }
    }
}

/// A global at-rule that can move to the Tailwind entry.
#[derive(Debug)]
pub struct MovableAtRule {
    /// The text of the at-rule.
    pub css: String,
    /// It moves only where its relative URLs stay the same.
    pub stable_urls_only: bool,
}

/// The model of a [`MovableAtRule`].
pub struct MovableModel {
    pub css: Seq<char>,
    pub stable_urls_only: bool,
}

impl View for MovableAtRule {
    type V = MovableModel;

    open spec fn view(&self) -> MovableModel {
        MovableModel { css: self.css@, stable_urls_only: self.stable_urls_only }
    }
}

/// What is known of declarations and at-rules.
pub struct Converter {
    pub conditionals: Conditionals,
    /// The variant for each conditional at-rule, by its text before the block.
    pub variants: Vec<(String, String)>,
    pub declarations: Vec<Declared>,
    pub spacings: Vec<Spacing>,
    pub movable: Vec<MovableAtRule>,
}

/// The model of a [`Converter`].
pub struct ConverterModel {
    pub conditionals: ConditionalModels,
    pub variants: Seq<(Seq<char>, Seq<char>)>,
    pub declarations: Seq<DeclaredModel>,
    pub spacings: Seq<SpacingModel>,
    pub movable: Seq<MovableModel>,
}

impl View for Converter {
    type V = ConverterModel;

    open spec fn view(&self) -> ConverterModel {
        ConverterModel {
            conditionals: pairs_of(self.conditionals@),
            variants: pairs_of(self.variants@),
            declarations: views(self.declarations@),
            spacings: views(self.spacings@),
            movable: views(self.movable@),
        }
    }
}

/// The utility for a declaration from entry `i` on; a declaration that no
/// entry describes has none.
pub open spec fn declared_from(list: Seq<DeclaredModel>, property: Seq<char>, value: Seq<char>, i: int) -> Result<
    Seq<char>,
    Seq<char>,
>
    decreases list.len() - i,
{
    if i < 0 || i >= list.len() {
        Err("unsupported-declaration"@)
    } else if list[i].property == property && list[i].value == value {
        list[i].outcome
    } else {
        declared_from(list, property, value, i + 1)
    }
}

fn find_declared_candidate(list: &Vec<Declared>, property: &str, value: &str) -> (result: Result<String, String>)
    ensures
        match declared_from(views(list@), property@, value@, 0) {
            Ok(model) => result matches Ok(candidate) && candidate@ == model,
            Err(model) => result matches Err(code) && code@ == model,
        },
{
    let mut i: usize = 0;
    while i < list.len()
        invariant
            i <= list@.len(),
            declared_from(views(list@), property@, value@, i as int) == declared_from(
                views(list@),
                property@,
                value@,
                0,
            ),
        decreases list.len() - i,
    {
        let entry = &list[i];
        assert(views(list@)[i as int] == entry@);
        if same(entry.property.as_str(), property) && same(entry.value.as_str(), value) {
            return match &entry.outcome {
                Ok(candidate) => Ok(copy(candidate.as_str())),
                Err(code) => Err(copy(code.as_str())),
            };
        }
        i += 1;
    }
    Err("unsupported-declaration".to_owned())
}

/// A block without margins and paddings.
pub open spec fn no_spacing(css: Seq<char>) -> SpacingModel {
    SpacingModel { css, results: seq![], margin: Some(seq![]), padding: Some(seq![]) }
}

/// The margins and paddings of a block from entry `i` on.
pub open spec fn spacing_from(list: Seq<SpacingModel>, css: Seq<char>, i: int) -> SpacingModel
    decreases list.len() - i,
{
    if i < 0 || i >= list.len() {
        no_spacing(css)
    } else if list[i].css == css {
        list[i]
    } else {
        spacing_from(list, css, i + 1)
    }
}

fn find_spacing<'a>(list: &'a Vec<Spacing>, css: &str) -> (result: Option<&'a Spacing>)
    ensures
        match result {
            Some(spacing) => spacing@ == spacing_from(views(list@), css@, 0),
            None => spacing_from(views(list@), css@, 0) == no_spacing(css@),
        },
{
    let mut i: usize = 0;
    while i < list.len()
        invariant
            i <= list@.len(),
            spacing_from(views(list@), css@, i as int) == spacing_from(views(list@), css@, 0),
        decreases list.len() - i,
    {
        assert(views(list@)[i as int] == list@[i as int]@);
        if same(list[i].css.as_str(), css) {
            return Some(&list[i]);
        }
        i += 1;
    }
    None
}

/// What the `n`-th statement of a block does.
pub open spec fn spaced_at(spacing: SpacingModel, n: int) -> Spaced {
    if 0 <= n < spacing.results.len() {
        spacing.results[n]
    } else {
        Spaced::Other
    }
}

// ---------------------------------------------------------------------------
// Declarations
// ---------------------------------------------------------------------------

/// The stylesheet that rules are read from.
pub struct SheetTextModel {
    pub source: Seq<char>,
    pub is_module: bool,
    pub keyframes: Seq<KeyframeModel>,
    pub converter: ConverterModel,
}

/// The text without the semicolons at its end.
pub open spec fn without_semicolons(text: Seq<char>) -> Seq<char>
    decreases text.len(),
{
    if text.len() > 0 && text.last() == ';' {
        without_semicolons(text.drop_last())
    } else {
        text
    }
}

fn drop_semicolons(text: &str) -> (result: String)
    ensures
        result@ == without_semicolons(text@),
{
    let chars = to_chars(text);
    let mut end: usize = chars.len();
    assert(chars@.take(end as int) =~= chars@);
    while end > 0 && chars[end - 1] == ';'
        invariant
            end <= chars@.len(),
            without_semicolons(chars@.take(end as int)) == without_semicolons(chars@),
        decreases end,
    {
        assert(chars@.take(end as int).drop_last() =~= chars@.take(end - 1));
        end -= 1;
    }
    let result = from_chars(&chars, 0, end);
    assert(result@ =~= chars@.take(end as int));
    result
}

/// The text between two offsets; nothing where they are no offsets of the
/// source.
pub open spec fn part(source: Seq<char>, start: int, end: int) -> Seq<char> {
    match cut(source, start, end) {
        Some(text) => text,
        None => seq![],
    }
}

/// The text between two offsets; none where they cut a character.
pub fn copy_part(source: &str, start: usize, end: usize) -> (result: String)
    ensures
        result@ == part(source@, start as int, end as int),
{
    match copy_cut(source, start, end) {
        Some(text) => text,
        None => String::new(),
    }
}

/// The value of a declaration as it is written.
pub open spec fn written_value(source: Seq<char>, declaration: TreeModel) -> Seq<char> {
    let text = part(source, span_in(declaration, "colonSpan"@).1 as int, css_span(declaration).1 as int);
    trimmed(without_semicolons(trimmed(text, Separator::Whitespace)), Separator::Whitespace)
}

fn declaration_value(source: &str, declaration: &Tree) -> (result: String)
    ensures
        result@ == written_value(source@, declaration@),
{
    let text = copy_part(source, get_span_in(declaration, "colonSpan").1, get_css_span(declaration).1);
    let value = drop_semicolons(trim(text.as_str(), Separator::Whitespace).as_str());
    trim(value.as_str(), Separator::Whitespace)
}

/// What an at-rule says before its block.
pub open spec fn at_header(source: Seq<char>, at_rule: TreeModel) -> Seq<char> {
    let span = css_span(at_rule);
    let end = if has_block(at_rule) {
        css_span(field(at_rule, "block"@)).0
    } else {
        span.1
    };
    trimmed(part(source, span.0 as int, end as int), Separator::Whitespace)
}

fn write_at_header(source: &str, at_rule: &Tree) -> (result: String)
    ensures
        result@ == at_header(source@, at_rule@),
{
    let span = get_css_span(at_rule);
    let block = get(at_rule, "block");
    let end = if is_present(block) {
        optional_css_span(block).0
    } else {
        span.1
    };
    trim(copy_part(source, span.0, end).as_str(), Separator::Whitespace)
}

/// The variant for a conditional at-rule with a block.
pub open spec fn condition_variant(at: SheetTextModel, at_rule: TreeModel) -> Option<Seq<char>> {
    if condition_warning(at.converter.conditionals, at_rule) is Some && has_block(at_rule) {
        entry_of(at.converter.variants, at_header(at.source, at_rule))
    } else {
        None
    }
}

/// The stylesheet that rules are read from.
pub struct SheetText<'a> {
    pub source: &'a str,
    pub is_module: bool,
    pub keyframes: &'a Vec<KeyframePlan>,
    pub converter: &'a Converter,
}

impl<'a> View for SheetText<'a> {
    type V = SheetTextModel;

    open spec fn view(&self) -> SheetTextModel {
        SheetTextModel {
            source: self.source@,
            is_module: self.is_module,
            keyframes: views(self.keyframes@),
            converter: self.converter@,
        }
    }
}

fn find_variant<'a>(at: &SheetText<'a>, at_rule: &Tree) -> (result: Option<String>)
    ensures
        maybe(result) == condition_variant(at@, at_rule@),
{
    if find_condition(&at.converter.conditionals, at_rule).is_none() || !is_present(get(at_rule, "block")) {
        return None;
    }
    match find_entry(&at.converter.variants, write_at_header(at.source, at_rule).as_str()) {
        Some(variant) => Some(copy(variant.as_str())),
        None => None,
    }
}

/// Candidates with the properties that one of them sets, from entry `i` on.
pub open spec fn merged_from(
    list: PropertyModels,
    candidate: Seq<char>,
    properties: Seq<Seq<char>>,
    i: int,
) -> PropertyModels
    decreases list.len() - i,
{
    if i < 0 || i >= list.len() {
        list.push((candidate, with_names(seq![], properties)))
    } else if list[i].0 == candidate {
        list.update(i, (candidate, with_names(list[i].1, properties)))
    } else {
        merged_from(list, candidate, properties, i + 1)
    }
}

fn merge_candidate(list: &mut Properties, candidate: &str, properties: &Vec<String>)
    ensures
        property_models(final(list)@) == merged_from(
            property_models(old(list)@),
            candidate@,
            texts(properties@),
            0,
        ),
{
    let ghost start = property_models(list@);
    let mut i: usize = 0;
    while i < list.len()
        invariant
            i <= list@.len(),
            property_models(list@) == start,
            start == property_models(old(list)@),
            merged_from(start, candidate@, texts(properties@), i as int) == merged_from(
                start,
                candidate@,
                texts(properties@),
                0,
            ),
        decreases list.len() - i,
    {
        assert(start[i as int] == (list@[i as int].0@, texts(list@[i as int].1@)));
        if same(list[i].0.as_str(), candidate) {
            let mut names = copy_texts(&list[i].1);
            insert_names(&mut names, properties);
            list[i].1 = names;
            assert(property_models(list@) =~= start.update(
                i as int,
                (candidate@, with_names(start[i as int].1, texts(properties@))),
            ));
            return;
        }
        i += 1;
    }
    let mut names: Vec<String> = Vec::new();
    assert(texts(names@) =~= Seq::empty());
    insert_names(&mut names, properties);
    list.push((copy(candidate), names));
    assert(property_models(list@) =~= start.push((candidate@, with_names(seq![], texts(properties@)))));
}

/// The first `n` of `more` merged into candidates.
pub open spec fn all_merged(list: PropertyModels, more: PropertyModels, n: int) -> PropertyModels
    decreases n,
{
    if n <= 0 {
        list
    } else {
        merged_from(all_merged(list, more, n - 1), more[n - 1].0, more[n - 1].1, 0)
    }
}

fn merge_all(list: &mut Properties, more: &Properties)
    ensures
        property_models(final(list)@) == all_merged(
            property_models(old(list)@),
            property_models(more@),
            more@.len() as int,
        ),
{
    let ghost start = property_models(list@);
    let mut n: usize = 0;
    while n < more.len()
        invariant
            n <= more@.len(),
            property_models(list@) == all_merged(start, property_models(more@), n as int),
        decreases more.len() - n,
    {
        assert(property_models(more@)[n as int] == (more@[n as int].0@, texts(more@[n as int].1@)));
        merge_candidate(list, more[n].0.as_str(), &more[n].1);
        n += 1;
    }
}

/// The first `n` candidates merged, each with the same properties.
pub open spec fn merged_with(
    list: PropertyModels,
    candidates: Seq<Seq<char>>,
    properties: Seq<Seq<char>>,
    n: int,
) -> PropertyModels
    decreases n,
{
    if n <= 0 {
        list
    } else {
        merged_from(merged_with(list, candidates, properties, n - 1), candidates[n - 1], properties, 0)
    }
}

fn merge_with(list: &mut Properties, candidates: &Vec<String>, properties: &Vec<String>)
    ensures
        property_models(final(list)@) == merged_with(
            property_models(old(list)@),
            texts(candidates@),
            texts(properties@),
            candidates@.len() as int,
        ),
{
    let ghost start = property_models(list@);
    let mut n: usize = 0;
    while n < candidates.len()
        invariant
            n <= candidates@.len(),
            property_models(list@) == merged_with(start, texts(candidates@), texts(properties@), n as int),
        decreases candidates.len() - n,
    {
        assert(texts(candidates@)[n as int] == candidates@[n as int]@);
        merge_candidate(list, candidates[n].as_str(), properties);
        n += 1;
    }
}

/// A candidate for each property, from entry `i` on: CSS keeps the last of
/// duplicate same-property declarations, so a later declaration replaces the
/// candidate of an earlier one.
pub open spec fn last_wins_from(
    list: Seq<(Seq<char>, Seq<char>)>,
    property: Seq<char>,
    candidate: Seq<char>,
    i: int,
) -> Seq<(Seq<char>, Seq<char>)>
    decreases list.len() - i,
{
    if i < 0 || i >= list.len() {
        list.push((candidate, property))
    } else if list[i].1 == property {
        list.update(i, (candidate, property))
    } else {
        last_wins_from(list, property, candidate, i + 1)
    }
}

fn push_last_wins(list: &mut Vec<(String, String)>, property: &str, candidate: String)
    ensures
        pairs_of(final(list)@) == last_wins_from(pairs_of(old(list)@), property@, candidate@, 0),
{
    let ghost start = pairs_of(list@);
    let mut i: usize = 0;
    while i < list.len()
        invariant
            i <= list@.len(),
            pairs_of(list@) == start,
            start == pairs_of(old(list)@),
            last_wins_from(start, property@, candidate@, i as int) == last_wins_from(
                start,
                property@,
                candidate@,
                0,
            ),
        decreases list.len() - i,
    {
        assert(start[i as int] == (list@[i as int].0@, list@[i as int].1@));
        if same(list[i].1.as_str(), property) {
            let ghost model = candidate@;
            list[i].0 = candidate;
            assert(pairs_of(list@) =~= start.update(i as int, (model, property@)));
            return;
        }
        i += 1;
    }
    let ghost model = candidate@;
    list.push((candidate, copy(property)));
    assert(pairs_of(list@) =~= start.push((model, property@)));
}

/// What the declarations of a block have come to.
pub struct GatheredModel {
    pub candidates: PropertyModels,
    /// Candidates and their properties, in the order of the block.
    pub local: Seq<(Seq<char>, Seq<char>)>,
    pub margins: Seq<Seq<char>>,
    pub paddings: Seq<Seq<char>>,
    pub warning: Option<Seq<char>>,
}

/// Nothing yet.
pub open spec fn nothing_gathered() -> GatheredModel {
    GatheredModel { candidates: seq![], local: seq![], margins: seq![], paddings: seq![], warning: None }
}

impl GatheredModel {
    pub open spec fn warned(self, code: Seq<char>) -> GatheredModel {
        GatheredModel { warning: Some(code), ..self }
    }

    pub open spec fn winning(self, property: Seq<char>, candidate: Seq<char>) -> GatheredModel {
        GatheredModel { local: last_wins_from(self.local, property, candidate, 0), ..self }
    }
}

/// The property is one of the margins.
pub open spec fn margin_property(property: Seq<char>) -> bool {
    property == "margin"@ || begins(property, "margin-"@)
}

/// The property is one of the margins or paddings.
pub open spec fn spacing_property(property: Seq<char>) -> bool {
    margin_property(property) || property == "padding"@ || begins(property, "padding-"@)
}

fn is_spacing_property(property: &str) -> (result: bool)
    ensures
        result == spacing_property(property@),
{
    same(property, "margin") || starts_with(property, "margin-") || same(property, "padding") || starts_with(
        property,
        "padding-",
    )
}

/// The statement declares a margin or a padding.
pub open spec fn declares_spacing(statement: TreeModel) -> bool {
    of_kind(statement, "Declaration"@) && (ident_name(field(statement, "name"@)) matches Some(property)
        && spacing_property(property))
}

/// One of the statements declares a margin or a padding.
pub open spec fn any_spacing(statements: Seq<TreeModel>) -> bool {
    exists|i: int| 0 <= i < statements.len() && declares_spacing(#[trigger] statements[i])
}

fn does_declare_spacing(statement: &Tree) -> (result: bool)
    ensures
        result == declares_spacing(statement@),
{
    if !is_kind(statement, "Declaration") {
        return false;
    }
    match literal_ident(get(statement, "name")) {
        Some(property) => is_spacing_property(property.as_str()),
        None => false,
    }
}

fn has_spacing(owner: &Tree) -> (result: bool)
    ensures
        result == any_spacing(block_statements(owner@)),
{
    let ghost models = block_statements(owner@);
    match get_block_statements(owner) {
        None => false,
        Some(statements) => {
            proof {
                lemma_list_model(statements@, statements@.len());
            }
            let mut n: usize = 0;
            while n < statements.len()
                invariant
                    n <= statements@.len(),
                    models == block_statements(owner@),
                    models.len() == statements@.len(),
                    forall|k: int| 0 <= k < statements@.len() ==> #[trigger] models[k] == tree_model(statements@[k]),
                    forall|k: int| 0 <= k < n ==> !declares_spacing(#[trigger] models[k]),
                decreases statements.len() - n,
            {
                assert(models[n as int] == tree_model(statements@[n as int]));
                if does_declare_spacing(&statements[n]) {
                    assert(declares_spacing(models[n as int]));
                    return true;
                }
                n += 1;
            }
            false
        },
    }
}

/// What a declaration adds.
pub open spec fn with_declaration(
    at: SheetTextModel,
    declaration: TreeModel,
    spaced: Spaced,
    known: GatheredModel,
) -> GatheredModel {
    let value = written_value(at.source, declaration);
    if present(field(declaration, "important"@)) {
        known.warned("unsupported-important"@)
    } else {
        match ident_name(field(declaration, "name"@)) {
            None => known.warned("unsupported-declaration"@),
            Some(property) => if property == "composes"@ {
                known.warned("css-module-composes"@)
            } else if at.is_module && (property == "animation"@ || property == "animation-name"@) {
                match animation_of(property, value, at.keyframes) {
                    Some(candidate) => known.winning(property, candidate),
                    None => known.warned("unsupported-animation"@),
                }
            } else {
                match (if spacing_property(property) {
                    spaced
                } else {
                    Spaced::Other
                }) {
                    Spaced::Taken => if margin_property(property) {
                        GatheredModel { margins: with_name(known.margins, property), ..known }
                    } else {
                        GatheredModel { paddings: with_name(known.paddings, property), ..known }
                    },
                    Spaced::Overlaps => known.warned("unsupported-overlap"@),
                    Spaced::Other => match declared_from(at.converter.declarations, property, value, 0) {
                        Ok(candidate) => known.winning(property, candidate),
                        Err(code) => known.warned(code),
                    },
                }
            },
        }
    }
}

/// The candidates behind the variants.
pub open spec fn varied(candidates: PropertyModels, variants: Seq<Seq<char>>) -> PropertyModels {
    if variants.len() == 0 {
        candidates
    } else {
        candidates.map_values(
            |entry: (Seq<char>, Seq<Seq<char>>)| (joined(variants, ":"@) + ":"@ + entry.0, entry.1),
        )
    }
}

/// The first `n` local candidates merged.
pub open spec fn local_merged(list: PropertyModels, local: Seq<(Seq<char>, Seq<char>)>, n: int) -> PropertyModels
    decreases n,
{
    if n <= 0 {
        list
    } else {
        merged_from(local_merged(list, local, n - 1), local[n - 1].0, seq![local[n - 1].1], 0)
    }
}

/// The utilities for margins or paddings merged, where there are any.
pub open spec fn spacing_merged(
    known: GatheredModel,
    candidates: Option<Seq<Seq<char>>>,
    properties: Seq<Seq<char>>,
) -> GatheredModel {
    match candidates {
        Some(list) => GatheredModel {
            candidates: merged_with(known.candidates, list, properties, list.len() as int),
            ..known
        },
        None => known.warned("unsupported-value"@),
    }
}

/// The candidates of a block, and the warning for what has none.
pub open spec fn block_candidates(known: GatheredModel, spacing: SpacingModel, variants: Seq<Seq<char>>) -> (
    PropertyModels,
    Option<Seq<char>>,
) {
    let margins = spacing_merged(known, spacing.margin, known.margins);
    let paddings = spacing_merged(margins, spacing.padding, known.paddings);
    let list = varied(local_merged(paddings.candidates, known.local, known.local.len() as int), variants);
    (
        list,
        if list.len() == 0 && paddings.warning is None {
            Some("unsupported-declaration"@)
        } else {
            paddings.warning
        },
    )
}

/// The margins and paddings of a node's block, where it declares any.
pub open spec fn block_spacing(at: SheetTextModel, owner: TreeModel) -> SpacingModel {
    let span = css_span(field(owner, "block"@));
    if any_spacing(block_statements(owner)) {
        spacing_from(at.converter.spacings, part(at.source, span.0 as int, span.1 as int), 0)
    } else {
        no_spacing(seq![])
    }
}

/// The statement lies inside the node.
pub open spec fn stands_in(owner: TreeModel, statement: TreeModel) -> bool {
    decreases_to!(owner => statement)
}

pub proof fn lemma_stands_in(owner: TreeModel, i: int)
    requires
        0 <= i < block_statements(owner).len(),
    ensures
        stands_in(owner, block_statements(owner)[i]),
{
    crate::syntax::lemma_field_smaller(owner, "block"@);
    let block = field(owner, "block"@);
    crate::syntax::lemma_field_smaller(block, "statements"@);
    let list = field(block, "statements"@);
    assert(list is List);
    assert(decreases_to!(list => list->List_0));
    assert(decreases_to!(list->List_0 => (list->List_0)[i]));
    assert(block != TreeModel::Null) by {
        assert(field(TreeModel::Null, "statements"@) == TreeModel::Null);
    }
}

/// What the first `n` statements of a node's block come to.
pub open spec fn gathered(at: SheetTextModel, owner: TreeModel, variants: Seq<Seq<char>>, n: nat) -> GatheredModel
    decreases owner, n,
{
    if n == 0 || n > block_statements(owner).len() {
        nothing_gathered()
    } else {
        let known = gathered(at, owner, variants, (n - 1) as nat);
        let statement = block_statements(owner)[n - 1];
        if of_kind(statement, "AtRule"@) {
            match condition_variant(at, statement) {
                None => known.warned("unsupported-rule-content"@),
                Some(variant) => if stands_in(owner, statement) {
                    let inner_variants = variants.push(variant);
                    let inside = block_candidates(
                        gathered(at, statement, inner_variants, block_statements(statement).len()),
                        block_spacing(at, statement),
                        inner_variants,
                    );
                    GatheredModel {
                        candidates: all_merged(known.candidates, inside.0, inside.0.len() as int),
                        warning: match inside.1 {
                            Some(code) => Some(code),
                            None => known.warning,
                        },
                        ..known
                    }
                } else {
                    known
                },
            }
        } else if of_kind(statement, "Declaration"@) {
            with_declaration(at, statement, spaced_at(block_spacing(at, owner), n - 1), known)
        } else {
            known.warned("unsupported-rule-content"@)
        }
    }
}

/// The candidates of a node's block behind the variants, and the warning for
/// what has none.
pub open spec fn candidates_in(at: SheetTextModel, owner: TreeModel, variants: Seq<Seq<char>>) -> (
    PropertyModels,
    Option<Seq<char>>,
) {
    block_candidates(
        gathered(at, owner, variants, block_statements(owner).len()),
        block_spacing(at, owner),
        variants,
    )
}

struct Gathered {
    candidates: Properties,
    local: Vec<(String, String)>,
    margins: Vec<String>,
    paddings: Vec<String>,
    warning: Option<String>,
}

impl View for Gathered {
    type V = GatheredModel;

    closed spec fn view(&self) -> GatheredModel {
        GatheredModel {
            candidates: property_models(self.candidates@),
            local: pairs_of(self.local@),
            margins: texts(self.margins@),
            paddings: texts(self.paddings@),
            warning: maybe(self.warning),
        }
    }
}

fn note_declaration<'a>(at: &SheetText<'a>, declaration: &Tree, spaced: Spaced, known: &mut Gathered)
    ensures
        final(known)@ == with_declaration(at@, declaration@, spaced, old(known)@),
{
    if is_present(get(declaration, "important")) {
        known.warning = Some("unsupported-important".to_owned());
        return;
    }
    let property = match literal_ident(get(declaration, "name")) {
        Some(property) => property.as_str(),
        None => {
            known.warning = Some("unsupported-declaration".to_owned());
            return;
        },
    };
    let value = declaration_value(at.source, declaration);
    if same(property, "composes") {
        known.warning = Some("css-module-composes".to_owned());
        return;
    }
    if at.is_module && (same(property, "animation") || same(property, "animation-name")) {
        match animation_candidate(property, value.as_str(), at.keyframes) {
            Some(candidate) => {
                push_last_wins(&mut known.local, property, candidate);
            },
            None => {
                known.warning = Some("unsupported-animation".to_owned());
            },
        }
        return;
    }
    let spaced = if is_spacing_property(property) {
        spaced
    } else {
        Spaced::Other
    };
    match spaced {
        Spaced::Taken => {
            if same(property, "margin") || starts_with(property, "margin-") {
                insert_name(&mut known.margins, property);
            } else {
                insert_name(&mut known.paddings, property);
            }
        },
        Spaced::Overlaps => {
            known.warning = Some("unsupported-overlap".to_owned());
        },
        Spaced::Other => {
            match find_declared_candidate(&at.converter.declarations, property, value.as_str()) {
                Ok(candidate) => {
                    push_last_wins(&mut known.local, property, candidate);
                },
                Err(code) => {
                    known.warning = Some(code);
                },
            }
        },
    }
}

fn vary(candidates: Properties, variants: &Vec<String>) -> (result: Properties)
    ensures
        property_models(result@) == varied(property_models(candidates@), texts(variants@)),
{
    assert(texts(variants@).len() == variants@.len());
    if variants.len() == 0 {
        return candidates;
    }
    let ghost goal = varied(property_models(candidates@), texts(variants@));
    let prefix = join(variants, ":");
    let mut result: Properties = Vec::new();
    let mut i: usize = 0;
    while i < candidates.len()
        invariant
            i <= candidates@.len(),
            goal == varied(property_models(candidates@), texts(variants@)),
            goal.len() == candidates@.len(),
            texts(variants@).len() > 0,
            prefix@ == joined(texts(variants@), ":"@),
            property_models(result@) == goal.take(i as int),
        decreases candidates.len() - i,
    {
        let ghost before = result@;
        assert(property_models(candidates@)[i as int] == (candidates@[i as int].0@, texts(candidates@[i as int].1@)));
        let mut text = copy(prefix.as_str());
        text.append(":");
        text.append(candidates[i].0.as_str());
        result.push((text, copy_texts(&candidates[i].1)));
        assert(property_models(result@) =~= property_models(before).push(goal[i as int]));
        i += 1;
        assert(property_models(result@) =~= goal.take(i as int));
    }
    assert(goal.take(i as int) =~= goal);
    result
}

fn merge_local(list: &mut Properties, local: &Vec<(String, String)>)
    ensures
        property_models(final(list)@) == local_merged(
            property_models(old(list)@),
            pairs_of(local@),
            local@.len() as int,
        ),
{
    let ghost start = property_models(list@);
    let mut n: usize = 0;
    while n < local.len()
        invariant
            n <= local@.len(),
            property_models(list@) == local_merged(start, pairs_of(local@), n as int),
        decreases local.len() - n,
    {
        assert(pairs_of(local@)[n as int] == (local@[n as int].0@, local@[n as int].1@));
        let mut names: Vec<String> = Vec::new();
        names.push(copy(local[n].1.as_str()));
        assert(texts(names@) =~= seq![local@[n as int].1@]);
        merge_candidate(list, local[n].0.as_str(), &names);
        n += 1;
    }
}

fn merge_spacing(known: &mut Gathered, candidates: Option<&Vec<String>>, properties: &Vec<String>)
    ensures
        final(known)@ == spacing_merged(
            old(known)@,
            match candidates {
                Some(list) => Some(texts(list@)),
                None => None,
            },
            texts(properties@),
        ),
{
    match candidates {
        Some(list) => {
            assert(texts(list@).len() == list@.len());
            merge_with(&mut known.candidates, list, properties);
        },
        None => {
            known.warning = Some("unsupported-value".to_owned());
        },
    }
}

fn finish_block(known: Gathered, spacing: Option<&Spacing>, variants: &Vec<String>) -> (result: (
    Properties,
    Option<String>,
))
    ensures
        ({
            let model = match spacing {
                Some(spacing) => spacing@,
                None => no_spacing(seq![]),
            };
            (property_models((result.0)@), maybe(result.1)) == block_candidates(known@, model, texts(variants@))
        }),
{
    let mut known = known;
    let margins = copy_texts(&known.margins);
    let paddings = copy_texts(&known.paddings);
    let none: Vec<String> = Vec::new();
    assert(texts(none@) =~= Seq::empty());
    let (margin, padding) = match spacing {
        Some(spacing) => (
            match &spacing.margin {
                Some(list) => Some(list),
                None => None,
            },
            match &spacing.padding {
                Some(list) => Some(list),
                None => None,
            },
        ),
        None => (Some(&none), Some(&none)),
    };
    merge_spacing(&mut known, margin, &margins);
    merge_spacing(&mut known, padding, &paddings);
    let mut list = known.candidates;
    merge_local(&mut list, &known.local);
    assert(pairs_of(known.local@).len() == known.local@.len());
    let list = vary(list, variants);
    assert(property_models(list@).len() == list@.len());
    let warning = if list.len() == 0 && known.warning.is_none() {
        Some("unsupported-declaration".to_owned())
    } else {
        known.warning
    };
    (list, warning)
}

fn find_block_spacing<'a, 'b>(at: &SheetText<'a>, owner: &'b Tree) -> (result: Option<&'a Spacing>)
    ensures
        match result {
            Some(spacing) => spacing@ == block_spacing(at@, owner@),
            None => exists|css: Seq<char>| block_spacing(at@, owner@) == #[trigger] no_spacing(css),
        },
{
    if !has_spacing(owner) {
        assert(block_spacing(at@, owner@) == no_spacing(seq![]));
        return None;
    }
    let span = optional_css_span(get(owner, "block"));
    let text = copy_part(at.source, span.0, span.1);
    let found = find_spacing(&at.converter.spacings, text.as_str());
    assert(found is None ==> block_spacing(at@, owner@) == no_spacing(text@));
    found
}

/// The candidates of a node's block behind the variants, and the warning for
/// what has none.
pub fn collect_declaration_candidates<'a>(at: &SheetText<'a>, owner: &Tree, variants: &Vec<String>) -> (result: (
    Properties,
    Option<String>,
))
    ensures
        (property_models((result.0)@), maybe(result.1)) == candidates_in(at@, owner@, texts(variants@)),
    decreases owner,
{
    let spacing = find_block_spacing(at, owner);
    let mut known = Gathered {
        candidates: Vec::new(),
        local: Vec::new(),
        margins: Vec::new(),
        paddings: Vec::new(),
        warning: None,
    };
    assert(known@.candidates =~= nothing_gathered().candidates);
    assert(known@.local =~= nothing_gathered().local);
    assert(known@.margins =~= nothing_gathered().margins);
    assert(known@.paddings =~= nothing_gathered().paddings);
    if let Some(statements) = get_block_statements(owner) {
        proof {
            lemma_list_model(statements@, statements@.len());
        }
        let ghost models = block_statements(owner@);
        let mut n: usize = 0;
        while n < statements.len()
            invariant
                n <= statements@.len(),
                decreases_to!(*owner => statements@),
                models == block_statements(owner@),
                models.len() == statements@.len(),
                forall|k: int| 0 <= k < statements@.len() ==> #[trigger] models[k] == tree_model(statements@[k]),
                match spacing {
                    Some(spacing) => spacing@ == block_spacing(at@, owner@),
                    None => exists|css: Seq<char>| block_spacing(at@, owner@) == #[trigger] no_spacing(css),
                },
                known@ == gathered(at@, owner@, texts(variants@), n as nat),
            decreases statements.len() - n,
        {
            assert(models[n as int] == tree_model(statements@[n as int]));
            let statement = &statements[n];
            assert(decreases_to!(statements@ => statements@[n as int]));
            proof {
                lemma_stands_in(owner@, n as int);
            }
            if is_kind(statement, "AtRule") {
                match find_variant(at, statement) {
                    None => {
                        known.warning = Some("unsupported-rule-content".to_owned());
                    },
                    Some(variant) => {
                        let mut inner_variants = copy_texts(variants);
                        let ghost outer = inner_variants@;
                        let ghost model = variant@;
                        inner_variants.push(variant);
                        assert(texts(inner_variants@) =~= texts(variants@).push(model));
                        let inside = collect_declaration_candidates(at, statement, &inner_variants);
                        assert(property_models((inside.0)@).len() == (inside.0)@.len());
                        merge_all(&mut known.candidates, &inside.0);
                        if inside.1.is_some() {
                            known.warning = inside.1;
                        }
                    },
                }
            } else if is_kind(statement, "Declaration") {
                let spaced = match spacing {
                    Some(spacing) => if n < spacing.results.len() {
                        spacing.results[n]
                    } else {
                        Spaced::Other
                    },
                    None => Spaced::Other,
                };
                note_declaration(at, statement, spaced, &mut known);
            } else {
                known.warning = Some("unsupported-rule-content".to_owned());
            }
            n += 1;
        }
    }
    finish_block(known, spacing, variants)
}

// ---------------------------------------------------------------------------
// Selectors
// ---------------------------------------------------------------------------

/// The class or id that a simple selector names.
pub open spec fn simple_key(simple: TreeModel) -> Option<KeyModel> {
    match ident_name(field(simple, "name"@)) {
        Some(name) => if of_kind(simple, "ClassSelector"@) {
            Some(KeyModel::Class(name))
        } else if of_kind(simple, "IdSelector"@) {
            Some(KeyModel::Id(name))
        } else {
            None
        },
        None => None,
    }
}

fn selector_key(simple: &Tree) -> (result: Option<SelectorKey>)
    ensures
        maybe_view(result) == simple_key(simple@),
{
    match literal_ident(get(simple, "name")) {
        Some(name) => if is_kind(simple, "ClassSelector") {
            Some(SelectorKey::Class(copy(name.as_str())))
        } else if is_kind(simple, "IdSelector") {
            Some(SelectorKey::Id(copy(name.as_str())))
        } else {
            None
        },
        None => None,
    }
}

/// The pseudo-classes that are variants under their own names.
pub open spec fn state_variant(name: Seq<char>) -> bool {
    ||| name == "active"@
    ||| name == "disabled"@
    ||| name == "focus"@
    ||| name == "focus-visible"@
    ||| name == "focus-within"@
    ||| name == "hover"@
    ||| name == "visited"@
}

fn is_state_variant(name: &str) -> (result: bool)
    ensures
        result == state_variant(name@),
{
    same(name, "active") || same(name, "disabled") || same(name, "focus") || same(name, "focus-visible") || same(
        name,
        "focus-within",
    ) || same(name, "hover") || same(name, "visited")
}

/// The variant that puts a whole selector round its target. The target simple
/// selector is replaced by its parsed span: its name may recur in the text.
pub open spec fn arbitrary_variant(rule: TreeModel, source: Seq<char>, compound: TreeModel) -> Option<Seq<char>> {
    let target = first(items(compound, "children"@));
    let span = css_span(field(rule, "selector"@));
    let place = css_span(target);
    match (
        simple_key(target),
        cut(source, span.0 as int, place.0 as int),
        cut(source, place.1 as int, span.1 as int),
    ) {
        (Some(_), Some(head), Some(tail)) => Some("["@ + encoding(head + "&"@ + tail) + "]"@),
        _ => None,
    }
}

fn arbitrary_selector_variant(rule: &Tree, source: &str, compound: &Tree) -> (result: Option<String>)
    ensures
        maybe(result) == arbitrary_variant(rule@, source@, compound@),
{
    let target = match get_first(get_items(compound, "children")) {
        Some(target) => target,
        None => {
            assert(simple_key(TreeModel::Null) is None) by {
                assert(field(TreeModel::Null, "name"@) == TreeModel::Null);
                assert(ident_name(TreeModel::Null) is None);
            }
            return None;
        },
    };
    let span = optional_css_span(get(rule, "selector"));
    let place = get_css_span(target);
    match (selector_key(target), copy_cut(source, span.0, place.0), copy_cut(source, place.1, span.1)) {
        (Some(_), Some(head), Some(tail)) => {
            let mut condition = head;
            condition.append("&");
            condition.append(tail.as_str());
            let mut variant = "[".to_owned();
            variant.append(encode(condition.as_str()).as_str());
            variant.append("]");
            Some(variant)
        },
        _ => None,
    }
}

/// The key of a compound selector and the variant for the rest of it.
pub open spec fn compound_match(rule: TreeModel, source: Seq<char>, is_module: bool, compound: TreeModel) -> Option<
    (KeyModel, Option<Seq<char>>),
> {
    let simples = items(compound, "children"@);
    match simple_key(first(simples)) {
        None => None,
        Some(key) => if simples.len() == 1 {
            Some((key, None))
        } else if simples.len() == 2 && of_kind(simples[1], "PseudoClassSelector"@) && !present(
            field(simples[1], "arg"@),
        ) {
            match ident_name(field(simples[1], "name"@)) {
                Some(name) => if state_variant(name) {
                    Some((key, Some(name)))
                } else {
                    None
                },
                None => None,
            }
        } else if !is_module {
            match arbitrary_variant(rule, source, compound) {
                Some(variant) => Some((key, Some(variant))),
                None => None,
            }
        } else {
            None
        },
    }
}

/// What a rule's elements are found by, and the variant for the rest of its
/// selector.
pub open spec fn rule_match(rule: TreeModel, source: Seq<char>, is_module: bool) -> Option<
    (KeyModel, Option<Seq<char>>),
> {
    let selectors = items(field(rule, "selector"@), "selectors"@);
    let children = items(first(selectors), "children"@);
    if selectors.len() != 1 || children.len() == 0 {
        None
    } else {
        let target = children.last();
        if !of_kind(target, "CompoundSelector"@) {
            None
        } else if children.len() == 1 {
            compound_match(rule, source, is_module, target)
        } else if is_module {
            None
        } else {
            match (simple_key(first(items(target, "children"@))), arbitrary_variant(rule, source, target)) {
                (Some(key), Some(variant)) => Some((key, Some(variant))),
                _ => None,
            }
        }
    }
}

pub open spec fn match_model(result: Option<(SelectorKey, Option<String>)>) -> Option<(KeyModel, Option<Seq<char>>)> {
    match result {
        Some(found) => Some((found.0@, maybe(found.1))),
        None => None,
    }
}

fn match_compound(rule: &Tree, source: &str, is_module: bool, compound: &Tree) -> (result: Option<
    (SelectorKey, Option<String>),
>)
    ensures
        match_model(result) == compound_match(rule@, source@, is_module, compound@),
{
    let simples = match get_items(compound, "children") {
        Some(simples) => simples,
        None => {
            assert(first(Seq::<TreeModel>::empty()) == TreeModel::Null);
            assert(simple_key(TreeModel::Null) is None) by {
                assert(field(TreeModel::Null, "name"@) == TreeModel::Null);
                assert(ident_name(TreeModel::Null) is None);
            }
            return None;
        },
    };
    proof {
        lemma_list_model(simples@, simples@.len());
    }
    let ghost models = list_model(simples@, simples@.len());
    if simples.len() == 0 {
        assert(simple_key(TreeModel::Null) is None) by {
            assert(field(TreeModel::Null, "name"@) == TreeModel::Null);
            assert(ident_name(TreeModel::Null) is None);
        }
        return None;
    }
    assert(models[0] == tree_model(simples@[0]));
    let key = match selector_key(&simples[0]) {
        Some(key) => key,
        None => {
            return None;
        },
    };
    if simples.len() == 1 {
        return Some((key, None));
    }
    assert(models[1] == tree_model(simples@[1]));
    if simples.len() == 2 && is_kind(&simples[1], "PseudoClassSelector") && !is_present(get(&simples[1], "arg")) {
        return match literal_ident(get(&simples[1], "name")) {
            Some(name) => if is_state_variant(name.as_str()) {
                Some((key, Some(copy(name.as_str()))))
            } else {
                None
            },
            None => None,
        };
    }
    if is_module {
        return None;
    }
    match arbitrary_selector_variant(rule, source, compound) {
        Some(variant) => Some((key, Some(variant))),
        None => None,
    }
}

/// What a rule's elements are found by, and the variant for the rest of its
/// selector.
pub fn selector_match(rule: &Tree, source: &str, is_module: bool) -> (result: Option<(SelectorKey, Option<String>)>)
    ensures
        match_model(result) == rule_match(rule@, source@, is_module),
{
    let list = match get(rule, "selector") {
        Some(selector) => get_items(selector, "selectors"),
        None => {
            assert(items(TreeModel::Null, "selectors"@) =~= Seq::empty());
            None
        },
    };
    let selectors = match list {
        Some(selectors) => selectors,
        None => {
            return None;
        },
    };
    proof {
        lemma_list_model(selectors@, selectors@.len());
    }
    if selectors.len() != 1 {
        return None;
    }
    assert(list_model(selectors@, selectors@.len())[0] == tree_model(selectors@[0]));
    let children = match get_items(&selectors[0], "children") {
        Some(children) => children,
        None => {
            return None;
        },
    };
    proof {
        lemma_list_model(children@, children@.len());
    }
    if children.len() == 0 {
        return None;
    }
    let target = &children[children.len() - 1];
    assert(list_model(children@, children@.len())[children@.len() - 1] == tree_model(children@[children@.len() - 1]));
    if !is_kind(target, "CompoundSelector") {
        return None;
    }
    if children.len() == 1 {
        return match_compound(rule, source, is_module, target);
    }
    if is_module {
        return None;
    }
    let key = match get_first(get_items(target, "children")) {
        Some(simple) => selector_key(simple),
        None => {
            assert(simple_key(TreeModel::Null) is None) by {
                assert(field(TreeModel::Null, "name"@) == TreeModel::Null);
                assert(ident_name(TreeModel::Null) is None);
            }
            None
        },
    };
    match (key, arbitrary_selector_variant(rule, source, target)) {
        (Some(key), Some(variant)) => Some((key, Some(variant))),
        _ => None,
    }
}

/// The classes among the first `n` simple selectors.
pub open spec fn simple_classes(simples: Seq<TreeModel>, n: int) -> Seq<Seq<char>>
    decreases n,
{
    if n <= 0 {
        seq![]
    } else {
        match simple_key(simples[n - 1]) {
            Some(KeyModel::Class(name)) => simple_classes(simples, n - 1).push(name),
            _ => simple_classes(simples, n - 1),
        }
    }
}

/// The classes of the first `n` parts of a complex selector.
pub open spec fn complex_classes(children: Seq<TreeModel>, n: int) -> Seq<Seq<char>>
    decreases n,
{
    if n <= 0 {
        seq![]
    } else {
        let simples = items(children[n - 1], "children"@);
        complex_classes(children, n - 1) + if of_kind(children[n - 1], "CompoundSelector"@) {
            simple_classes(simples, simples.len() as int)
        } else {
            seq![]
        }
    }
}

/// The classes of the first `n` selectors of a list.
pub open spec fn list_classes(selectors: Seq<TreeModel>, n: int) -> Seq<Seq<char>>
    decreases n,
{
    if n <= 0 {
        seq![]
    } else {
        let children = items(selectors[n - 1], "children"@);
        list_classes(selectors, n - 1) + complex_classes(children, children.len() as int)
    }
}

/// The classes that a rule's selector names.
pub open spec fn rule_classes(rule: TreeModel) -> Seq<Seq<char>> {
    let selectors = items(field(rule, "selector"@), "selectors"@);
    list_classes(selectors, selectors.len() as int)
}

fn push_simple_classes(simples: &Vec<Tree>, found: &mut Vec<String>)
    ensures
        texts(final(found)@) == texts(old(found)@) + simple_classes(
            list_model(simples@, simples@.len()),
            simples@.len() as int,
        ),
{
    proof {
        lemma_list_model(simples@, simples@.len());
    }
    let ghost models = list_model(simples@, simples@.len());
    let ghost start = texts(found@);
    assert(start + simple_classes(models, 0) =~= start);
    let mut n: usize = 0;
    while n < simples.len()
        invariant
            n <= simples@.len(),
            models.len() == simples@.len(),
            forall|k: int| 0 <= k < simples@.len() ==> #[trigger] models[k] == tree_model(simples@[k]),
            texts(found@) == start + simple_classes(models, n as int),
        decreases simples.len() - n,
    {
        assert(models[n as int] == tree_model(simples@[n as int]));
        if let Some(SelectorKey::Class(name)) = selector_key(&simples[n]) {
            let ghost before = found@;
            let ghost model = name@;
            found.push(name);
            assert(texts(found@) =~= texts(before).push(model));
        }
        n += 1;
        assert(texts(found@) =~= start + simple_classes(models, n as int));
    }
}

fn push_complex_classes(children: &Vec<Tree>, found: &mut Vec<String>)
    ensures
        texts(final(found)@) == texts(old(found)@) + complex_classes(
            list_model(children@, children@.len()),
            children@.len() as int,
        ),
{
    proof {
        lemma_list_model(children@, children@.len());
    }
    let ghost models = list_model(children@, children@.len());
    let ghost start = texts(found@);
    assert(start + complex_classes(models, 0) =~= start);
    let mut n: usize = 0;
    while n < children.len()
        invariant
            n <= children@.len(),
            models.len() == children@.len(),
            forall|k: int| 0 <= k < children@.len() ==> #[trigger] models[k] == tree_model(children@[k]),
            texts(found@) == start + complex_classes(models, n as int),
        decreases children.len() - n,
    {
        assert(models[n as int] == tree_model(children@[n as int]));
        let ghost before = texts(found@);
        if is_kind(&children[n], "CompoundSelector") {
            if let Some(simples) = get_items(&children[n], "children") {
                proof {
                    lemma_list_model(simples@, simples@.len());
                }
                push_simple_classes(simples, found);
            } else {
                assert(before + Seq::<Seq<char>>::empty() =~= before);
            }
        } else {
            assert(before + Seq::<Seq<char>>::empty() =~= before);
        }
        n += 1;
        assert(texts(found@) =~= start + complex_classes(models, n as int));
    }
}

/// The classes that a rule's selector names.
pub fn selector_classes(rule: &Tree) -> (result: Vec<String>)
    ensures
        texts(result@) == rule_classes(rule@),
{
    let mut found: Vec<String> = Vec::new();
    assert(texts(found@) =~= Seq::empty());
    let list = match get(rule, "selector") {
        Some(selector) => get_items(selector, "selectors"),
        None => {
            assert(items(TreeModel::Null, "selectors"@) =~= Seq::empty());
            None
        },
    };
    let selectors = match list {
        Some(selectors) => selectors,
        None => {
            return found;
        },
    };
    proof {
        lemma_list_model(selectors@, selectors@.len());
    }
    let ghost models = list_model(selectors@, selectors@.len());
    let mut n: usize = 0;
    while n < selectors.len()
        invariant
            n <= selectors@.len(),
            models.len() == selectors@.len(),
            forall|k: int| 0 <= k < selectors@.len() ==> #[trigger] models[k] == tree_model(selectors@[k]),
            texts(found@) == list_classes(models, n as int),
        decreases selectors.len() - n,
    {
        assert(models[n as int] == tree_model(selectors@[n as int]));
        let ghost before = texts(found@);
        if let Some(children) = get_items(&selectors[n], "children") {
            proof {
                lemma_list_model(children@, children@.len());
            }
            push_complex_classes(children, &mut found);
        } else {
            assert(before + Seq::<Seq<char>>::empty() =~= before);
        }
        n += 1;
    }
    found
}

// ---------------------------------------------------------------------------
// Composed classes
// ---------------------------------------------------------------------------

/// The words before `from`, from `i` on.
pub open spec fn composed_words(list: Seq<Seq<char>>, i: int) -> Seq<Seq<char>>
    decreases list.len() - i,
{
    if i < 0 || i >= list.len() || list[i] == "from"@ {
        seq![]
    } else {
        seq![list[i]] + composed_words(list, i + 1)
    }
}

/// The classes that the first `n` declarations of a block compose, in
/// ascending order.
pub open spec fn composed_by(source: Seq<char>, statements: Seq<TreeModel>, known: Seq<Seq<char>>, n: int) -> Seq<
    Seq<char>,
>
    decreases n,
{
    if n <= 0 {
        known
    } else {
        let before = composed_by(source, statements, known, n - 1);
        let declaration = statements[n - 1];
        if of_kind(declaration, "Declaration"@) && ident_name(field(declaration, "name"@)) == Some("composes"@) {
            with_names(
                before,
                composed_words(words(written_value(source, declaration), Separator::Whitespace), 0),
            )
        } else {
            before
        }
    }
}

/// The classes that the rules among the first `n` statements compose, in
/// ascending order.
pub open spec fn composed_classes(
    source: Seq<char>,
    statements: Seq<TreeModel>,
    known: Seq<Seq<char>>,
    n: nat,
) -> Seq<Seq<char>>
    decreases statements, n,
{
    if n == 0 || n > statements.len() {
        known
    } else {
        let before = composed_classes(source, statements, known, (n - 1) as nat);
        let statement = statements[n - 1];
        let mine = block_statements(statement);
        if of_kind(statement, "QualifiedRule"@) {
            composed_by(source, mine, before, mine.len() as int)
        } else if of_kind(statement, "AtRule"@) && in_block(statements, statement) {
            composed_classes(source, mine, before, mine.len())
        } else {
            before
        }
    }
}

fn take_composed_words(list: &Vec<String>) -> (result: Vec<String>)
    ensures
        texts(result@) == composed_words(texts(list@), 0),
{
    let ghost all = composed_words(texts(list@), 0);
    let mut result: Vec<String> = Vec::new();
    let mut i: usize = 0;
    assert(texts(result@) + all =~= all);
    while i < list.len() && !same(list[i].as_str(), "from")
        invariant
            i <= list@.len(),
            texts(result@) + composed_words(texts(list@), i as int) == all,
        decreases list.len() - i,
    {
        assert(texts(list@)[i as int] == list@[i as int]@);
        let ghost before = result@;
        result.push(copy(list[i].as_str()));
        assert(texts(result@) =~= texts(before).push(list@[i as int]@));
        assert(texts(result@) + composed_words(texts(list@), i + 1) =~= texts(before) + composed_words(
            texts(list@),
            i as int,
        ));
        i += 1;
    }
    proof {
        if i < list@.len() {
            assert(texts(list@)[i as int] == list@[i as int]@);
        }
    }
    assert(texts(result@) + Seq::<Seq<char>>::empty() =~= texts(result@));
    result
}

fn compose_by(source: &str, statements: &Vec<Tree>, classes: &mut Vec<String>)
    ensures
        texts(final(classes)@) == composed_by(
            source@,
            list_model(statements@, statements@.len()),
            texts(old(classes)@),
            statements@.len() as int,
        ),
{
    proof {
        lemma_list_model(statements@, statements@.len());
    }
    let ghost models = list_model(statements@, statements@.len());
    let ghost start = texts(classes@);
    let mut n: usize = 0;
    while n < statements.len()
        invariant
            n <= statements@.len(),
            models.len() == statements@.len(),
            forall|k: int| 0 <= k < statements@.len() ==> #[trigger] models[k] == tree_model(statements@[k]),
            texts(classes@) == composed_by(source@, models, start, n as int),
        decreases statements.len() - n,
    {
        assert(models[n as int] == tree_model(statements@[n as int]));
        let declaration = &statements[n];
        if is_kind(declaration, "Declaration") && is_text(literal_ident(get(declaration, "name")), "composes") {
            let value = declaration_value(source, declaration);
            insert_names(classes, &take_composed_words(&split_words(value.as_str(), Separator::Whitespace)));
        }
        n += 1;
    }
}

/// The classes that rules compose, in ascending order.
pub fn collect_composed_classes(source: &str, statements: &Vec<Tree>, classes: &mut Vec<String>)
    ensures
        texts(final(classes)@) == composed_classes(
            source@,
            list_model(statements@, statements@.len()),
            texts(old(classes)@),
            statements@.len(),
        ),
    decreases statements@,
{
    proof {
        lemma_list_model(statements@, statements@.len());
    }
    let ghost models = list_model(statements@, statements@.len());
    let ghost start = texts(classes@);
    let mut n: usize = 0;
    while n < statements.len()
        invariant
            n <= statements@.len(),
            models.len() == statements@.len(),
            forall|k: int| 0 <= k < statements@.len() ==> #[trigger] models[k] == tree_model(statements@[k]),
            texts(classes@) == composed_classes(source@, models, start, n as nat),
        decreases statements.len() - n,
    {
        assert(models[n as int] == tree_model(statements@[n as int]));
        let statement = &statements[n];
        assert(decreases_to!(statements@ => statements@[n as int]));
        proof {
            lemma_block_inside(models, n as int);
        }
        let ghost mine = block_statements(models[n as int]);
        assert(mine.len() == 0 ==> composed_classes(source@, mine, texts(classes@), mine.len()) == texts(classes@));
        if is_kind(statement, "QualifiedRule") {
            if let Some(block) = get_block_statements(statement) {
                proof {
                    lemma_list_model(block@, block@.len());
                }
                compose_by(source, block, classes);
            }
        } else if is_kind(statement, "AtRule") {
            if let Some(block) = get_block_statements(statement) {
                proof {
                    lemma_list_model(block@, block@.len());
                }
                collect_composed_classes(source, block, classes);
            }
        }
        n += 1;
    }
}

// ---------------------------------------------------------------------------
// Conditional rules
// ---------------------------------------------------------------------------

/// The classes of the rules among the first `n` statements, in ascending
/// order.
pub open spec fn statement_classes(statements: Seq<TreeModel>, known: Seq<Seq<char>>, n: nat) -> Seq<Seq<char>>
    decreases statements, n,
{
    if n == 0 || n > statements.len() {
        known
    } else {
        let before = statement_classes(statements, known, (n - 1) as nat);
        let statement = statements[n - 1];
        let mine = block_statements(statement);
        if of_kind(statement, "QualifiedRule"@) {
            with_names(before, rule_classes(statement))
        } else if of_kind(statement, "AtRule"@) && in_block(statements, statement) {
            statement_classes(mine, before, mine.len())
        } else {
            before
        }
    }
}

/// The classes of rules, in ascending order.
pub fn collect_statement_classes(statements: &Vec<Tree>, classes: &mut Vec<String>)
    ensures
        texts(final(classes)@) == statement_classes(
            list_model(statements@, statements@.len()),
            texts(old(classes)@),
            statements@.len(),
        ),
    decreases statements@,
{
    proof {
        lemma_list_model(statements@, statements@.len());
    }
    let ghost models = list_model(statements@, statements@.len());
    let ghost start = texts(classes@);
    let mut n: usize = 0;
    while n < statements.len()
        invariant
            n <= statements@.len(),
            models.len() == statements@.len(),
            forall|k: int| 0 <= k < statements@.len() ==> #[trigger] models[k] == tree_model(statements@[k]),
            texts(classes@) == statement_classes(models, start, n as nat),
        decreases statements.len() - n,
    {
        assert(models[n as int] == tree_model(statements@[n as int]));
        let statement = &statements[n];
        assert(decreases_to!(statements@ => statements@[n as int]));
        proof {
            lemma_block_inside(models, n as int);
        }
        let ghost mine = block_statements(models[n as int]);
        assert(mine.len() == 0 ==> statement_classes(mine, texts(classes@), mine.len()) == texts(classes@));
        if is_kind(statement, "QualifiedRule") {
            insert_names(classes, &selector_classes(statement));
        } else if is_kind(statement, "AtRule") {
            if let Some(block) = get_block_statements(statement) {
                proof {
                    lemma_list_model(block@, block@.len());
                }
                collect_statement_classes(block, classes);
            }
        }
        n += 1;
    }
}

/// An at-rule that stays as it is.
pub open spec fn retained_plan(source: Seq<char>, at_rule: TreeModel, code: Seq<char>) -> RuleModel {
    let mine = block_statements(at_rule);
    RuleModel {
        span: css_span(at_rule),
        selector: at_header(source, at_rule),
        related_classes: statement_classes(mine, seq![], mine.len()),
        key: None,
        candidates: seq![],
        candidate_properties: seq![],
        warning: Some(code),
        relationship: None,
        provenance_offsets: seq![css_span(at_rule).0],
        authored_span: None,
        contains_selectors: rule_spans(mine, mine.len()).len() > 0,
    }
}

fn retained_at_rule(source: &str, at_rule: &Tree, code: &str) -> (result: RulePlan)
    ensures
        result@ == retained_plan(source@, at_rule@, code@),
{
    let mut classes: Vec<String> = Vec::new();
    assert(texts(classes@) =~= Seq::empty());
    let mut spans: Vec<RuleSpans> = Vec::new();
    match get_block_statements(at_rule) {
        Some(block) => {
            proof {
                lemma_list_model(block@, block@.len());
            }
            collect_statement_classes(block, &mut classes);
            crate::css::collect_qualified_rule_spans(block, &mut spans);
        },
        None => {},
    }
    let ghost mine = block_statements(at_rule@);
    assert(spans@ =~= rule_spans(mine, mine.len()));
    let span = get_css_span(at_rule);
    let mut offsets: Vec<usize> = Vec::new();
    offsets.push(span.0);
    let result = RulePlan {
        span,
        selector: write_at_header(source, at_rule),
        related_classes: classes,
        key: None,
        candidates: Vec::new(),
        candidate_properties: Vec::new(),
        warning: Some(copy(code)),
        relationship: None,
        provenance_offsets: offsets,
        authored_span: None,
        contains_selectors: spans.len() > 0,
    };
    assert(result@.candidates =~= Seq::empty());
    assert(result@.candidate_properties =~= Seq::empty());
    assert(result@.provenance_offsets =~= seq![span.0]);
    result
}

/// The style rules found in a stylesheet, each with the variants of the
/// conditions round it, the at-rules that stay, and whether all statements
/// are supported.
pub struct FoundModel {
    pub rules: Seq<(TreeModel, Seq<Seq<char>>)>,
    pub retained: Seq<RuleModel>,
    pub supported: bool,
}

pub open spec fn nothing_found() -> FoundModel {
    FoundModel { rules: seq![], retained: seq![], supported: true }
}

/// What the first `n` statements hold, under `variants`. `movable` are the
/// starts of the at-rules that move.
pub open spec fn found_rules(
    at: SheetTextModel,
    statements: Seq<TreeModel>,
    variants: Seq<Seq<char>>,
    movable: Seq<usize>,
    n: nat,
) -> FoundModel
    decreases statements, n,
{
    if n == 0 || n > statements.len() {
        nothing_found()
    } else {
        let known = found_rules(at, statements, variants, movable, (n - 1) as nat);
        let statement = statements[n - 1];
        let mine = block_statements(statement);
        if of_kind(statement, "QualifiedRule"@) {
            FoundModel { rules: known.rules.push((statement, variants)), ..known }
        } else if !of_kind(statement, "AtRule"@) {
            FoundModel { supported: false, ..known }
        } else if variants.len() == 0 && movable.contains(css_span(statement).0) {
            known
        } else {
            match condition_warning(at.converter.conditionals, statement) {
                None => FoundModel {
                    retained: known.retained.push(retained_plan(at.source, statement, "unsupported-at-rule"@)),
                    supported: false,
                    ..known
                },
                Some(code) => match condition_variant(at, statement) {
                    None => FoundModel {
                        retained: known.retained.push(retained_plan(at.source, statement, code)),
                        supported: false,
                        ..known
                    },
                    Some(variant) => {
                        let inside = if in_block(statements, statement) {
                            found_rules(at, mine, variants.push(variant), movable, mine.len())
                        } else {
                            nothing_found()
                        };
                        if inside.supported {
                            FoundModel { rules: known.rules + inside.rules, ..known }
                        } else {
                            FoundModel {
                                retained: known.retained.push(
                                    retained_plan(at.source, statement, "unsupported-nested-at-rule"@),
                                ),
                                supported: false,
                                ..known
                            }
                        }
                    },
                },
            }
        }
    }
}

struct Found<'t> {
    rules: Vec<(&'t Tree, Vec<String>)>,
    retained: Vec<RulePlan>,
    supported: bool,
}

pub open spec fn found_models(rules: Seq<(&Tree, Vec<String>)>) -> Seq<(TreeModel, Seq<Seq<char>>)> {
    rules.map_values(|entry: (&Tree, Vec<String>)| (entry.0@, texts(entry.1@)))
}

impl<'t> View for Found<'t> {
    type V = FoundModel;

    closed spec fn view(&self) -> FoundModel {
        FoundModel {
            rules: found_models(self.rules@),
            retained: views(self.retained@),
            supported: self.supported,
        }
    }
}

fn has_offset(list: &Vec<usize>, offset: usize) -> (result: bool)
    ensures
        result == list@.contains(offset),
{
    let mut i: usize = 0;
    while i < list.len()
        invariant
            i <= list@.len(),
            forall|j: int| 0 <= j < i ==> list@[j] != offset,
        decreases list.len() - i,
    {
        if list[i] == offset {
            return true;
        }
        i += 1;
    }
    false
}

fn push_rule<'t>(rules: &mut Vec<(&'t Tree, Vec<String>)>, rule: &'t Tree, variants: Vec<String>)
    ensures
        found_models(final(rules)@) == found_models(old(rules)@).push((rule@, texts(variants@))),
{
    let ghost before = rules@;
    let ghost model = (rule@, texts(variants@));
    rules.push((rule, variants));
    assert(found_models(rules@) =~= found_models(before).push(model));
}

fn push_rules<'t>(rules: &mut Vec<(&'t Tree, Vec<String>)>, more: &Vec<(&'t Tree, Vec<String>)>)
    ensures
        found_models(final(rules)@) == found_models(old(rules)@) + found_models(more@),
{
    let ghost start = found_models(rules@);
    let ghost all = found_models(more@);
    assert(start + all.take(0) =~= start);
    let mut i: usize = 0;
    while i < more.len()
        invariant
            i <= more@.len(),
            all == found_models(more@),
            all.len() == more@.len(),
            found_models(rules@) == start + all.take(i as int),
        decreases more.len() - i,
    {
        let entry = &more[i];
        assert(all[i as int] == (entry.0@, texts(entry.1@)));
        push_rule(rules, entry.0, copy_texts(&entry.1));
        i += 1;
        assert(found_models(rules@) =~= start + all.take(i as int));
    }
    assert(all.take(i as int) =~= all);
}

fn push_retained(retained: &mut Vec<RulePlan>, plan: RulePlan)
    ensures
        views(final(retained)@) == views(old(retained)@).push(plan@),
{
    let ghost before = retained@;
    let ghost model = plan@;
    retained.push(plan);
    assert(views(retained@) =~= views(before).push(model));
}

fn collect_conditional_rules<'a, 't>(
    at: &SheetText<'a>,
    statements: &'t Vec<Tree>,
    variants: &Vec<String>,
    movable: &Vec<usize>,
) -> (result: Found<'t>)
    ensures
        result@ == found_rules(
            at@,
            list_model(statements@, statements@.len()),
            texts(variants@),
            movable@,
            statements@.len(),
        ),
    decreases statements@,
{
    proof {
        lemma_list_model(statements@, statements@.len());
    }
    let ghost models = list_model(statements@, statements@.len());
    let ghost outer = texts(variants@);
    assert(outer.len() == variants@.len());
    let mut found = Found { rules: Vec::new(), retained: Vec::new(), supported: true };
    assert(found@.rules =~= nothing_found().rules);
    assert(found@.retained =~= nothing_found().retained);
    let mut n: usize = 0;
    while n < statements.len()
        invariant
            n <= statements@.len(),
            outer == texts(variants@),
            outer.len() == variants@.len(),
            models.len() == statements@.len(),
            forall|k: int| 0 <= k < statements@.len() ==> #[trigger] models[k] == tree_model(statements@[k]),
            found@ == found_rules(at@, models, outer, movable@, n as nat),
        decreases statements.len() - n,
    {
        assert(models[n as int] == tree_model(statements@[n as int]));
        let statement = &statements[n];
        assert(decreases_to!(statements@ => statements@[n as int]));
        proof {
            lemma_block_inside(models, n as int);
        }
        let ghost mine = block_statements(models[n as int]);
        if is_kind(statement, "QualifiedRule") {
            push_rule(&mut found.rules, statement, copy_texts(variants));
        } else if !is_kind(statement, "AtRule") {
            found.supported = false;
        } else if variants.len() == 0 && has_offset(movable, get_css_span(statement).0) {
        } else {
            match find_condition(&at.converter.conditionals, statement) {
                None => {
                    push_retained(&mut found.retained, retained_at_rule(at.source, statement, "unsupported-at-rule"));
                    found.supported = false;
                },
                Some(code) => match find_variant(at, statement) {
                    None => {
                        push_retained(&mut found.retained, retained_at_rule(at.source, statement, code.as_str()));
                        found.supported = false;
                    },
                    Some(variant) => {
                        let mut inner_variants = copy_texts(variants);
                        let ghost model = variant@;
                        inner_variants.push(variant);
                        assert(texts(inner_variants@) =~= outer.push(model));
                        let ghost inside = if in_block(models, models[n as int]) {
                            found_rules(at@, mine, outer.push(model), movable@, mine.len())
                        } else {
                            nothing_found()
                        };
                        match get_block_statements(statement) {
                            Some(block) => {
                                proof {
                                    lemma_list_model(block@, block@.len());
                                }
                                let nested = collect_conditional_rules(at, block, &inner_variants, movable);
                                assert(mine.len() == 0 ==> nested@ == nothing_found());
                                assert(nested@ == inside);
                                if nested.supported {
                                    push_rules(&mut found.rules, &nested.rules);
                                } else {
                                    push_retained(
                                        &mut found.retained,
                                        retained_at_rule(at.source, statement, "unsupported-nested-at-rule"),
                                    );
                                    found.supported = false;
                                }
                            },
                            None => {
                                assert(inside == nothing_found());
                                assert(found@.rules + inside.rules =~= found@.rules);
                            },
                        }
                    },
                },
            }
        }
        n += 1;
    }
    found
}

// ---------------------------------------------------------------------------
// At-rules that move
// ---------------------------------------------------------------------------

/// A global at-rule of a CSS Module that can move to the Tailwind entry.
#[derive(Debug)]
pub struct GlobalAtRulePlan {
    pub span: (usize, usize),
    pub source: String,
}

/// The model of a [`GlobalAtRulePlan`].
pub struct GlobalModel {
    pub span: (usize, usize),
    pub source: Seq<char>,
}

impl View for GlobalAtRulePlan {
    type V = GlobalModel;

    open spec fn view(&self) -> GlobalModel {
        GlobalModel { span: self.span, source: self.source@ }
    }
}

impl Duplicate for GlobalAtRulePlan {
    fn duplicate(&self) -> (result: Self) {
        GlobalAtRulePlan { span: self.span, source: self.source.clone() }
    }
}

/// The at-rule with this text moves.
pub open spec fn moves(movable: Seq<MovableModel>, css: Seq<char>, stable: bool) -> bool {
    exists|i: int|
        0 <= i < movable.len() && (#[trigger] movable[i]).css == css && (stable || !movable[i].stable_urls_only)
}

fn does_move(movable: &Vec<MovableAtRule>, css: &str, stable: bool) -> (result: bool)
    ensures
        result == moves(views(movable@), css@, stable),
{
    let mut i: usize = 0;
    while i < movable.len()
        invariant
            i <= movable@.len(),
            forall|j: int|
                0 <= j < i ==> !((#[trigger] views(movable@)[j]).css == css@ && (stable || !views(
                    movable@,
                )[j].stable_urls_only)),
        decreases movable.len() - i,
    {
        assert(views(movable@)[i as int] == movable@[i as int]@);
        if same(movable[i].css.as_str(), css) && (stable || !movable[i].stable_urls_only) {
            return true;
        }
        i += 1;
    }
    false
}

/// The keyframes among the first `n` statements.
pub open spec fn sheet_keyframes(statements: Seq<TreeModel>, scope: Seq<char>, source: Seq<char>, n: int) -> Seq<
    KeyframeModel,
>
    decreases n,
{
    if n <= 0 {
        seq![]
    } else {
        let before = sheet_keyframes(statements, scope, source, n - 1);
        if !of_kind(statements[n - 1], "AtRule"@) {
            before
        } else {
            match keyframes_of(statements[n - 1], scope, source) {
                Some(keyframe) => before.push(keyframe),
                None => before,
            }
        }
    }
}

/// The global at-rules among the first `n` statements that can move.
pub open spec fn sheet_globals(
    movable: Seq<MovableModel>,
    statements: Seq<TreeModel>,
    source: Seq<char>,
    stable: bool,
    n: int,
) -> Seq<GlobalModel>
    decreases n,
{
    if n <= 0 {
        seq![]
    } else {
        let before = sheet_globals(movable, statements, source, stable, n - 1);
        let span = css_span(statements[n - 1]);
        let css = part(source, span.0 as int, span.1 as int);
        if of_kind(statements[n - 1], "AtRule"@) && moves(movable, css, stable) {
            before.push(GlobalModel { span, source: css })
        } else {
            before
        }
    }
}

fn collect_sheet_keyframes(statements: &Vec<Tree>, scope: &str, source: &str) -> (result: Vec<KeyframePlan>)
    ensures
        views(result@) == sheet_keyframes(
            list_model(statements@, statements@.len()),
            scope@,
            source@,
            statements@.len() as int,
        ),
{
    proof {
        lemma_list_model(statements@, statements@.len());
    }
    let ghost models = list_model(statements@, statements@.len());
    let mut result: Vec<KeyframePlan> = Vec::new();
    assert(views(result@) =~= Seq::empty());
    let mut n: usize = 0;
    while n < statements.len()
        invariant
            n <= statements@.len(),
            models.len() == statements@.len(),
            forall|k: int| 0 <= k < statements@.len() ==> #[trigger] models[k] == tree_model(statements@[k]),
            views(result@) == sheet_keyframes(models, scope@, source@, n as int),
        decreases statements.len() - n,
    {
        assert(models[n as int] == tree_model(statements@[n as int]));
        if is_kind(&statements[n], "AtRule") {
            if let Some(keyframe) = keyframe_plan(&statements[n], scope, source) {
                let ghost before = result@;
                let ghost model = keyframe@;
                result.push(keyframe);
                assert(views(result@) =~= views(before).push(model));
            }
        }
        n += 1;
    }
    result
}

fn collect_sheet_globals(movable: &Vec<MovableAtRule>, statements: &Vec<Tree>, source: &str, stable: bool) -> (result:
    Vec<GlobalAtRulePlan>)
    ensures
        views(result@) == sheet_globals(
            views(movable@),
            list_model(statements@, statements@.len()),
            source@,
            stable,
            statements@.len() as int,
        ),
{
    proof {
        lemma_list_model(statements@, statements@.len());
    }
    let ghost models = list_model(statements@, statements@.len());
    let mut result: Vec<GlobalAtRulePlan> = Vec::new();
    assert(views(result@) =~= Seq::empty());
    let mut n: usize = 0;
    while n < statements.len()
        invariant
            n <= statements@.len(),
            models.len() == statements@.len(),
            forall|k: int| 0 <= k < statements@.len() ==> #[trigger] models[k] == tree_model(statements@[k]),
            views(result@) == sheet_globals(views(movable@), models, source@, stable, n as int),
        decreases statements.len() - n,
    {
        assert(models[n as int] == tree_model(statements@[n as int]));
        let span = get_css_span(&statements[n]);
        let css = copy_part(source, span.0, span.1);
        if is_kind(&statements[n], "AtRule") && does_move(movable, css.as_str(), stable) {
            let ghost before = result@;
            let plan = GlobalAtRulePlan { span, source: css };
            let ghost model = plan@;
            result.push(plan);
            assert(views(result@) =~= views(before).push(model));
        }
        n += 1;
    }
    result
}

/// Where the at-rules start that move.
pub open spec fn moving_starts(keyframes: Seq<KeyframeModel>, globals: Seq<GlobalModel>) -> Seq<usize> {
    keyframes.map_values(|keyframe: KeyframeModel| keyframe.span.0) + globals.map_values(
        |global: GlobalModel| global.span.0,
    )
}

fn collect_moving_starts(keyframes: &Vec<KeyframePlan>, globals: &Vec<GlobalAtRulePlan>) -> (result: Vec<usize>)
    ensures
        result@ == moving_starts(views(keyframes@), views(globals@)),
{
    let ghost goal = moving_starts(views(keyframes@), views(globals@));
    let mut result: Vec<usize> = Vec::new();
    let mut i: usize = 0;
    while i < keyframes.len()
        invariant
            i <= keyframes@.len(),
            goal == moving_starts(views(keyframes@), views(globals@)),
            result@ == goal.take(i as int),
        decreases keyframes.len() - i,
    {
        assert(views(keyframes@)[i as int] == keyframes@[i as int]@);
        result.push(keyframes[i].span.0);
        i += 1;
        assert(result@ =~= goal.take(i as int));
    }
    let mut j: usize = 0;
    while j < globals.len()
        invariant
            j <= globals@.len(),
            goal == moving_starts(views(keyframes@), views(globals@)),
            goal.len() == keyframes@.len() + globals@.len(),
            result@ == goal.take(keyframes@.len() + j),
        decreases globals.len() - j,
    {
        assert(views(globals@)[j as int] == globals@[j as int]@);
        assert(goal[keyframes@.len() + j] == globals@[j as int]@.span.0);
        result.push(globals[j].span.0);
        j += 1;
        assert(result@ =~= goal.take(keyframes@.len() + j));
    }
    assert(goal.take(keyframes@.len() + j) =~= goal);
    result
}

// ---------------------------------------------------------------------------
// Rules
// ---------------------------------------------------------------------------

/// The starts of the declarations among the first `n` statements.
pub open spec fn declaration_starts(statements: Seq<TreeModel>, n: int) -> Seq<usize>
    decreases n,
{
    if n <= 0 {
        seq![]
    } else if of_kind(statements[n - 1], "Declaration"@) {
        declaration_starts(statements, n - 1).push(css_span(statements[n - 1]).0)
    } else {
        declaration_starts(statements, n - 1)
    }
}

/// The offsets that stand for a rule in a source map: its start and those of
/// its declarations.
pub open spec fn rule_offsets(rule: TreeModel) -> Seq<usize> {
    let mine = block_statements(rule);
    seq![css_span(rule).0] + declaration_starts(mine, mine.len() as int)
}

fn collect_rule_offsets(rule: &Tree) -> (result: Vec<usize>)
    ensures
        result@ == rule_offsets(rule@),
{
    let mut result: Vec<usize> = Vec::new();
    result.push(get_css_span(rule).0);
    let ghost start = seq![css_span(rule@).0];
    assert(result@ =~= start);
    match get_block_statements(rule) {
        None => {
            assert(result@ =~= rule_offsets(rule@));
        },
        Some(statements) => {
            proof {
                lemma_list_model(statements@, statements@.len());
            }
            let ghost models = block_statements(rule@);
            let mut n: usize = 0;
            assert(result@ =~= start + declaration_starts(models, 0));
            while n < statements.len()
                invariant
                    n <= statements@.len(),
                    models.len() == statements@.len(),
                    forall|k: int| 0 <= k < statements@.len() ==> #[trigger] models[k] == tree_model(statements@[k]),
                    result@ == start + declaration_starts(models, n as int),
                decreases statements.len() - n,
            {
                assert(models[n as int] == tree_model(statements@[n as int]));
                if is_kind(&statements[n], "Declaration") {
                    result.push(get_css_span(&statements[n]).0);
                }
                n += 1;
                assert(result@ =~= start + declaration_starts(models, n as int));
            }
        },
    }
    result
}

/// The candidates of a rule, in ascending order.
pub open spec fn candidate_names(list: PropertyModels) -> Seq<Seq<char>> {
    with_names(seq![], list.map_values(|entry: (Seq<char>, Seq<Seq<char>>)| entry.0))
}

fn collect_candidate_names(list: &Properties) -> (result: Vec<String>)
    ensures
        texts(result@) == candidate_names(property_models(list@)),
{
    let ghost goal = property_models(list@).map_values(|entry: (Seq<char>, Seq<Seq<char>>)| entry.0);
    let mut names: Vec<String> = Vec::new();
    let mut i: usize = 0;
    while i < list.len()
        invariant
            i <= list@.len(),
            goal == property_models(list@).map_values(|entry: (Seq<char>, Seq<Seq<char>>)| entry.0),
            goal.len() == list@.len(),
            texts(names@) == goal.take(i as int),
        decreases list.len() - i,
    {
        assert(property_models(list@)[i as int] == (list@[i as int].0@, texts(list@[i as int].1@)));
        let ghost before = names@;
        names.push(copy(list[i].0.as_str()));
        assert(texts(names@) =~= texts(before).push(goal[i as int]));
        i += 1;
        assert(texts(names@) =~= goal.take(i as int));
    }
    assert(goal.take(i as int) =~= goal);
    let mut result: Vec<String> = Vec::new();
    assert(texts(result@) =~= Seq::empty());
    insert_names(&mut result, &names);
    result
}

/// The plan of a style rule under the conditions round it.
pub open spec fn style_plan(
    at: SheetTextModel,
    composed: Seq<Seq<char>>,
    rule: TreeModel,
    variants: Seq<Seq<char>>,
) -> RuleModel {
    let found = rule_match(rule, at.source, at.is_module);
    let key = match found {
        Some(found) => Some(found.0),
        None => None,
    };
    let all_variants = match found {
        Some((_, Some(variant))) => variants.push(variant),
        _ => variants,
    };
    let declared = candidates_in(at, rule, all_variants);
    let span = css_span(field(rule, "selector"@));
    RuleModel {
        span: css_span(rule),
        selector: part(at.source, span.0 as int, span.1 as int),
        related_classes: rule_classes(rule),
        key,
        candidates: candidate_names(declared.0),
        candidate_properties: declared.0,
        warning: match declared.1 {
            Some(code) => Some(code),
            None => match key {
                None => Some("unsupported-selector"@),
                Some(KeyModel::Class(name)) => if composed.contains(name) {
                    Some("css-module-composes"@)
                } else {
                    None
                },
                Some(_) => None,
            },
        },
        relationship: None,
        provenance_offsets: rule_offsets(rule),
        authored_span: None,
        contains_selectors: false,
    }
}

fn plan_style_rule<'a>(at: &SheetText<'a>, composed: &Vec<String>, rule: &Tree, variants: &Vec<String>) -> (result:
    RulePlan)
    ensures
        result@ == style_plan(at@, texts(composed@), rule@, texts(variants@)),
{
    let found = selector_match(rule, at.source, at.is_module);
    let mut all_variants = copy_texts(variants);
    let mut key: Option<SelectorKey> = None;
    if let Some((matched, variant)) = found {
        key = Some(matched);
        if let Some(variant) = variant {
            let ghost before = all_variants@;
            let ghost model = variant@;
            all_variants.push(variant);
            assert(texts(all_variants@) =~= texts(before).push(model));
        }
    }
    let (properties, declared) = collect_declaration_candidates(at, rule, &all_variants);
    let span = optional_css_span(get(rule, "selector"));
    let warning = match declared {
        Some(code) => Some(code),
        None => match &key {
            None => Some("unsupported-selector".to_owned()),
            Some(SelectorKey::Class(name)) => if list_has(composed, name.as_str()) {
                Some("css-module-composes".to_owned())
            } else {
                None
            },
            Some(_) => None,
        },
    };
    RulePlan {
        span: get_css_span(rule),
        selector: copy_part(at.source, span.0, span.1),
        related_classes: selector_classes(rule),
        key,
        candidates: collect_candidate_names(&properties),
        candidate_properties: properties,
        warning,
        relationship: None,
        provenance_offsets: collect_rule_offsets(rule),
        authored_span: None,
        contains_selectors: false,
    }
}

/// The plans of the first `n` style rules behind those of the at-rules that
/// stay.
pub open spec fn planned_rules(at: SheetTextModel, composed: Seq<Seq<char>>, found: FoundModel, n: int) -> Seq<RuleModel>
    decreases n,
{
    if n <= 0 {
        found.retained
    } else {
        planned_rules(at, composed, found, n - 1).push(
            style_plan(at, composed, found.rules[n - 1].0, found.rules[n - 1].1),
        )
    }
}

/// Two rules about the same elements set overlapping declarations.
pub open spec fn overlap(pairs: Seq<(Seq<char>, Seq<char>)>, left: RuleModel, right: RuleModel) -> bool {
    left.key is Some && left.key == right.key && lists_conflict(pairs, left.candidates, right.candidates)
}

/// The rule overlaps another one.
pub open spec fn overlapped(pairs: Seq<(Seq<char>, Seq<char>)>, rules: Seq<RuleModel>, i: int) -> bool {
    exists|j: int|
        0 <= j < rules.len() && ((i < j && overlap(pairs, rules[i], #[trigger] rules[j])) || (j < i && overlap(
            pairs,
            rules[j],
            rules[i],
        )))
}

/// The rules, with a warning for those that overlap.
pub open spec fn overlap_stamped(pairs: Seq<(Seq<char>, Seq<char>)>, rules: Seq<RuleModel>) -> Seq<RuleModel> {
    Seq::new(
        rules.len(),
        |i: int| if overlapped(pairs, rules, i) {
            rules[i].warned("unsupported-overlap"@)
        } else {
            rules[i]
        },
    )
}

fn do_overlap(pairs: &Conflicts, left: &RulePlan, right: &RulePlan) -> (result: bool)
    ensures
        result == overlap(pairs@, left@, right@),
{
    match (&left.key, &right.key) {
        (Some(a), Some(b)) => a.same(b) && do_lists_conflict(pairs, &left.candidates, &right.candidates),
        _ => false,
    }
}

fn is_overlapped(pairs: &Conflicts, rules: &Vec<RulePlan>, i: usize) -> (result: bool)
    requires
        i < rules@.len(),
    ensures
        result == overlapped(pairs@, views(rules@), i as int),
{
    let ghost models = views(rules@);
    assert(models[i as int] == rules@[i as int]@);
    let mut j: usize = 0;
    while j < rules.len()
        invariant
            j <= rules@.len(),
            i < rules@.len(),
            models == views(rules@),
            models[i as int] == rules@[i as int]@,
            forall|k: int|
                0 <= k < j ==> !((i < k && overlap(pairs@, models[i as int], #[trigger] models[k])) || (k < i
                    && overlap(pairs@, models[k], models[i as int]))),
        decreases rules.len() - j,
    {
        assert(models[j as int] == rules@[j as int]@);
        if (i < j && do_overlap(pairs, &rules[i], &rules[j])) || (j < i && do_overlap(pairs, &rules[j], &rules[i])) {
            return true;
        }
        j += 1;
    }
    false
}

fn stamp_overlaps(pairs: &Conflicts, rules: &mut Vec<RulePlan>)
    ensures
        views(final(rules)@) == overlap_stamped(pairs@, views(old(rules)@)),
{
    let ghost start = views(rules@);
    let mut marks: Vec<bool> = Vec::new();
    let mut i: usize = 0;
    while i < rules.len()
        invariant
            i <= rules@.len(),
            start == views(rules@),
            marks@.len() == i,
            forall|k: int| 0 <= k < i ==> #[trigger] marks@[k] == overlapped(pairs@, start, k),
        decreases rules.len() - i,
    {
        marks.push(is_overlapped(pairs, rules, i));
        i += 1;
    }
    let mut j: usize = 0;
    while j < rules.len()
        invariant
            j <= rules@.len() == start.len(),
            marks@.len() == start.len(),
            forall|k: int| 0 <= k < start.len() ==> #[trigger] marks@[k] == overlapped(pairs@, start, k),
            forall|k: int|
                0 <= k < j ==> #[trigger] views(rules@)[k] == if overlapped(pairs@, start, k) {
                    start[k].warned("unsupported-overlap"@)
                } else {
                    start[k]
                },
            forall|k: int| j <= k < start.len() ==> #[trigger] views(rules@)[k] == start[k],
        decreases rules.len() - j,
    {
        assert(views(rules@)[j as int] == start[j as int]);
        if marks[j] {
            warn_rule(rules, j, "unsupported-overlap");
        }
        j += 1;
    }
    assert(views(rules@) =~= overlap_stamped(pairs@, start));
}

// ---------------------------------------------------------------------------
// Stylesheets
// ---------------------------------------------------------------------------

/// How a stylesheet is read.
#[derive(Clone, Copy, Debug)]
pub struct ParseOptions {
    pub syntax: StylesheetSyntax,
    pub is_module: bool,
    /// Keyframes may move to the Tailwind entry.
    pub can_move_at_rules: bool,
    /// Global at-rules may move, too.
    pub can_move_global_at_rules: bool,
    /// Relative URLs mean the same in the Tailwind entry.
    pub relative_urls_stable: bool,
}

/// The rules of a stylesheet and the at-rules that may move.
#[derive(Debug)]
pub struct ParsedCss {
    pub rules: Vec<RulePlan>,
    pub keyframes: Vec<KeyframePlan>,
    pub global_at_rules: Vec<GlobalAtRulePlan>,
}

/// The model of a [`ParsedCss`].
pub struct ParsedModel {
    pub rules: Seq<RuleModel>,
    pub keyframes: Seq<KeyframeModel>,
    pub global_at_rules: Seq<GlobalModel>,
}

impl View for ParsedCss {
    type V = ParsedModel;

    open spec fn view(&self) -> ParsedModel {
        ParsedModel {
            rules: views(self.rules@),
            keyframes: views(self.keyframes@),
            global_at_rules: views(self.global_at_rules@),
        }
    }
}

/// What the statements of a stylesheet come to.
pub open spec fn sheet_rules(
    converter: ConverterModel,
    pairs: Seq<(Seq<char>, Seq<char>)>,
    scope: Seq<char>,
    source: Seq<char>,
    options: ParseOptions,
    statements: Seq<TreeModel>,
) -> ParsedModel {
    let count = statements.len() as int;
    let keyframes = if options.is_module && options.can_move_at_rules {
        sheet_keyframes(statements, scope, source, count)
    } else {
        seq![]
    };
    let globals = if options.is_module && options.can_move_at_rules && options.can_move_global_at_rules {
        sheet_globals(converter.movable, statements, source, options.relative_urls_stable, count)
    } else {
        seq![]
    };
    let composed = if options.is_module {
        composed_classes(source, statements, seq![], statements.len())
    } else {
        seq![]
    };
    let at = SheetTextModel { source, is_module: options.is_module, keyframes, converter };
    let found = found_rules(at, statements, seq![], moving_starts(keyframes, globals), statements.len());
    ParsedModel {
        rules: overlap_stamped(pairs, planned_rules(at, composed, found, found.rules.len() as int)),
        keyframes,
        global_at_rules: globals,
    }
}

/// The rules of a stylesheet.
pub open spec fn css_rules(
    parses: Seq<ParseModel>,
    converter: ConverterModel,
    pairs: Seq<(Seq<char>, Seq<char>)>,
    path: Seq<char>,
    scope: Seq<char>,
    source: Seq<char>,
    options: ParseOptions,
) -> Result<ParsedModel, HaltModel> {
    match read_css(parses, source, options.syntax, ErrorKind::AuthoredStylesheetParse, "Failed to parse "@ + path + ": "@) {
        Err(halt) => Err(halt),
        Ok(tree) => Ok(sheet_rules(converter, pairs, scope, source, options, items(tree, "statements"@))),
    }
}

fn plan_rules<'a, 't>(at: &SheetText<'a>, composed: &Vec<String>, found: Found<'t>) -> (result: Vec<RulePlan>)
    ensures
        views(result@) == planned_rules(at@, texts(composed@), found@, found@.rules.len() as int),
{
    let ghost model = found@;
    let mut rules = found.retained;
    let list = found.rules;
    let mut n: usize = 0;
    assert(model.rules.len() == list@.len());
    while n < list.len()
        invariant
            n <= list@.len(),
            model.rules == found_models(list@),
            model.rules.len() == list@.len(),
            views(rules@) == planned_rules(at@, texts(composed@), model, n as int),
        decreases list.len() - n,
    {
        let entry = &list[n];
        assert(model.rules[n as int] == (entry.0@, texts(entry.1@)));
        push_retained(&mut rules, plan_style_rule(at, composed, entry.0, &entry.1));
        n += 1;
    }
    rules
}

fn read_rules(
    converter: &Converter,
    conflicts: &Conflicts,
    scope: &str,
    source: &str,
    options: ParseOptions,
    statements: &Vec<Tree>,
) -> (result: ParsedCss)
    ensures
        result@ == sheet_rules(
            converter@,
            conflicts@,
            scope@,
            source@,
            options,
            list_model(statements@, statements@.len()),
        ),
{
    proof {
        lemma_list_model(statements@, statements@.len());
    }
    let keyframes = if options.is_module && options.can_move_at_rules {
        collect_sheet_keyframes(statements, scope, source)
    } else {
        let none: Vec<KeyframePlan> = Vec::new();
        assert(views(none@) =~= Seq::empty());
        none
    };
    let globals = if options.is_module && options.can_move_at_rules && options.can_move_global_at_rules {
        collect_sheet_globals(&converter.movable, statements, source, options.relative_urls_stable)
    } else {
        let none: Vec<GlobalAtRulePlan> = Vec::new();
        assert(views(none@) =~= Seq::empty());
        none
    };
    let mut composed: Vec<String> = Vec::new();
    assert(texts(composed@) =~= Seq::empty());
    if options.is_module {
        collect_composed_classes(source, statements, &mut composed);
    }
    let starts = collect_moving_starts(&keyframes, &globals);
    let none: Vec<String> = Vec::new();
    assert(texts(none@) =~= Seq::empty());
    let mut rules = {
        let at = SheetText { source, is_module: options.is_module, keyframes: &keyframes, converter };
        let found = collect_conditional_rules(&at, statements, &none, &starts);
        plan_rules(&at, &composed, found)
    };
    stamp_overlaps(conflicts, &mut rules);
    ParsedCss { rules, keyframes, global_at_rules: globals }
}

/// The rules of a stylesheet.
pub fn parse_css_rules(
    parses: &Vec<Parse>,
    converter: &Converter,
    conflicts: &Conflicts,
    path: &str,
    scope: &str,
    source: &str,
    options: ParseOptions,
) -> (result: Result<ParsedCss, Halt>)
    ensures
        match css_rules(views(parses@), converter@, conflicts@, path@, scope@, source@, options) {
            Ok(model) => result matches Ok(parsed) && parsed@ == model,
            Err(model) => result matches Err(halt) && halt@ == model,
        },
{
    let mut blame = "Failed to parse ".to_owned();
    blame.append(path);
    blame.append(": ");
    let tree = match parse_css(parses, source, options.syntax, ErrorKind::AuthoredStylesheetParse, blame.as_str()) {
        Ok(tree) => tree,
        Err(halt) => {
            return Err(halt);
        },
    };
    match get_items(tree, "statements") {
        Some(statements) => Ok(read_rules(converter, conflicts, scope, source, options, statements)),
        None => {
            let none: Vec<Tree> = Vec::new();
            assert(list_model(none@, none@.len()) =~= Seq::empty());
            Ok(read_rules(converter, conflicts, scope, source, options, &none))
        },
    }
}

// ---------------------------------------------------------------------------
// Laws
// ---------------------------------------------------------------------------

/// Two rules about the same elements whose utilities overlap are both kept
/// under that warning: neither is ever deleted in favour of utilities that
/// fight each other.
pub proof fn overlapping_rules_both_stay(
    pairs: Seq<(Seq<char>, Seq<char>)>,
    rules: Seq<RuleModel>,
    i: int,
    j: int,
)
    requires
        0 <= i < j < rules.len(),
        overlap(pairs, rules[i], rules[j]),
    ensures
        overlap_stamped(pairs, rules)[i].warning == Some("unsupported-overlap"@),
        overlap_stamped(pairs, rules)[j].warning == Some("unsupported-overlap"@),
{
    assert(overlapped(pairs, rules, i)) by {
        assert(overlap(pairs, rules[i], rules[j]));
    }
    assert(overlapped(pairs, rules, j)) by {
        assert(overlap(pairs, rules[i], rules[j]));
    }
}

proof fn lemma_last_wins(list: Seq<(Seq<char>, Seq<char>)>, property: Seq<char>, a: Seq<char>, b: Seq<char>, i: int)
    requires
        0 <= i <= list.len(),
    ensures
        last_wins_from(last_wins_from(list, property, a, i), property, b, i) == last_wins_from(list, property, b, i),
    decreases list.len() - i,
{
    let first = last_wins_from(list, property, a, i);
    if i == list.len() {
        assert(first[i] == (a, property));
        assert(first.update(i, (b, property)) =~= list.push((b, property)));
    } else if list[i].1 == property {
        assert(first[i] == (a, property));
        assert(first.update(i, (b, property)) =~= list.update(i, (b, property)));
    } else {
        lemma_last_wins(list, property, a, b, i + 1);
        lemma_last_wins_keeps(list, property, a, i + 1, i);
    }
}

proof fn lemma_last_wins_keeps(
    list: Seq<(Seq<char>, Seq<char>)>,
    property: Seq<char>,
    candidate: Seq<char>,
    i: int,
    k: int,
)
    requires
        0 <= k < i <= list.len(),
    ensures
        last_wins_from(list, property, candidate, i).len() >= list.len(),
        last_wins_from(list, property, candidate, i)[k] == list[k],
    decreases list.len() - i,
{
    if i < list.len() && list[i].1 != property {
        lemma_last_wins_keeps(list, property, candidate, i + 1, k);
    }
}

/// The last of two declarations of a property wins: nothing is left of what
/// the first one came to.
pub proof fn the_last_candidate_of_a_property_wins(
    known: GatheredModel,
    property: Seq<char>,
    first: Seq<char>,
    last: Seq<char>,
)
    ensures
        known.winning(property, first).winning(property, last) == known.winning(property, last),
{
    lemma_last_wins(known.local, property, first, last, 0);
}

/// The property of a declaration and the candidate that it comes to, where it
/// is no margin or padding.
pub open spec fn converted(at: SheetTextModel, declaration: TreeModel) -> Option<(Seq<char>, Seq<char>)> {
    let value = written_value(at.source, declaration);
    if present(field(declaration, "important"@)) {
        None
    } else {
        match ident_name(field(declaration, "name"@)) {
            None => None,
            Some(property) => if property == "composes"@ {
                None
            } else if at.is_module && (property == "animation"@ || property == "animation-name"@) {
                match animation_of(property, value, at.keyframes) {
                    Some(candidate) => Some((property, candidate)),
                    None => None,
                }
            } else {
                match declared_from(at.converter.declarations, property, value, 0) {
                    Ok(candidate) => Some((property, candidate)),
                    Err(_) => None,
                }
            },
        }
    }
}

/// The margins and paddings of a block stay what they are when its `i`-th
/// statement goes.
#[verifier::opaque]
pub open spec fn keeps_spacing(more: SpacingModel, less: SpacingModel, i: int) -> bool {
    &&& less.margin == more.margin
    &&& less.padding == more.padding
    &&& forall|k: int| 0 <= k < i ==> #[trigger] spaced_at(less, k) == spaced_at(more, k)
    &&& forall|k: int| i <= k ==> #[trigger] spaced_at(less, k) == spaced_at(more, k + 1)
}

proof fn lemma_keeps_spacing(more: SpacingModel, less: SpacingModel, i: int, k: int)
    requires
        keeps_spacing(more, less, i),
        0 <= k,
    ensures
        less.margin == more.margin,
        less.padding == more.padding,
        k < i ==> spaced_at(less, k) == spaced_at(more, k),
        k >= i ==> spaced_at(less, k) == spaced_at(more, k + 1),
{
    reveal(keeps_spacing);
}

/// What a statement adds to what those before it came to.
#[verifier::opaque]
spec fn with_statement(
    at: SheetTextModel,
    statement: TreeModel,
    spaced: Spaced,
    variants: Seq<Seq<char>>,
    known: GatheredModel,
) -> GatheredModel {
    if of_kind(statement, "AtRule"@) {
        match condition_variant(at, statement) {
            None => known.warned("unsupported-rule-content"@),
            Some(variant) => {
                let inside = candidates_in(at, statement, variants.push(variant));
                GatheredModel {
                    candidates: all_merged(known.candidates, inside.0, inside.0.len() as int),
                    warning: match inside.1 {
                        Some(code) => Some(code),
                        None => known.warning,
                    },
                    ..known
                }
            },
        }
    } else if of_kind(statement, "Declaration"@) {
        with_declaration(at, statement, spaced, known)
    } else {
        known.warned("unsupported-rule-content"@)
    }
}

proof fn lemma_gathered_step(at: SheetTextModel, owner: TreeModel, variants: Seq<Seq<char>>, n: nat)
    requires
        0 < n <= block_statements(owner).len(),
    ensures
        gathered(at, owner, variants, n) == with_statement(
            at,
            block_statements(owner)[n - 1],
            spaced_at(block_spacing(at, owner), n - 1),
            variants,
            gathered(at, owner, variants, (n - 1) as nat),
        ),
{
    reveal(with_statement);
    lemma_stands_in(owner, n - 1);
}

/// What a declaration of a block adds to what those before it came to.
pub proof fn lemma_gathered_declaration(at: SheetTextModel, owner: TreeModel, variants: Seq<Seq<char>>, n: nat)
    requires
        0 < n <= block_statements(owner).len(),
        of_kind(block_statements(owner)[n - 1], "Declaration"@),
    ensures
        gathered(at, owner, variants, n) == with_declaration(
            at,
            block_statements(owner)[n - 1],
            spaced_at(block_spacing(at, owner), n - 1),
            gathered(at, owner, variants, (n - 1) as nat),
        ),
{
    lemma_gathered_step(at, owner, variants, n);
    reveal(with_statement);
    assert("AtRule"@ != "Declaration"@) by {
        reveal_strlit("AtRule");
        reveal_strlit("Declaration");
        assert("AtRule"@.len() != "Declaration"@.len());
    }
}

/// What a statement adds keeps a warning that is there.
pub proof fn lemma_gathered_warning(at: SheetTextModel, owner: TreeModel, variants: Seq<Seq<char>>, n: nat)
    requires
        0 < n <= block_statements(owner).len(),
        gathered(at, owner, variants, (n - 1) as nat).warning is Some || (!of_kind(
            block_statements(owner)[n - 1],
            "Declaration"@,
        ) && !of_kind(block_statements(owner)[n - 1], "AtRule"@)),
    ensures
        gathered(at, owner, variants, n).warning is Some,
{
    lemma_gathered_step(at, owner, variants, n);
    reveal(with_statement);
}

proof fn lemma_converted(
    at: SheetTextModel,
    declaration: TreeModel,
    spaced: Spaced,
    variants: Seq<Seq<char>>,
    known: GatheredModel,
)
    requires
        of_kind(declaration, "Declaration"@),
        converted(at, declaration) is Some,
        !spacing_property((converted(at, declaration)->0).0),
    ensures
        with_statement(at, declaration, spaced, variants, known) == known.winning(
            (converted(at, declaration)->0).0,
            (converted(at, declaration)->0).1,
        ),
{
    reveal(with_statement);
    assert("AtRule"@ != "Declaration"@) by {
        reveal_strlit("AtRule");
        reveal_strlit("Declaration");
        assert("AtRule"@.len() != "Declaration"@.len());
    }
}

proof fn lemma_gathered_before(
    at: SheetTextModel,
    both: TreeModel,
    last: TreeModel,
    variants: Seq<Seq<char>>,
    i: int,
    n: nat,
)
    requires
        0 <= i < block_statements(both).len(),
        block_statements(last) == block_statements(both).remove(i),
        keeps_spacing(block_spacing(at, both), block_spacing(at, last), i),
        n <= i,
    ensures
        gathered(at, both, variants, n) == gathered(at, last, variants, n),
    decreases n,
{
    if n > 0 {
        lemma_gathered_before(at, both, last, variants, i, (n - 1) as nat);
        lemma_gathered_step(at, both, variants, n);
        lemma_gathered_step(at, last, variants, n);
        assert(block_statements(both)[n - 1] == block_statements(last)[n - 1]);
        lemma_keeps_spacing(block_spacing(at, both), block_spacing(at, last), i, n - 1);
    }
}

proof fn lemma_gathered_behind(
    at: SheetTextModel,
    both: TreeModel,
    last: TreeModel,
    variants: Seq<Seq<char>>,
    i: int,
    n: nat,
)
    requires
        0 <= i < block_statements(both).len(),
        block_statements(last) == block_statements(both).remove(i),
        keeps_spacing(block_spacing(at, both), block_spacing(at, last), i),
        i + 2 <= n <= block_statements(both).len(),
        gathered(at, both, variants, (i + 2) as nat) == gathered(at, last, variants, (i + 1) as nat),
    ensures
        gathered(at, both, variants, n) == gathered(at, last, variants, (n - 1) as nat),
    decreases n,
{
    if n > i + 2 {
        lemma_gathered_behind(at, both, last, variants, i, (n - 1) as nat);
        lemma_gathered_step(at, both, variants, n);
        lemma_gathered_step(at, last, variants, (n - 1) as nat);
        assert(block_statements(both)[n - 1] == block_statements(last)[n - 2]);
        lemma_keeps_spacing(block_spacing(at, both), block_spacing(at, last), i, n - 2);
    }
}

/// The last of duplicate declarations wins: a block comes to the same
/// candidates and the same warning without a declaration that another one of
/// the property follows, where each comes to a candidate of its own and
/// neither is a margin or a padding. What the block's margins and paddings
/// come to is the same.
pub proof fn the_last_of_duplicate_declarations_wins(
    at: SheetTextModel,
    both: TreeModel,
    last: TreeModel,
    variants: Seq<Seq<char>>,
    i: int,
)
    requires
        0 <= i < block_statements(both).len() - 1,
        block_statements(last) == block_statements(both).remove(i),
        of_kind(block_statements(both)[i], "Declaration"@),
        of_kind(block_statements(both)[i + 1], "Declaration"@),
        converted(at, block_statements(both)[i]) is Some,
        converted(at, block_statements(both)[i + 1]) is Some,
        (converted(at, block_statements(both)[i])->0).0 == (converted(at, block_statements(both)[i + 1])->0).0,
        !spacing_property((converted(at, block_statements(both)[i])->0).0),
        keeps_spacing(block_spacing(at, both), block_spacing(at, last), i),
    ensures
        candidates_in(at, both, variants) == candidates_in(at, last, variants),
{
    let statements = block_statements(both);
    let (property, a) = converted(at, statements[i])->0;
    let b = (converted(at, statements[i + 1])->0).1;
    let known = gathered(at, both, variants, i as nat);
    lemma_gathered_before(at, both, last, variants, i, i as nat);
    assert(block_statements(last)[i] == statements[i + 1]);
    lemma_keeps_spacing(block_spacing(at, both), block_spacing(at, last), i, i);
    lemma_gathered_step(at, both, variants, (i + 1) as nat);
    lemma_gathered_step(at, both, variants, (i + 2) as nat);
    lemma_gathered_step(at, last, variants, (i + 1) as nat);
    let spacing = block_spacing(at, both);
    lemma_converted(at, statements[i], spaced_at(spacing, i), variants, known);
    lemma_converted(at, statements[i + 1], spaced_at(spacing, i + 1), variants, known.winning(property, a));
    lemma_converted(at, statements[i + 1], spaced_at(spacing, i + 1), variants, known);
    the_last_candidate_of_a_property_wins(known, property, a, b);
    lemma_gathered_behind(at, both, last, variants, i, statements.len());
}

/// The last of duplicate declarations wins in a block without margins and
/// paddings, whatever is known of those: nothing is left of the first of two
/// declarations of a property that each come to a candidate.
pub proof fn the_last_of_duplicates_wins_without_spacing(
    at: SheetTextModel,
    both: TreeModel,
    last: TreeModel,
    variants: Seq<Seq<char>>,
    i: int,
)
    requires
        0 <= i < block_statements(both).len() - 1,
        block_statements(last) == block_statements(both).remove(i),
        !any_spacing(block_statements(both)),
        of_kind(block_statements(both)[i], "Declaration"@),
        of_kind(block_statements(both)[i + 1], "Declaration"@),
        converted(at, block_statements(both)[i]) is Some,
        converted(at, block_statements(both)[i + 1]) is Some,
        (converted(at, block_statements(both)[i])->0).0 == (converted(at, block_statements(both)[i + 1])->0).0,
    ensures
        candidates_in(at, both, variants) == candidates_in(at, last, variants),
{
    let more = block_statements(both);
    let less = block_statements(last);
    if any_spacing(less) {
        let k = choose|k: int| 0 <= k < less.len() && declares_spacing(#[trigger] less[k]);
        if k < i {
            assert(declares_spacing(more[k]));
        } else {
            assert(declares_spacing(more[k + 1]));
        }
    }
    assert(!declares_spacing(more[i]));
    assert(keeps_spacing(block_spacing(at, both), block_spacing(at, last), i)) by {
        reveal(keeps_spacing);
    }
    the_last_of_duplicate_declarations_wins(at, both, last, variants, i);
}

} // verus!
