//! Scoped rules that other CSS competes with.
//!
//! A scoped rule of a Vue component is unlayered: the utilities that replace
//! it are not. A rule is retained where CSS that stays reaches one of the
//! elements that the rule reaches.
use crate::html_live::{bare, bare_attribute, trace_attribute, traced_site};
use crate::rules::{has_rule, rule_id, warn_rule, RuleId, RuleModel, RulePlan};
use crate::selector::{KeyModel, SelectorKey};
use crate::source::{
    classes_of, contexts_of, element_classes, element_has_context, element_ids, element_tag, ids_of, in_context, tag_of,
    ElementModel, FileModel, HtmlElement, SourceFile,
};
use crate::text::{
    ascii_lowered, contains, copy_cut, cut, holds, list_has, push_texts, same, starts_with, texts, to_ascii_lowercase,
    views,
};
use vstd::prelude::*;

verus! {

/// What the selectors of some CSS can match.
#[derive(Debug)]
pub struct Shadow {
    pub classes: Vec<String>,
    /// Lowercase tag names.
    pub types: Vec<String>,
    pub ids: Vec<String>,
    /// The CSS has selectors that cannot be indexed.
    pub unverifiable: bool,
}

/// The model of a [`Shadow`].
pub struct ShadowModel {
    pub classes: Seq<Seq<char>>,
    pub types: Seq<Seq<char>>,
    pub ids: Seq<Seq<char>>,
    pub unverifiable: bool,
}

impl View for Shadow {
    type V = ShadowModel;

    open spec fn view(&self) -> ShadowModel {
        ShadowModel {
            classes: texts(self.classes@),
            types: texts(self.types@),
            ids: texts(self.ids@),
            unverifiable: self.unverifiable,
        }
    }
}

/// The shadow of one piece of CSS. Class and id names of a CSS Module are
/// localized at build time, so a piece has another shadow as a module.
#[derive(Debug)]
pub struct ShadowEntry {
    pub css: String,
    pub module: bool,
    pub shadow: Shadow,
}

/// The model of a [`ShadowEntry`].
pub struct ShadowEntryModel {
    pub css: Seq<char>,
    pub module: bool,
    pub shadow: ShadowModel,
}

impl View for ShadowEntry {
    type V = ShadowEntryModel;

    open spec fn view(&self) -> ShadowEntryModel {
        ShadowEntryModel { css: self.css@, module: self.module, shadow: self.shadow@ }
    }
}

/// No shadow.
pub open spec fn no_shadow() -> ShadowModel {
    ShadowModel { classes: seq![], types: seq![], ids: seq![], unverifiable: false }
}

/// The shadow with that of a piece from entry `i` on; a piece that no entry
/// describes cannot be verified.
pub open spec fn with_piece(
    table: Seq<ShadowEntryModel>,
    shadow: ShadowModel,
    css: Seq<char>,
    module: bool,
    i: int,
) -> ShadowModel
    decreases table.len() - i,
{
    if i < 0 || i >= table.len() {
        ShadowModel { unverifiable: true, ..shadow }
    } else if table[i].css == css && table[i].module == module {
        ShadowModel {
            classes: shadow.classes + table[i].shadow.classes,
            types: shadow.types + table[i].shadow.types,
            ids: shadow.ids + table[i].shadow.ids,
            unverifiable: shadow.unverifiable || table[i].shadow.unverifiable,
        }
    } else {
        with_piece(table, shadow, css, module, i + 1)
    }
}

/// The shadow with those of the first `n` pieces.
pub open spec fn with_pieces(
    table: Seq<ShadowEntryModel>,
    shadow: ShadowModel,
    pieces: Seq<Seq<char>>,
    module: bool,
    n: int,
) -> ShadowModel
    decreases n,
{
    if n <= 0 {
        shadow
    } else {
        with_piece(table, with_pieces(table, shadow, pieces, module, n - 1), pieces[n - 1], module, 0)
    }
}

/// The shadow of plain pieces and of CSS Module pieces.
pub open spec fn indexed(table: Seq<ShadowEntryModel>, css: Seq<Seq<char>>, modules: Seq<Seq<char>>) -> ShadowModel {
    with_pieces(
        table,
        with_pieces(table, no_shadow(), css, false, css.len() as int),
        modules,
        true,
        modules.len() as int,
    )
}

fn add_piece(table: &Vec<ShadowEntry>, shadow: &mut Shadow, css: &str, module: bool)
    ensures
        final(shadow)@ == with_piece(views(table@), old(shadow)@, css@, module, 0),
{
    let ghost start = shadow@;
    let mut i: usize = 0;
    while i < table.len()
        invariant
            i <= table@.len(),
            shadow@ == start,
            start == old(shadow)@,
            with_piece(views(table@), start, css@, module, i as int) == with_piece(
                views(table@),
                start,
                css@,
                module,
                0,
            ),
        decreases table.len() - i,
    {
        let entry = &table[i];
        assert(views(table@)[i as int] == entry@);
        if same(entry.css.as_str(), css) && entry.module == module {
            push_texts(&mut shadow.classes, &entry.shadow.classes);
            push_texts(&mut shadow.types, &entry.shadow.types);
            push_texts(&mut shadow.ids, &entry.shadow.ids);
            shadow.unverifiable = shadow.unverifiable || entry.shadow.unverifiable;
            return;
        }
        i += 1;
    }
    shadow.unverifiable = true;
}

fn add_pieces(table: &Vec<ShadowEntry>, shadow: &mut Shadow, pieces: &Vec<String>, module: bool)
    ensures
        final(shadow)@ == with_pieces(views(table@), old(shadow)@, texts(pieces@), module, pieces@.len() as int),
{
    let ghost start = shadow@;
    let mut n: usize = 0;
    while n < pieces.len()
        invariant
            n <= pieces@.len(),
            shadow@ == with_pieces(views(table@), start, texts(pieces@), module, n as int),
        decreases pieces.len() - n,
    {
        assert(texts(pieces@)[n as int] == pieces@[n as int]@);
        add_piece(table, shadow, pieces[n].as_str(), module);
        n += 1;
    }
}

/// What plain pieces of CSS and CSS Module pieces can match.
pub fn index_shadow_selectors(table: &Vec<ShadowEntry>, css: &Vec<String>, modules: &Vec<String>) -> (result: Shadow)
    ensures
        result@ == indexed(views(table@), texts(css@), texts(modules@)),
{
    let mut shadow = Shadow { classes: Vec::new(), types: Vec::new(), ids: Vec::new(), unverifiable: false };
    assert(shadow@.classes =~= no_shadow().classes);
    assert(shadow@.types =~= no_shadow().types);
    assert(shadow@.ids =~= no_shadow().ids);
    add_pieces(table, &mut shadow, css, false);
    add_pieces(table, &mut shadow, modules, true);
    shadow
}

// ---------------------------------------------------------------------------
// Sites
// ---------------------------------------------------------------------------

/// Two lists share a text.
pub open spec fn share(a: Seq<Seq<char>>, b: Seq<Seq<char>>) -> bool {
    exists|i: int| 0 <= i < a.len() && b.contains(#[trigger] a[i])
}

fn do_share(a: &Vec<String>, b: &Vec<String>) -> (result: bool)
    ensures
        result == share(texts(a@), texts(b@)),
{
    let mut i: usize = 0;
    while i < a.len()
        invariant
            i <= a@.len(),
            forall|j: int| 0 <= j < i ==> !texts(b@).contains(#[trigger] texts(a@)[j]),
        decreases a.len() - i,
    {
        assert(texts(a@)[i as int] == a@[i as int]@);
        if list_has(b, a[i].as_str()) {
            assert(texts(b@).contains(texts(a@)[i as int]));
            return true;
        }
        i += 1;
    }
    false
}

/// The element carries the rule's class or id. Module class names are hashed
/// at runtime, so a module rule reaches a site only through its proven
/// `$style` binding.
pub open spec fn carries_rule(rule: RuleModel, element: ElementModel, vue_module: bool) -> bool {
    if vue_module {
        element.module_binding matches Some(binding) && rule.related_classes.contains(binding.name)
    } else {
        share(rule.related_classes, classes_of(element)) || (rule.key matches Some(KeyModel::Id(name)) && ids_of(
            element,
        ).contains(name))
    }
}

fn does_carry_rule(rule: &RulePlan, element: &HtmlElement, vue_module: bool) -> (result: bool)
    ensures
        result == carries_rule(rule@, element@, vue_module),
{
    if vue_module {
        match &element.module_binding {
            Some(binding) => list_has(&rule.related_classes, binding.name.as_str()),
            None => false,
        }
    } else {
        do_share(&rule.related_classes, &element_classes(element)) || match &rule.key {
            Some(SelectorKey::Id(name)) => list_has(&element_ids(element), name.as_str()),
            _ => false,
        }
    }
}

/// The shadow reaches the element by a class, its tag or an id.
pub open spec fn touches(shadow: ShadowModel, element: ElementModel) -> bool {
    ||| share(classes_of(element), shadow.classes)
    ||| (tag_of(element) matches Some(tag) && shadow.types.contains(ascii_lowered(tag)))
    ||| share(ids_of(element), shadow.ids)
}

fn does_touch(shadow: &Shadow, element: &HtmlElement) -> (result: bool)
    ensures
        result == touches(shadow@, element@),
{
    do_share(&element_classes(element), &shadow.classes) || (match element_tag(element) {
        Some(tag) => list_has(&shadow.types, to_ascii_lowercase(tag.as_str()).as_str()),
        None => false,
    }) || do_share(&element_ids(element), &shadow.ids)
}

/// Which CSS competes.
#[derive(Clone, Copy, PartialEq, Eq, Structural, Debug)]
pub enum Rival {
    /// The package's other CSS.
    Package,
    /// Retained rules of the same component.
    InFile,
}

/// A module binding that is still in the text: its hashed class lands on this
/// site at runtime, and the retained module rule is an unlayered competitor
/// that no index can name. An exact replacement rebases in place; a span that
/// an edit only touched counts as live.
pub open spec fn binding_lives(file: FileModel, element: ElementModel) -> bool {
    match element.module_binding {
        None => false,
        Some(binding) => match traced_site(bare(seq![], binding.start, binding.end, false), file.prior_edits, 0) {
            None => true,
            Some(site) => match cut(file.source, site.start, site.end) {
                Some(text) => holds(text, "$style"@),
                None => false,
            },
        },
    }
}

fn does_binding_live(file: &SourceFile, element: &HtmlElement) -> (result: bool)
    ensures
        result == binding_lives(file@, element@),
{
    match &element.module_binding {
        None => false,
        Some(binding) => {
            let place = bare_attribute(String::new(), binding.start, binding.end, false);
            assert(place@.value =~= Seq::empty());
            match trace_attribute(&place, &file.prior_edits) {
                None => true,
                Some(site) => match copy_cut(file.source.as_str(), site.start, site.end) {
                    Some(text) => contains(text.as_str(), "$style"),
                    None => false,
                },
            }
        },
    }
}

/// The rival reaches the element.
pub open spec fn rivals(
    shadow: ShadowModel,
    rival: Rival,
    file: FileModel,
    element: ElementModel,
    vue_module: bool,
) -> bool {
    touches(shadow, element) || match rival {
        Rival::Package => !vue_module && binding_lives(file, element),
        Rival::InFile => vue_module && (element.module_binding matches Some(binding) && shadow.classes.contains(
            binding.name,
        )),
    }
}

fn does_rival(shadow: &Shadow, rival: Rival, file: &SourceFile, element: &HtmlElement, vue_module: bool) -> (result: bool)
    ensures
        result == rivals(shadow@, rival, file@, element@, vue_module),
{
    does_touch(shadow, element) || match rival {
        Rival::Package => !vue_module && does_binding_live(file, element),
        Rival::InFile => vue_module && match &element.module_binding {
            Some(binding) => list_has(&shadow.classes, binding.name.as_str()),
            None => false,
        },
    }
}

/// What competes with the rules of a stylesheet.
pub struct ContestModel {
    pub files: Seq<FileModel>,
    pub css_path: Seq<char>,
    pub vue_module: bool,
}

/// The element is one of the rule's sites, and the rival reaches it.
pub open spec fn contested_at(
    at: ContestModel,
    shadow: ShadowModel,
    rival: Rival,
    rule: RuleModel,
    file: FileModel,
    element: ElementModel,
) -> bool {
    in_context(element, at.css_path) && carries_rule(rule, element, at.vue_module) && rivals(
        shadow,
        rival,
        file,
        element,
        at.vue_module,
    )
}

/// The rival reaches a site of the rule in the file.
pub open spec fn contested_in(
    at: ContestModel,
    shadow: ShadowModel,
    rival: Rival,
    rule: RuleModel,
    file: FileModel,
) -> bool {
    contexts_of(file, at.css_path).len() > 0 && exists|i: int|
        0 <= i < file.html_elements.len() && contested_at(
            at,
            shadow,
            rival,
            rule,
            file,
            #[trigger] file.html_elements[i],
        )
}

/// The rival reaches a site of the rule in a file that uses the stylesheet.
pub open spec fn contested(at: ContestModel, shadow: ShadowModel, rival: Rival, rule: RuleModel) -> bool {
    exists|i: int| 0 <= i < at.files.len() && contested_in(at, shadow, rival, rule, #[trigger] at.files[i])
}

/// What competes with the rules of a stylesheet.
pub struct Contest<'a> {
    pub files: &'a Vec<SourceFile>,
    pub css_path: &'a str,
    pub vue_module: bool,
}

impl<'a> View for Contest<'a> {
    type V = ContestModel;

    open spec fn view(&self) -> ContestModel {
        ContestModel { files: views(self.files@), css_path: self.css_path@, vue_module: self.vue_module }
    }
}

fn is_contested_in<'a>(at: &Contest<'a>, shadow: &Shadow, rival: Rival, rule: &RulePlan, file: &SourceFile) -> (result:
    bool)
    ensures
        result == contested_in(at@, shadow@, rival, rule@, file@),
{
    if !file.has_analyzable_context(at.css_path) {
        return false;
    }
    let ghost elements = file@.html_elements;
    let mut i: usize = 0;
    while i < file.html_elements.len()
        invariant
            i <= file.html_elements@.len(),
            elements == file@.html_elements,
            contexts_of(file@, at@.css_path).len() > 0,
            forall|j: int|
                0 <= j < i ==> !contested_at(at@, shadow@, rival, rule@, file@, #[trigger] elements[j]),
        decreases file.html_elements.len() - i,
    {
        let element = &file.html_elements[i];
        assert(elements[i as int] == element@);
        if element_has_context(element, at.css_path) && does_carry_rule(rule, element, at.vue_module) && does_rival(
            shadow,
            rival,
            file,
            element,
            at.vue_module,
        ) {
            assert(contested_at(at@, shadow@, rival, rule@, file@, elements[i as int]));
            return true;
        }
        i += 1;
    }
    false
}

/// Whether the rival reaches a site of the rule.
pub fn is_contested<'a>(at: &Contest<'a>, shadow: &Shadow, rival: Rival, rule: &RulePlan) -> (result: bool)
    ensures
        result == contested(at@, shadow@, rival, rule@),
{
    let mut i: usize = 0;
    while i < at.files.len()
        invariant
            i <= at.files@.len(),
            forall|j: int| 0 <= j < i ==> !contested_in(at@, shadow@, rival, rule@, #[trigger] at@.files[j]),
        decreases at.files.len() - i,
    {
        assert(at@.files[i as int] == at.files@[i as int]@);
        if is_contested_in(at, shadow, rival, rule, &at.files[i]) {
            assert(contested_in(at@, shadow@, rival, rule@, at@.files[i as int]));
            return true;
        }
        i += 1;
    }
    false
}

// ---------------------------------------------------------------------------
// Package CSS
// ---------------------------------------------------------------------------

/// The rule is shadowed when non-scoped CSS targets one of its classes
/// directly, or can match one of its template sites through the site's tag,
/// id, or co-occurring classes.
pub open spec fn package_shadowed(at: ContestModel, shadow: ShadowModel, unverifiable: bool, rule: RuleModel) -> bool {
    unverifiable || (!at.vue_module && share(rule.related_classes, shadow.classes)) || contested(
        at,
        shadow,
        Rival::Package,
        rule,
    )
}

/// A rule with the warning that package CSS shadows it.
pub open spec fn package_stamped(at: ContestModel, shadow: ShadowModel, unverifiable: bool, rule: RuleModel) -> RuleModel {
    if rule.warning is None && package_shadowed(at, shadow, unverifiable, rule) {
        rule.warned("shadowed-scoped-rule"@)
    } else {
        rule
    }
}

/// Warns of the rules that the package's other CSS shadows.
pub fn stamp_package_shadow<'a>(at: &Contest<'a>, shadow: &Shadow, unverifiable: bool, rules: &mut Vec<RulePlan>)
    ensures
        views(final(rules)@) == views(old(rules)@).map_values(
            |rule: RuleModel| package_stamped(at@, shadow@, unverifiable, rule),
        ),
{
    let ghost start = views(rules@);
    let mut i: usize = 0;
    while i < rules.len()
        invariant
            i <= rules@.len() == start.len(),
            forall|k: int|
                0 <= k < i ==> #[trigger] views(rules@)[k] == package_stamped(at@, shadow@, unverifiable, start[k]),
            forall|k: int| i <= k < start.len() ==> #[trigger] views(rules@)[k] == start[k],
        decreases rules.len() - i,
    {
        assert(views(rules@)[i as int] == rules@[i as int]@);
        let unwarned = rules[i].warning.is_none();
        if unwarned && (unverifiable || (!at.vue_module && do_share(&rules[i].related_classes, &shadow.classes))
            || is_contested(at, shadow, Rival::Package, &rules[i])) {
            warn_rule(rules, i, "shadowed-scoped-rule");
        }
        i += 1;
    }
    assert(views(rules@) =~= start.map_values(
        |rule: RuleModel| package_stamped(at@, shadow@, unverifiable, rule),
    ));
}

// ---------------------------------------------------------------------------
// Retained rules of the same component
// ---------------------------------------------------------------------------

/// The rule stays.
pub open spec fn stays(rule: RuleModel, also: Seq<RuleId>) -> bool {
    rule.warning is Some || also.contains(rule.id())
}

/// The selector is that of an at-rule.
pub open spec fn at_rule_selector(rule: RuleModel) -> bool {
    crate::text::begins(rule.selector, "@"@)
}

/// A retained at-rule with selectors that its plan does not name.
pub open spec fn hides_selectors(rules: Seq<RuleModel>, also: Seq<RuleId>) -> bool {
    exists|i: int|
        0 <= i < rules.len() && stays(#[trigger] rules[i], also) && at_rule_selector(rules[i])
            && rules[i].contains_selectors
}

/// The selectors of the retained ones of the first `n` rules, as CSS.
pub open spec fn retained_css(rules: Seq<RuleModel>, also: Seq<RuleId>, n: int) -> Seq<Seq<char>>
    decreases n,
{
    if n <= 0 {
        seq![]
    } else {
        let before = retained_css(rules, also, n - 1);
        if stays(rules[n - 1], also) && !at_rule_selector(rules[n - 1]) {
            before.push(rules[n - 1].selector + " {}"@)
        } else {
            before
        }
    }
}

fn does_stay(rule: &RulePlan, also: &Vec<RuleId>) -> (result: bool)
    ensures
        result == stays(rule@, also@),
{
    rule.warning.is_some() || has_rule(also, rule_id(rule))
}

fn does_hide_selectors(rules: &Vec<RulePlan>, also: &Vec<RuleId>) -> (result: bool)
    ensures
        result == hides_selectors(views(rules@), also@),
{
    let mut i: usize = 0;
    while i < rules.len()
        invariant
            i <= rules@.len(),
            forall|j: int|
                0 <= j < i ==> !(stays(#[trigger] views(rules@)[j], also@) && at_rule_selector(views(rules@)[j])
                    && views(rules@)[j].contains_selectors),
        decreases rules.len() - i,
    {
        let rule = &rules[i];
        assert(views(rules@)[i as int] == rule@);
        if does_stay(rule, also) && starts_with(rule.selector.as_str(), "@") && rule.contains_selectors {
            assert(stays(views(rules@)[i as int], also@));
            return true;
        }
        i += 1;
    }
    false
}

fn collect_retained_css(rules: &Vec<RulePlan>, also: &Vec<RuleId>) -> (result: Vec<String>)
    ensures
        texts(result@) == retained_css(views(rules@), also@, rules@.len() as int),
{
    let mut result: Vec<String> = Vec::new();
    assert(texts(result@) =~= Seq::empty());
    let mut n: usize = 0;
    while n < rules.len()
        invariant
            n <= rules@.len(),
            texts(result@) == retained_css(views(rules@), also@, n as int),
        decreases rules.len() - n,
    {
        let rule = &rules[n];
        assert(views(rules@)[n as int] == rule@);
        if does_stay(rule, also) && !starts_with(rule.selector.as_str(), "@") {
            let ghost before = result@;
            let mut text = crate::text::copy(rule.selector.as_str());
            text.append(" {}");
            result.push(text);
            assert(texts(result@) =~= texts(before).push(rule@.selector + " {}"@));
        }
        n += 1;
    }
    result
}

/// A rule of the component, once a retained sibling is found to compete.
pub open spec fn sibling_stamped(
    at: ContestModel,
    retained: ShadowModel,
    hidden: bool,
    also: Seq<RuleId>,
    rule: RuleModel,
) -> RuleModel {
    if !stays(rule, also) && (hidden || retained.unverifiable || contested(at, retained, Rival::InFile, rule)) {
        rule.warned("shadowed-scoped-rule"@)
    } else {
        rule
    }
}

/// One round of retention.
pub open spec fn shadow_round(
    table: Seq<ShadowEntryModel>,
    at: ContestModel,
    also: Seq<RuleId>,
    rules: Seq<RuleModel>,
) -> Seq<RuleModel> {
    let retained = indexed(table, retained_css(rules, also, rules.len() as int), seq![]);
    let hidden = hides_selectors(rules, also);
    rules.map_values(|rule: RuleModel| sibling_stamped(at, retained, hidden, also, rule))
}

/// How many of the first `n` rules have no warning.
pub open spec fn unwarned(rules: Seq<RuleModel>, n: int) -> int
    decreases n,
{
    if n <= 0 {
        0
    } else {
        unwarned(rules, n - 1) + if rules[n - 1].warning is None {
            1int
        } else {
            0int
        }
    }
}

/// The rules once no retained rule exposes another: retention can cascade.
pub open spec fn shadow_settled(
    table: Seq<ShadowEntryModel>,
    at: ContestModel,
    also: Seq<RuleId>,
    rules: Seq<RuleModel>,
) -> Seq<RuleModel>
    decreases unwarned(rules, rules.len() as int),
{
    let next = shadow_round(table, at, also, rules);
    if 0 <= unwarned(next, next.len() as int) < unwarned(rules, rules.len() as int) {
        shadow_settled(table, at, also, next)
    } else {
        next
    }
}

fn count_unwarned(rules: &Vec<RulePlan>) -> (result: usize)
    ensures
        result == unwarned(views(rules@), rules@.len() as int),
{
    let mut count: usize = 0;
    let mut n: usize = 0;
    while n < rules.len()
        invariant
            count <= n <= rules@.len(),
            count == unwarned(views(rules@), n as int),
        decreases rules.len() - n,
    {
        assert(views(rules@)[n as int] == rules@[n as int]@);
        if rules[n].warning.is_none() {
            count += 1;
        }
        n += 1;
    }
    count
}

fn stamp_round<'a>(table: &Vec<ShadowEntry>, at: &Contest<'a>, also: &Vec<RuleId>, rules: &mut Vec<RulePlan>)
    ensures
        views(final(rules)@) == shadow_round(views(table@), at@, also@, views(old(rules)@)),
        final(rules)@.len() == old(rules)@.len(),
{
    let ghost start = views(rules@);
    let none: Vec<String> = Vec::new();
    assert(texts(none@) =~= Seq::empty());
    let retained = index_shadow_selectors(table, &collect_retained_css(rules, also), &none);
    let hidden = does_hide_selectors(rules, also);
    let mut i: usize = 0;
    while i < rules.len()
        invariant
            i <= rules@.len() == start.len(),
            rules@.len() == old(rules)@.len(),
            forall|k: int|
                0 <= k < i ==> #[trigger] views(rules@)[k] == sibling_stamped(
                    at@,
                    retained@,
                    hidden,
                    also@,
                    start[k],
                ),
            forall|k: int| i <= k < start.len() ==> #[trigger] views(rules@)[k] == start[k],
        decreases rules.len() - i,
    {
        assert(views(rules@)[i as int] == rules@[i as int]@);
        let free = !does_stay(&rules[i], also);
        if free && (hidden || retained.unverifiable || is_contested(at, &retained, Rival::InFile, &rules[i])) {
            warn_rule(rules, i, "shadowed-scoped-rule");
        }
        i += 1;
    }
    assert(views(rules@) =~= shadow_round(views(table@), at@, also@, start));
}

/// A retained rule in the same scoped block is itself an unlayered competitor:
/// deleting a sibling rule that shares one of its sites would expose it over
/// the layered replacement utility. Retention can cascade, so rules are
/// stamped until nothing changes.
pub fn stamp_in_file_shadow<'a>(
    table: &Vec<ShadowEntry>,
    at: &Contest<'a>,
    also: &Vec<RuleId>,
    rules: &mut Vec<RulePlan>,
)
    ensures
        views(final(rules)@) == shadow_settled(views(table@), at@, also@, views(old(rules)@)),
    decreases unwarned(views(old(rules)@), old(rules)@.len() as int),
{
    let ghost start = views(rules@);
    let before = count_unwarned(rules);
    stamp_round(table, at, also, rules);
    let after = count_unwarned(rules);
    assert(views(rules@).len() == rules@.len() && start.len() == rules@.len());
    if after < before {
        stamp_in_file_shadow(table, at, also, rules);
    }
}

// ---------------------------------------------------------------------------
// Laws
// ---------------------------------------------------------------------------

proof fn lemma_counts(rules: Seq<RuleModel>, next: Seq<RuleModel>, n: int)
    requires
        0 <= n <= rules.len(),
        next.len() == rules.len(),
        forall|k: int|
            0 <= k < rules.len() ==> #[trigger] next[k] == rules[k] || (rules[k].warning is None
                && next[k].warning is Some),
    ensures
        0 <= unwarned(next, n) <= unwarned(rules, n),
        unwarned(next, n) == unwarned(rules, n) ==> forall|k: int| 0 <= k < n ==> #[trigger] next[k] == rules[k],
    decreases n,
{
    if n > 0 {
        lemma_counts(rules, next, n - 1);
    }
}

proof fn lemma_round(table: Seq<ShadowEntryModel>, at: ContestModel, also: Seq<RuleId>, rules: Seq<RuleModel>)
    ensures
        ({
            let next = shadow_round(table, at, also, rules);
            &&& next.len() == rules.len()
            &&& unwarned(next, next.len() as int) <= unwarned(rules, rules.len() as int)
            &&& unwarned(next, next.len() as int) == unwarned(rules, rules.len() as int) ==> next == rules
            &&& 0 <= unwarned(next, next.len() as int)
        }),
{
    let next = shadow_round(table, at, also, rules);
    let retained = indexed(table, retained_css(rules, also, rules.len() as int), seq![]);
    let hidden = hides_selectors(rules, also);
    assert forall|k: int| 0 <= k < rules.len() implies #[trigger] next[k] == rules[k] || (rules[k].warning is None
        && next[k].warning is Some) by {
        assert(next[k] == sibling_stamped(at, retained, hidden, also, rules[k]));
    }
    lemma_counts(rules, next, rules.len() as int);
    if unwarned(next, next.len() as int) == unwarned(rules, rules.len() as int) {
        assert(next =~= rules);
    }
}

/// Retention is complete: among the settled rules no retained rule competes
/// with a rule that may go.
pub proof fn settled_rules_expose_nothing(
    table: Seq<ShadowEntryModel>,
    at: ContestModel,
    also: Seq<RuleId>,
    rules: Seq<RuleModel>,
)
    ensures
        ({
            let settled = shadow_settled(table, at, also, rules);
            let retained = indexed(table, retained_css(settled, also, settled.len() as int), seq![]);
            forall|i: int|
                0 <= i < settled.len() && !stays(#[trigger] settled[i], also) ==> !contested(
                    at,
                    retained,
                    Rival::InFile,
                    settled[i],
                ) && !retained.unverifiable && !hides_selectors(settled, also)
        }),
    decreases unwarned(rules, rules.len() as int),
{
    let next = shadow_round(table, at, also, rules);
    lemma_round(table, at, also, rules);
    if unwarned(next, next.len() as int) < unwarned(rules, rules.len() as int) {
        settled_rules_expose_nothing(table, at, also, next);
        assert(shadow_settled(table, at, also, rules) == shadow_settled(table, at, also, next));
    } else {
        assert(shadow_settled(table, at, also, rules) == next);
        assert(next == rules);
        let retained = indexed(table, retained_css(rules, also, rules.len() as int), seq![]);
        let hidden = hides_selectors(rules, also);
        assert forall|i: int| 0 <= i < next.len() && !stays(#[trigger] next[i], also) implies !contested(
            at,
            retained,
            Rival::InFile,
            next[i],
        ) && !retained.unverifiable && !hidden by {
            assert(next[i] == sibling_stamped(at, retained, hidden, also, rules[i]));
        }
    }
}

} // verus!
