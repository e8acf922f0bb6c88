//! What a stylesheet refers to, loads, registers and lets escape its scope.
use crate::css::{
    at_name, block_statements, css_span, fail, failed, get_at_name, get_block_statements, get_css_span, has_block,
    ident_name, in_block, is_present, lemma_block_inside, literal_ident, literal_str, optional_css_span, parse_css,
    present, read_css, span_in, str_value, Halt, HaltModel, Parse, ParseModel, StylesheetSyntax,
};
use crate::css_plan::{copy_part, part};
use crate::errors::ErrorKind;
use crate::names::{insert_names, with_names};
use crate::number::pairs_of;
use crate::order::{lemma_placed, placed};
use crate::path::{extension, has_extension};
use crate::path_table::{find_source, put_source, source_at, with_source};
use crate::position::{byte_at, has_byte_at};
use crate::syntax::{
    field, get, get_items, get_text, is_kind, items, lemma_field_smaller, lies_in, of_kind, optional, optional_list,
    optional_text, text_field,
};
use crate::text::{
    copy, is_before, join, joined, lowercase, precedes, push_texts, same, split_words, strip_prefix, texts,
    to_lowercase, trim, trimmed, views, without_prefix, words, Separator,
};
use crate::tree::{lemma_list_model, list_model, tree_model, Tree, TreeModel};
use vstd::prelude::*;

verus! {

// ---------------------------------------------------------------------------
// Facts
// ---------------------------------------------------------------------------

/// What some statements say.
#[derive(Debug)]
pub struct StatementFacts {
    pub references: Vec<String>,
    pub unverifiable: bool,
    pub scope_escapes: Vec<String>,
    pub scope_shadow_css: Vec<String>,
    pub scope_escapes_unverifiable: bool,
    pub selectors_unverifiable: bool,
    /// Some selector escapes its scope.
    pub escaping: bool,
}

/// The model of [`StatementFacts`].
pub struct FactsModel {
    pub references: Seq<Seq<char>>,
    pub unverifiable: bool,
    pub scope_escapes: Seq<Seq<char>>,
    pub scope_shadow_css: Seq<Seq<char>>,
    pub scope_escapes_unverifiable: bool,
    pub selectors_unverifiable: bool,
    pub escaping: bool,
}

impl View for StatementFacts {
    type V = FactsModel;

    open spec fn view(&self) -> FactsModel {
        FactsModel {
            references: texts(self.references@),
            unverifiable: self.unverifiable,
            scope_escapes: texts(self.scope_escapes@),
            scope_shadow_css: texts(self.scope_shadow_css@),
            scope_escapes_unverifiable: self.scope_escapes_unverifiable,
            selectors_unverifiable: self.selectors_unverifiable,
            escaping: self.escaping,
        }
    }
}

pub open spec fn no_facts() -> FactsModel {
    FactsModel {
        references: seq![],
        unverifiable: false,
        scope_escapes: seq![],
        scope_shadow_css: seq![],
        scope_escapes_unverifiable: false,
        selectors_unverifiable: false,
        escaping: false,
    }
}

/// What two lists of statements say, one behind the other.
pub open spec fn both(a: FactsModel, b: FactsModel) -> FactsModel {
    FactsModel {
        references: a.references + b.references,
        unverifiable: a.unverifiable || b.unverifiable,
        scope_escapes: a.scope_escapes + b.scope_escapes,
        scope_shadow_css: a.scope_shadow_css + b.scope_shadow_css,
        scope_escapes_unverifiable: a.scope_escapes_unverifiable || b.scope_escapes_unverifiable,
        selectors_unverifiable: a.selectors_unverifiable || b.selectors_unverifiable,
        escaping: a.escaping || b.escaping,
    }
}

fn empty_facts() -> (result: StatementFacts)
    ensures
        result@ == no_facts(),
{
    let result = StatementFacts {
        references: Vec::new(),
        unverifiable: false,
        scope_escapes: Vec::new(),
        scope_shadow_css: Vec::new(),
        scope_escapes_unverifiable: false,
        selectors_unverifiable: false,
        escaping: false,
    };
    assert(result@.references =~= Seq::empty());
    assert(result@.scope_escapes =~= Seq::empty());
    assert(result@.scope_shadow_css =~= Seq::empty());
    result
}

fn absorb(known: &mut StatementFacts, more: &StatementFacts)
    ensures
        final(known)@ == both(old(known)@, more@),
{
    push_texts(&mut known.references, &more.references);
    known.unverifiable = known.unverifiable || more.unverifiable;
    push_texts(&mut known.scope_escapes, &more.scope_escapes);
    push_texts(&mut known.scope_shadow_css, &more.scope_shadow_css);
    known.scope_escapes_unverifiable = known.scope_escapes_unverifiable || more.scope_escapes_unverifiable;
    known.selectors_unverifiable = known.selectors_unverifiable || more.selectors_unverifiable;
    known.escaping = known.escaping || more.escaping;
}

// ---------------------------------------------------------------------------
// Selectors that escape their scope
// ---------------------------------------------------------------------------

/// The pseudo selectors of Vue that reach beyond a component's scope.
pub open spec fn scope_escape_name(name: TreeModel) -> bool {
    match ident_name(name) {
        Some(text) => {
            ||| text == "deep"@
            ||| text == "global"@
            ||| text == "slotted"@
            ||| text == "v-deep"@
            ||| text == "v-global"@
            ||| text == "v-slotted"@
        },
        None => false,
    }
}

fn is_scope_escape_name(name: Option<&Tree>) -> (result: bool)
    ensures
        result == scope_escape_name(optional(name)),
{
    match literal_ident(name) {
        Some(text) => {
            let text = text.as_str();
            same(text, "deep") || same(text, "global") || same(text, "slotted") || same(text, "v-deep") || same(
                text,
                "v-global",
            ) || same(text, "v-slotted")
        },
        None => false,
    }
}

/// The selector is a pseudo class or element that escapes its scope.
pub open spec fn escapes_scope(simple: TreeModel) -> bool {
    (of_kind(simple, "PseudoClassSelector"@) || of_kind(simple, "PseudoElementSelector"@)) && scope_escape_name(
        field(simple, "name"@),
    )
}

/// What a selector that escapes its scope says: what it reaches, where that is
/// written.
pub open spec fn escape_facts(source: Seq<char>, simple: TreeModel) -> FactsModel {
    let arg = field(simple, "arg"@);
    if present(arg) {
        FactsModel {
            scope_escapes: seq![
                part(source, span_in(arg, "lParen"@).1 as int, span_in(arg, "rParen"@).0 as int) + " {}"@,
            ],
            escaping: true,
            ..no_facts()
        }
    } else {
        FactsModel { scope_escapes_unverifiable: true, escaping: true, ..no_facts() }
    }
}

/// The combinators that pierced shadow roots once.
pub open spec fn piercing(child: TreeModel) -> bool {
    of_kind(child, "Combinator"@) && (text_field(child, "kind"@) == Some("Deep"@) || text_field(child, "kind"@) == Some(
        "ShadowChild"@,
    ) || text_field(child, "kind"@) == Some("ShadowDescendant"@))
}

/// The selectors that the argument of a pseudo class lists.
pub open spec fn arg_selectors(arg: TreeModel) -> Seq<TreeModel> {
    let kind = field(arg, "kind"@);
    if of_kind(kind, "CompoundSelectorList"@) || of_kind(kind, "RelativeSelectorList"@) || of_kind(
        kind,
        "SelectorList"@,
    ) {
        items(kind, "selectors"@)
    } else if of_kind(kind, "Nth"@) {
        items(field(field(kind, "matcher"@), "selector"@), "selectors"@)
    } else {
        seq![]
    }
}

/// The parts of a selector in which selectors may escape their scope.
pub open spec fn inner_parts(node: TreeModel) -> Seq<TreeModel> {
    if of_kind(node, "ComplexSelector"@) || of_kind(node, "CompoundSelector"@) {
        items(node, "children"@)
    } else if of_kind(node, "RelativeSelector"@) {
        items(field(node, "complexSelector"@), "children"@)
    } else if of_kind(node, "PseudoClassSelector"@) {
        arg_selectors(field(node, "arg"@))
    } else {
        seq![]
    }
}

proof fn lemma_items_inside(tree: TreeModel, name: Seq<char>, i: int)
    requires
        0 <= i < items(tree, name).len(),
    ensures
        lies_in(tree, items(tree, name)[i]),
        tree != TreeModel::Null,
{
    lemma_field_smaller(tree, name);
    let list = field(tree, name);
    assert(list is List);
    assert(decreases_to!(list => list->List_0));
    assert(decreases_to!(list->List_0 => (list->List_0)[i]));
    assert(tree != TreeModel::Null) by {
        assert(field(TreeModel::Null, name) == TreeModel::Null);
    }
}

pub proof fn lemma_parts_inside(node: TreeModel, i: int)
    requires
        0 <= i < inner_parts(node).len(),
    ensures
        lies_in(node, inner_parts(node)[i]),
{
    if of_kind(node, "ComplexSelector"@) || of_kind(node, "CompoundSelector"@) {
        lemma_items_inside(node, "children"@, i);
    } else if of_kind(node, "RelativeSelector"@) {
        lemma_field_smaller(node, "complexSelector"@);
        lemma_items_inside(field(node, "complexSelector"@), "children"@, i);
    } else {
        let arg = field(node, "arg"@);
        let kind = field(arg, "kind"@);
        lemma_field_smaller(node, "arg"@);
        lemma_field_smaller(arg, "kind"@);
        if of_kind(kind, "CompoundSelectorList"@) || of_kind(kind, "RelativeSelectorList"@) || of_kind(
            kind,
            "SelectorList"@,
        ) {
            lemma_items_inside(kind, "selectors"@, i);
        } else {
            let matcher = field(kind, "matcher"@);
            let selector = field(matcher, "selector"@);
            lemma_field_smaller(kind, "matcher"@);
            lemma_field_smaller(matcher, "selector"@);
            lemma_items_inside(selector, "selectors"@, i);
            assert(matcher != TreeModel::Null) by {
                assert(field(TreeModel::Null, "selector"@) == TreeModel::Null);
            }
            assert(kind != TreeModel::Null) by {
                assert(field(TreeModel::Null, "matcher"@) == TreeModel::Null);
            }
        }
        assert(arg != TreeModel::Null) by {
            assert(field(TreeModel::Null, "kind"@) == TreeModel::Null);
        }
    }
}

/// What the first `n` parts of a selector let escape.
pub open spec fn escapes(source: Seq<char>, node: TreeModel, n: nat) -> FactsModel
    decreases node, n,
{
    if n == 0 || n > inner_parts(node).len() {
        no_facts()
    } else {
        let before = escapes(source, node, (n - 1) as nat);
        let child = inner_parts(node)[n - 1];
        if escapes_scope(child) {
            both(before, escape_facts(source, child))
        } else if piercing(child) {
            both(before, FactsModel { scope_escapes_unverifiable: true, escaping: true, ..no_facts() })
        } else if lies_in(node, child) {
            both(before, escapes(source, child, inner_parts(child).len()))
        } else {
            before
        }
    }
}

fn does_escape_scope(simple: &Tree) -> (result: bool)
    ensures
        result == escapes_scope(simple@),
{
    (is_kind(simple, "PseudoClassSelector") || is_kind(simple, "PseudoElementSelector")) && is_scope_escape_name(
        get(simple, "name"),
    )
}

fn read_escape(source: &str, simple: &Tree) -> (result: StatementFacts)
    ensures
        result@ == escape_facts(source@, simple@),
{
    let mut result = empty_facts();
    result.escaping = true;
    let found = get(simple, "arg");
    if is_present(found) {
        if let Some(arg) = found {
            let start = crate::css::get_span_in(arg, "lParen").1;
            let end = crate::css::get_span_in(arg, "rParen").0;
            let mut text = copy_part(source, start, end);
            text.append(" {}");
            result.scope_escapes.push(text);
            assert(result@.scope_escapes =~= escape_facts(source@, simple@).scope_escapes);
        }
    } else {
        result.scope_escapes_unverifiable = true;
    }
    result
}

fn is_piercing(child: &Tree) -> (result: bool)
    ensures
        result == piercing(child@),
{
    if !is_kind(child, "Combinator") {
        return false;
    }
    match get_text(child, "kind") {
        Some(kind) => same(kind.as_str(), "Deep") || same(kind.as_str(), "ShadowChild") || same(
            kind.as_str(),
            "ShadowDescendant",
        ),
        None => false,
    }
}

fn get_arg_selectors<'a>(arg: &'a Tree) -> (result: Option<&'a Vec<Tree>>)
    ensures
        optional_list(result) == arg_selectors(arg@),
        result matches Some(list) ==> decreases_to!(*arg => list@),
{
    let kind = match get(arg, "kind") {
        Some(kind) => kind,
        None => {
            assert(text_field(TreeModel::Null, "type"@) is None);
            assert(arg_selectors(arg@) =~= Seq::empty());
            return None;
        },
    };
    if is_kind(kind, "CompoundSelectorList") || is_kind(kind, "RelativeSelectorList") || is_kind(kind, "SelectorList") {
        get_items(kind, "selectors")
    } else if is_kind(kind, "Nth") {
        assert(items(TreeModel::Null, "selectors"@) =~= Seq::empty());
        assert(field(TreeModel::Null, "selector"@) == TreeModel::Null);
        match get(kind, "matcher") {
            Some(matcher) => match get(matcher, "selector") {
                Some(selector) => get_items(selector, "selectors"),
                None => None,
            },
            None => None,
        }
    } else {
        None
    }
}

fn get_inner_parts<'a>(node: &'a Tree) -> (result: Option<&'a Vec<Tree>>)
    ensures
        optional_list(result) == inner_parts(node@),
        result matches Some(list) ==> decreases_to!(*node => list@),
{
    if is_kind(node, "ComplexSelector") || is_kind(node, "CompoundSelector") {
        get_items(node, "children")
    } else if is_kind(node, "RelativeSelector") {
        match get(node, "complexSelector") {
            Some(selector) => get_items(selector, "children"),
            None => {
                assert(items(TreeModel::Null, "children"@) =~= Seq::empty());
                None
            },
        }
    } else if is_kind(node, "PseudoClassSelector") {
        match get(node, "arg") {
            Some(arg) => get_arg_selectors(arg),
            None => {
                assert(field(TreeModel::Null, "kind"@) == TreeModel::Null);
                assert(text_field(TreeModel::Null, "type"@) is None);
                None
            },
        }
    } else {
        None
    }
}

fn collect_scope_escapes(source: &str, node: &Tree) -> (result: StatementFacts)
    ensures
        result@ == escapes(source@, node@, inner_parts(node@).len()),
    decreases node,
{
    let mut known = empty_facts();
    if let Some(parts) = get_inner_parts(node) {
        let ghost models = inner_parts(node@);
        proof {
            lemma_list_model(parts@, parts@.len());
        }
        let mut n: usize = 0;
        while n < parts.len()
            invariant
                n <= parts@.len(),
                models == inner_parts(node@),
                models.len() == parts@.len(),
                forall|k: int| 0 <= k < parts@.len() ==> #[trigger] models[k] == tree_model(parts@[k]),
                decreases_to!(*node => parts@),
                known@ == escapes(source@, node@, n as nat),
            decreases parts.len() - n,
        {
            let child = &parts[n];
            assert(models[n as int] == tree_model(parts@[n as int]));
            assert(decreases_to!(parts@ => parts@[n as int]));
            proof {
                lemma_parts_inside(node@, n as int);
            }
            if does_escape_scope(child) {
                absorb(&mut known, &read_escape(source, child));
            } else if is_piercing(child) {
                let mut pierced = empty_facts();
                pierced.scope_escapes_unverifiable = true;
                pierced.escaping = true;
                absorb(&mut known, &pierced);
            } else {
                absorb(&mut known, &collect_scope_escapes(source, child));
            }
            n += 1;
        }
    }
    known
}

// ---------------------------------------------------------------------------
// Selectors that cannot be read
// ---------------------------------------------------------------------------

/// The simple selector's name is not known before the stylesheet is compiled.
pub open spec fn simple_unread(simple: TreeModel) -> bool {
    ||| (of_kind(simple, "ClassSelector"@) || of_kind(simple, "IdSelector"@)) && !of_kind(
        field(simple, "name"@),
        "Ident"@,
    )
    ||| of_kind(simple, "TagNameSelector"@) && !of_kind(field(field(simple, "name"@), "name"@), "Ident"@)
    ||| of_kind(simple, "NestingSelector"@) && present(field(simple, "suffix"@))
}

fn is_simple_unread(simple: &Tree) -> (result: bool)
    ensures
        result == simple_unread(simple@),
{
    proof {
        assert(text_field(TreeModel::Null, "type"@) is None);
        assert(field(TreeModel::Null, "name"@) == TreeModel::Null);
    }
    if is_kind(simple, "ClassSelector") || is_kind(simple, "IdSelector") {
        let unread = match get(simple, "name") {
            Some(name) => !is_kind(name, "Ident"),
            None => true,
        };
        if unread {
            return true;
        }
    }
    if is_kind(simple, "TagNameSelector") {
        let unread = match get(simple, "name") {
            Some(name) => match get(name, "name") {
                Some(name) => !is_kind(name, "Ident"),
                None => true,
            },
            None => true,
        };
        if unread {
            return true;
        }
    }
    is_kind(simple, "NestingSelector") && is_present(get(simple, "suffix"))
}

/// Some simple selector of the compound selector cannot be read.
pub open spec fn compound_unread(compound: TreeModel) -> bool {
    exists|i: int| 0 <= i < items(compound, "children"@).len() && simple_unread(#[trigger] items(compound, "children"@)[i])
}

/// Some compound selector of the selector cannot be read.
pub open spec fn selector_unread(selector: TreeModel) -> bool {
    exists|i: int|
        0 <= i < items(selector, "children"@).len() && of_kind(
            #[trigger] items(selector, "children"@)[i],
            "CompoundSelector"@,
        ) && compound_unread(items(selector, "children"@)[i])
}

fn is_compound_unread(compound: &Tree) -> (result: bool)
    ensures
        result == compound_unread(compound@),
{
    if let Some(children) = get_items(compound, "children") {
        let ghost models = items(compound@, "children"@);
        proof {
            lemma_list_model(children@, children@.len());
        }
        let mut i: usize = 0;
        while i < children.len()
            invariant
                i <= children@.len(),
                models == items(compound@, "children"@),
                models.len() == children@.len(),
                forall|k: int| 0 <= k < children@.len() ==> #[trigger] models[k] == tree_model(children@[k]),
                forall|k: int| 0 <= k < i ==> !simple_unread(#[trigger] models[k]),
            decreases children.len() - i,
        {
            assert(models[i as int] == tree_model(children@[i as int]));
            if is_simple_unread(&children[i]) {
                assert(simple_unread(models[i as int]));
                return true;
            }
            i += 1;
        }
    }
    false
}

fn selector_is_unverifiable(selector: &Tree) -> (result: bool)
    ensures
        result == selector_unread(selector@),
{
    if let Some(children) = get_items(selector, "children") {
        let ghost models = items(selector@, "children"@);
        proof {
            lemma_list_model(children@, children@.len());
        }
        let mut i: usize = 0;
        while i < children.len()
            invariant
                i <= children@.len(),
                models == items(selector@, "children"@),
                models.len() == children@.len(),
                forall|k: int| 0 <= k < children@.len() ==> #[trigger] models[k] == tree_model(children@[k]),
                forall|k: int|
                    0 <= k < i ==> !(of_kind(#[trigger] models[k], "CompoundSelector"@) && compound_unread(models[k])),
            decreases children.len() - i,
        {
            assert(models[i as int] == tree_model(children@[i as int]));
            if is_kind(&children[i], "CompoundSelector") && is_compound_unread(&children[i]) {
                assert(of_kind(models[i as int], "CompoundSelector"@) && compound_unread(models[i as int]));
                return true;
            }
            i += 1;
        }
    }
    false
}

/// What the first `n` selectors of a rule say.
pub open spec fn selector_facts(source: Seq<char>, selectors: Seq<TreeModel>, n: int) -> FactsModel
    decreases n,
{
    if n <= 0 {
        no_facts()
    } else {
        let selector = selectors[n - 1];
        both(
            selector_facts(source, selectors, n - 1),
            FactsModel {
                selectors_unverifiable: selector_unread(selector),
                ..escapes(source, selector, inner_parts(selector).len())
            },
        )
    }
}

/// The selectors of a rule.
pub open spec fn rule_selectors(rule: TreeModel) -> Seq<TreeModel> {
    items(field(rule, "selector"@), "selectors"@)
}

fn collect_selector_facts(source: &str, rule: &Tree) -> (result: StatementFacts)
    ensures
        result@ == selector_facts(source@, rule_selectors(rule@), rule_selectors(rule@).len() as int),
{
    let mut known = empty_facts();
    let selectors = match get(rule, "selector") {
        Some(selector) => get_items(selector, "selectors"),
        None => {
            assert(items(TreeModel::Null, "selectors"@) =~= Seq::empty());
            None
        },
    };
    if let Some(selectors) = selectors {
        let ghost models = rule_selectors(rule@);
        proof {
            lemma_list_model(selectors@, selectors@.len());
        }
        let mut n: usize = 0;
        while n < selectors.len()
            invariant
                n <= selectors@.len(),
                models == rule_selectors(rule@),
                models.len() == selectors@.len(),
                forall|k: int| 0 <= k < selectors@.len() ==> #[trigger] models[k] == tree_model(selectors@[k]),
                known@ == selector_facts(source@, models, n as int),
            decreases selectors.len() - n,
        {
            assert(models[n as int] == tree_model(selectors@[n as int]));
            let mut own = collect_scope_escapes(source, &selectors[n]);
            own.selectors_unverifiable = selector_is_unverifiable(&selectors[n]);
            absorb(&mut known, &own);
            n += 1;
        }
    }
    known
}

// ---------------------------------------------------------------------------
// References
// ---------------------------------------------------------------------------

/// The target of an import, where it is written without interpolation.
pub open spec fn import_href(href: TreeModel) -> Option<Seq<char>> {
    if of_kind(href, "Url"@) {
        let value = field(href, "value"@);
        if of_kind(value, "UrlRaw"@) {
            text_field(value, "value"@)
        } else {
            str_value(value)
        }
    } else {
        str_value(href)
    }
}

pub fn get_import_href<'a>(href: Option<&'a Tree>) -> (result: Option<&'a String>)
    ensures
        optional_text(result) == import_href(optional(href)),
{
    let href = match href {
        Some(href) => href,
        None => {
            assert(text_field(TreeModel::Null, "type"@) is None);
            return None;
        },
    };
    if is_kind(href, "Url") {
        let value = get(href, "value");
        if let Some(raw) = value {
            if is_kind(raw, "UrlRaw") {
                return get_text(raw, "value");
            }
        }
        assert(text_field(TreeModel::Null, "type"@) is None);
        literal_str(value)
    } else {
        literal_str(Some(href))
    }
}

/// A reference, or that it cannot be read.
pub open spec fn reference_facts(reference: Option<Seq<char>>) -> FactsModel {
    match reference {
        Some(text) => FactsModel { references: seq![text], ..no_facts() },
        None => FactsModel { unverifiable: true, ..no_facts() },
    }
}

fn read_reference(reference: Option<&String>) -> (result: StatementFacts)
    ensures
        result@ == reference_facts(optional_text(reference)),
{
    let mut result = empty_facts();
    match reference {
        Some(text) => {
            result.references.push(copy(text.as_str()));
            assert(result@.references =~= seq![text@]);
        },
        None => {
            result.unverifiable = true;
        },
    }
    result
}

/// The values of the first `n` strings.
pub open spec fn path_values(paths: Seq<TreeModel>, n: int) -> Seq<Seq<char>>
    decreases n,
{
    if n <= 0 {
        seq![]
    } else {
        match text_field(paths[n - 1], "value"@) {
            Some(text) => path_values(paths, n - 1).push(text),
            None => path_values(paths, n - 1),
        }
    }
}

fn collect_path_values(prelude: &Tree) -> (result: Vec<String>)
    ensures
        texts(result@) == path_values(items(prelude@, "paths"@), items(prelude@, "paths"@).len() as int),
{
    let mut result: Vec<String> = Vec::new();
    assert(texts(result@) =~= Seq::empty());
    if let Some(paths) = get_items(prelude, "paths") {
        let ghost models = items(prelude@, "paths"@);
        proof {
            lemma_list_model(paths@, paths@.len());
        }
        let mut n: usize = 0;
        while n < paths.len()
            invariant
                n <= paths@.len(),
                models.len() == paths@.len(),
                forall|k: int| 0 <= k < paths@.len() ==> #[trigger] models[k] == tree_model(paths@[k]),
                texts(result@) == path_values(models, n as int),
            decreases paths.len() - n,
        {
            assert(models[n as int] == tree_model(paths@[n as int]));
            if let Some(text) = get_text(&paths[n], "value") {
                let ghost before = result@;
                result.push(copy(text.as_str()));
                assert(texts(result@) =~= texts(before).push(text@));
            }
            n += 1;
        }
    }
    result
}

/// What the prelude of an at-rule refers to.
pub open spec fn prelude_facts(prelude: TreeModel) -> FactsModel {
    if of_kind(prelude, "ImportPrelude"@) || of_kind(prelude, "LessImportPrelude"@) {
        reference_facts(import_href(field(prelude, "href"@)))
    } else if of_kind(prelude, "SassImportPrelude"@) {
        FactsModel {
            references: path_values(items(prelude, "paths"@), items(prelude, "paths"@).len() as int),
            ..no_facts()
        }
    } else if of_kind(prelude, "SassUse"@) || of_kind(prelude, "SassForward"@) {
        reference_facts(str_value(field(prelude, "path"@)))
    } else {
        no_facts()
    }
}

fn read_prelude(prelude: Option<&Tree>) -> (result: StatementFacts)
    ensures
        result@ == prelude_facts(optional(prelude)),
{
    let prelude = match prelude {
        Some(prelude) => prelude,
        None => {
            assert(text_field(TreeModel::Null, "type"@) is None);
            return empty_facts();
        },
    };
    if is_kind(prelude, "ImportPrelude") || is_kind(prelude, "LessImportPrelude") {
        read_reference(get_import_href(get(prelude, "href")))
    } else if is_kind(prelude, "SassImportPrelude") {
        let mut result = empty_facts();
        result.references = collect_path_values(prelude);
        result
    } else if is_kind(prelude, "SassUse") || is_kind(prelude, "SassForward") {
        read_reference(literal_str(get(prelude, "path")))
    } else {
        empty_facts()
    }
}

/// Where `from` stands among the values, from `i` on.
pub open spec fn from_index(values: Seq<TreeModel>, i: int) -> int
    decreases values.len() - i,
{
    if i < 0 || i >= values.len() {
        values.len() as int
    } else if ident_name(values[i]) == Some("from"@) {
        i
    } else {
        from_index(values, i + 1)
    }
}

/// What a declaration refers to: `composes` may name another stylesheet.
pub open spec fn composes_facts(declaration: TreeModel) -> FactsModel {
    let values = items(declaration, "value"@);
    let at = from_index(values, 0);
    if ident_name(field(declaration, "name"@)) != Some("composes"@) || at >= values.len() {
        no_facts()
    } else if at + 1 >= values.len() {
        FactsModel { unverifiable: true, ..no_facts() }
    } else if ident_name(values[at + 1]) == Some("global"@) {
        no_facts()
    } else {
        reference_facts(str_value(values[at + 1]))
    }
}

fn find_from(values: &Vec<Tree>) -> (result: usize)
    ensures
        result == from_index(list_model(values@, values@.len()), 0),
        result <= values@.len(),
{
    let ghost models = list_model(values@, values@.len());
    proof {
        lemma_list_model(values@, values@.len());
    }
    let mut i: usize = 0;
    while i < values.len()
        invariant
            i <= values@.len(),
            models.len() == values@.len(),
            models == list_model(values@, values@.len()),
            forall|k: int| 0 <= k < values@.len() ==> #[trigger] models[k] == tree_model(values@[k]),
            from_index(models, i as int) == from_index(models, 0),
        decreases values.len() - i,
    {
        assert(models[i as int] == tree_model(values@[i as int]));
        if let Some(name) = literal_ident(Some(&values[i])) {
            if same(name.as_str(), "from") {
                return i;
            }
        }
        i += 1;
    }
    i
}

/// Whether the node is an identifier with this name.
pub fn is_named(tree: Option<&Tree>, name: &str) -> (result: bool)
    ensures
        result == (ident_name(optional(tree)) == Some(name@)),
{
    match literal_ident(tree) {
        Some(text) => same(text.as_str(), name),
        None => false,
    }
}

fn read_composes(declaration: &Tree) -> (result: StatementFacts)
    ensures
        result@ == composes_facts(declaration@),
{
    if !is_named(get(declaration, "name"), "composes") {
        return empty_facts();
    }
    let values = match get_items(declaration, "value") {
        Some(values) => values,
        None => {
            return empty_facts();
        },
    };
    proof {
        lemma_list_model(values@, values@.len());
    }
    let at = find_from(values);
    if at >= values.len() {
        return empty_facts();
    }
    if at + 1 >= values.len() {
        let mut result = empty_facts();
        result.unverifiable = true;
        return result;
    }
    assert(items(declaration@, "value"@)[at + 1] == tree_model(values@[at + 1]));
    if is_named(Some(&values[at + 1]), "global") {
        return empty_facts();
    }
    read_reference(literal_str(Some(&values[at + 1])))
}

// ---------------------------------------------------------------------------
// Statements
// ---------------------------------------------------------------------------

/// What a style rule says, with what its block says. Mixed declarations and
/// nested rules are not taken apart: a rule with nested escapes cannot be
/// verified.
pub open spec fn rule_facts(source: Seq<char>, rule: TreeModel, inside: FactsModel) -> FactsModel {
    let selectors = rule_selectors(rule);
    let own = selector_facts(source, selectors, selectors.len() as int);
    let span = css_span(field(rule, "selector"@));
    let known = both(own, inside);
    FactsModel {
        scope_escapes_unverifiable: known.scope_escapes_unverifiable || inside.escaping,
        scope_shadow_css: if own.escaping || inside.escaping {
            known.scope_shadow_css
        } else {
            known.scope_shadow_css.push(part(source, span.0 as int, span.1 as int) + " {}"@)
        },
        ..known
    }
}

/// What one statement says, with what its block says.
pub open spec fn statement_facts(source: Seq<char>, statement: TreeModel, inside: FactsModel) -> FactsModel {
    if of_kind(statement, "AtRule"@) {
        both(prelude_facts(field(statement, "prelude"@)), inside)
    } else if of_kind(statement, "QualifiedRule"@) {
        rule_facts(source, statement, inside)
    } else if of_kind(statement, "Declaration"@) {
        composes_facts(statement)
    } else {
        no_facts()
    }
}

/// What the first `n` statements say.
pub open spec fn facts(source: Seq<char>, statements: Seq<TreeModel>, n: nat) -> FactsModel
    decreases statements, n,
{
    if n == 0 || n > statements.len() {
        no_facts()
    } else {
        let statement = statements[n - 1];
        let inside = if in_block(statements, statement) {
            facts(source, block_statements(statement), block_statements(statement).len())
        } else {
            no_facts()
        };
        both(facts(source, statements, (n - 1) as nat), statement_facts(source, statement, inside))
    }
}

fn read_rule(source: &str, rule: &Tree, inside: &StatementFacts) -> (result: StatementFacts)
    ensures
        result@ == rule_facts(source@, rule@, inside@),
{
    let mut known = collect_selector_facts(source, rule);
    let direct = known.escaping;
    absorb(&mut known, inside);
    if inside.escaping {
        known.scope_escapes_unverifiable = true;
    }
    if !direct && !inside.escaping {
        let span = optional_css_span(get(rule, "selector"));
        let mut text = copy_part(source, span.0, span.1);
        text.append(" {}");
        let ghost before = known.scope_shadow_css@;
        let ghost model = text@;
        known.scope_shadow_css.push(text);
        assert(texts(known.scope_shadow_css@) =~= texts(before).push(model));
    }
    known
}

fn read_statement(source: &str, statement: &Tree, inside: &StatementFacts) -> (result: StatementFacts)
    ensures
        result@ == statement_facts(source@, statement@, inside@),
{
    if is_kind(statement, "AtRule") {
        let mut known = read_prelude(get(statement, "prelude"));
        absorb(&mut known, inside);
        known
    } else if is_kind(statement, "QualifiedRule") {
        read_rule(source, statement, inside)
    } else if is_kind(statement, "Declaration") {
        read_composes(statement)
    } else {
        empty_facts()
    }
}

fn collect_stylesheet_statements(source: &str, statements: &Vec<Tree>) -> (result: StatementFacts)
    ensures
        result@ == facts(source@, list_model(statements@, statements@.len()), statements@.len()),
    decreases statements@,
{
    proof {
        lemma_list_model(statements@, statements@.len());
    }
    let ghost models = list_model(statements@, statements@.len());
    let mut known = empty_facts();
    let mut n: usize = 0;
    while n < statements.len()
        invariant
            n <= statements@.len(),
            models.len() == statements@.len(),
            forall|k: int| 0 <= k < statements@.len() ==> #[trigger] models[k] == tree_model(statements@[k]),
            known@ == facts(source@, models, n as nat),
        decreases statements.len() - n,
    {
        assert(models[n as int] == tree_model(statements@[n as int]));
        let statement = &statements[n];
        assert(decreases_to!(statements@ => statements@[n as int]));
        proof {
            lemma_block_inside(models, n as int);
        }
        let ghost mine = block_statements(models[n as int]);
        assert(mine.len() == 0 ==> facts(source@, mine, mine.len()) == no_facts());
        let inside = match get_block_statements(statement) {
            Some(block) => {
                proof {
                    lemma_list_model(block@, block@.len());
                }
                collect_stylesheet_statements(source, block)
            },
            None => empty_facts(),
        };
        absorb(&mut known, &read_statement(source, statement, &inside));
        n += 1;
    }
    known
}

// ---------------------------------------------------------------------------
// Theme tokens and registrations
// ---------------------------------------------------------------------------

/// What at-rules define.
#[derive(Debug)]
pub struct Definitions {
    /// Theme tokens and their values, as they are written.
    pub tokens: Vec<(String, String)>,
    pub identities: Vec<String>,
    pub unverifiable: bool,
}

/// The model of [`Definitions`].
pub struct DefinitionsModel {
    pub tokens: Seq<(Seq<char>, Seq<char>)>,
    pub identities: Seq<Seq<char>>,
    pub unverifiable: bool,
}

impl View for Definitions {
    type V = DefinitionsModel;

    open spec fn view(&self) -> DefinitionsModel {
        DefinitionsModel {
            tokens: pairs_of(self.tokens@),
            identities: texts(self.identities@),
            unverifiable: self.unverifiable,
        }
    }
}

pub open spec fn no_definitions() -> DefinitionsModel {
    DefinitionsModel { tokens: seq![], identities: seq![], unverifiable: false }
}

pub open spec fn both_define(a: DefinitionsModel, b: DefinitionsModel) -> DefinitionsModel {
    DefinitionsModel {
        tokens: a.tokens + b.tokens,
        identities: a.identities + b.identities,
        unverifiable: a.unverifiable || b.unverifiable,
    }
}

/// The value of a declaration, from its first component to its last.
pub open spec fn component_text(source: Seq<char>, declaration: TreeModel) -> Seq<char> {
    let values = items(declaration, "value"@);
    if values.len() == 0 {
        seq![]
    } else {
        trimmed(
            part(source, css_span(values[0]).0 as int, css_span(values.last()).1 as int),
            Separator::Whitespace,
        )
    }
}

fn declaration_value(source: &str, declaration: &Tree) -> (result: String)
    ensures
        result@ == component_text(source@, declaration@),
{
    match get_items(declaration, "value") {
        Some(values) => {
            proof {
                lemma_list_model(values@, values@.len());
            }
            if values.len() == 0 {
                return String::new();
            }
            let ghost models = items(declaration@, "value"@);
            assert(models[0] == tree_model(values@[0]));
            assert(models[models.len() - 1] == tree_model(values@[models.len() - 1]));
            let start = get_css_span(&values[0]).0;
            let end = get_css_span(&values[values.len() - 1]).1;
            trim(copy_part(source, start, end).as_str(), Separator::Whitespace)
        },
        None => String::new(),
    }
}

/// The theme tokens of the first `n` statements.
pub open spec fn tokens_in(source: Seq<char>, statements: Seq<TreeModel>, n: int) -> Seq<(Seq<char>, Seq<char>)>
    decreases n,
{
    if n <= 0 {
        seq![]
    } else {
        let before = tokens_in(source, statements, n - 1);
        let statement = statements[n - 1];
        if of_kind(statement, "Declaration"@) {
            match ident_name(field(statement, "name"@)) {
                Some(name) => match without_prefix(name, "--"@) {
                    Some(token) => before.push((token, component_text(source, statement))),
                    None => before,
                },
                None => before,
            }
        } else {
            before
        }
    }
}

fn find_token(statement: &Tree) -> (result: Option<String>)
    ensures
        crate::text::maybe(result) == (if of_kind(statement@, "Declaration"@) {
            match ident_name(field(statement@, "name"@)) {
                Some(name) => without_prefix(name, "--"@),
                None => None,
            }
        } else {
            None
        }),
{
    if !is_kind(statement, "Declaration") {
        return None;
    }
    match literal_ident(get(statement, "name")) {
        Some(name) => strip_prefix(name.as_str(), "--"),
        None => None,
    }
}

fn collect_tokens(source: &str, statements: &Vec<Tree>) -> (result: Vec<(String, String)>)
    ensures
        pairs_of(result@) == tokens_in(
            source@,
            list_model(statements@, statements@.len()),
            statements@.len() as int,
        ),
{
    let ghost models = list_model(statements@, statements@.len());
    proof {
        lemma_list_model(statements@, statements@.len());
    }
    let mut result: Vec<(String, String)> = Vec::new();
    assert(pairs_of(result@) =~= Seq::empty());
    let mut n: usize = 0;
    while n < statements.len()
        invariant
            n <= statements@.len(),
            models.len() == statements@.len(),
            forall|k: int| 0 <= k < statements@.len() ==> #[trigger] models[k] == tree_model(statements@[k]),
            pairs_of(result@) == tokens_in(source@, models, n as int),
        decreases statements.len() - n,
    {
        assert(models[n as int] == tree_model(statements@[n as int]));
        if let Some(token) = find_token(&statements[n]) {
            let value = declaration_value(source, &statements[n]);
            let ghost before = result@;
            let ghost model = (token@, value@);
            result.push((token, value));
            assert(pairs_of(result@) =~= pairs_of(before).push(model));
        }
        n += 1;
    }
    result
}

/// The family of a font face, from statement `i` on: without quotes, its words
/// parted by one space.
pub open spec fn family_from(source: Seq<char>, statements: Seq<TreeModel>, i: int) -> Option<Seq<char>>
    decreases statements.len() - i,
{
    if i < 0 || i >= statements.len() {
        None
    } else if of_kind(statements[i], "Declaration"@) && ident_name(field(statements[i], "name"@)) == Some(
        "font-family"@,
    ) {
        Some(
            joined(
                words(trimmed(component_text(source, statements[i]), Separator::Quote), Separator::Whitespace),
                " "@,
            ),
        )
    } else {
        family_from(source, statements, i + 1)
    }
}

fn find_family(source: &str, statements: &Vec<Tree>) -> (result: Option<String>)
    ensures
        crate::text::maybe(result) == family_from(source@, list_model(statements@, statements@.len()), 0),
{
    let ghost models = list_model(statements@, statements@.len());
    proof {
        lemma_list_model(statements@, statements@.len());
    }
    let mut i: usize = 0;
    while i < statements.len()
        invariant
            i <= statements@.len(),
            models.len() == statements@.len(),
            forall|k: int| 0 <= k < statements@.len() ==> #[trigger] models[k] == tree_model(statements@[k]),
            family_from(source@, models, i as int) == family_from(source@, models, 0),
            models == list_model(statements@, statements@.len()),
        decreases statements.len() - i,
    {
        let statement = &statements[i];
        assert(models[i as int] == tree_model(statements@[i as int]));
        if is_kind(statement, "Declaration") && is_named(get(statement, "name"), "font-family") {
            let value = declaration_value(source, statement);
            let bare = trim(value.as_str(), Separator::Quote);
            let parts = split_words(bare.as_str(), Separator::Whitespace);
            return Some(join(&parts, " "));
        }
        i += 1;
    }
    None
}

/// The identity of a font face by its family in lower case.
pub fn font_face_identity(family: &str) -> (result: String)
    ensures
        result@ == "font-face "@ + family@,
{
    let mut text = "font-face ".to_owned();
    text.append(family);
    text
}

/// The names of the first `n` identifiers; there are none where one is
/// interpolated.
pub open spec fn ident_names(idents: Seq<TreeModel>, n: int) -> Option<Seq<Seq<char>>>
    decreases n,
{
    if n <= 0 {
        Some(seq![])
    } else {
        match (ident_names(idents, n - 1), ident_name(idents[n - 1])) {
            (Some(before), Some(name)) => Some(before.push(name)),
            _ => None,
        }
    }
}

proof fn lemma_idents_missing(idents: Seq<TreeModel>, k: int, n: int)
    requires
        0 <= k <= n,
        ident_names(idents, k) is None,
    ensures
        ident_names(idents, n) is None,
    decreases n - k,
{
    if k < n {
        lemma_idents_missing(idents, k, n - 1);
    }
}

fn collect_ident_names(idents: &Vec<Tree>) -> (result: Option<Vec<String>>)
    ensures
        crate::text::maybe_texts(result) == ident_names(
            list_model(idents@, idents@.len()),
            idents@.len() as int,
        ),
{
    let ghost models = list_model(idents@, idents@.len());
    proof {
        lemma_list_model(idents@, idents@.len());
    }
    let mut result: Vec<String> = Vec::new();
    assert(texts(result@) =~= Seq::empty());
    let mut n: usize = 0;
    while n < idents.len()
        invariant
            n <= idents@.len(),
            models.len() == idents@.len(),
            models == list_model(idents@, idents@.len()),
            forall|k: int| 0 <= k < idents@.len() ==> #[trigger] models[k] == tree_model(idents@[k]),
            ident_names(models, n as int) == Some(texts(result@)),
        decreases idents.len() - n,
    {
        assert(models[n as int] == tree_model(idents@[n as int]));
        match literal_ident(Some(&idents[n])) {
            Some(name) => {
                let ghost before = result@;
                result.push(copy(name.as_str()));
                assert(texts(result@) =~= texts(before).push(name@));
            },
            None => {
                proof {
                    lemma_idents_missing(models, n + 1, idents@.len() as int);
                }
                return None;
            },
        }
        n += 1;
    }
    Some(result)
}

/// The name that a prelude registers.
pub open spec fn registered_name(prelude: TreeModel) -> Option<Seq<char>> {
    if of_kind(prelude, "Str"@) {
        str_value(prelude)
    } else if of_kind(prelude, "UnquotedFontFamilyName"@) {
        match ident_names(items(prelude, "idents"@), items(prelude, "idents"@).len() as int) {
            Some(names) => Some(joined(names, " "@)),
            None => None,
        }
    } else {
        ident_name(prelude)
    }
}

fn registration_prelude(prelude: Option<&Tree>) -> (result: Option<String>)
    ensures
        crate::text::maybe(result) == registered_name(optional(prelude)),
{
    let tree = match prelude {
        Some(tree) => tree,
        None => {
            assert(text_field(TreeModel::Null, "type"@) is None);
            return None;
        },
    };
    if is_kind(tree, "Str") {
        match literal_str(prelude) {
            Some(text) => Some(copy(text.as_str())),
            None => None,
        }
    } else if is_kind(tree, "UnquotedFontFamilyName") {
        match get_items(tree, "idents") {
            Some(idents) => {
                proof {
                    lemma_list_model(idents@, idents@.len());
                }
                match collect_ident_names(idents) {
                    Some(names) => Some(join(&names, " ")),
                    None => None,
                }
            },
            None => {
                let none: Vec<String> = Vec::new();
                assert(texts(none@) =~= Seq::empty());
                Some(join(&none, " "))
            },
        }
    } else {
        match literal_ident(prelude) {
            Some(text) => Some(copy(text.as_str())),
            None => None,
        }
    }
}

/// The at-rules that register a name for the whole page.
pub open spec fn registers(name: Seq<char>) -> bool {
    ||| name == "color-profile"@
    ||| name == "counter-style"@
    ||| name == "font-feature-values"@
    ||| name == "font-palette-values"@
    ||| name == "position-try"@
    ||| name == "property"@
    ||| name == "view-transition"@
}

fn does_register(name: &str) -> (result: bool)
    ensures
        result == registers(name@),
{
    same(name, "color-profile") || same(name, "counter-style") || same(name, "font-feature-values") || same(
        name,
        "font-palette-values",
    ) || same(name, "position-try") || same(name, "property") || same(name, "view-transition")
}

/// What one at-rule with a block registers.
pub open spec fn registration(source: Seq<char>, syntax: StylesheetSyntax, at_rule: TreeModel, name: Seq<char>) -> DefinitionsModel {
    if name == "font-face"@ {
        let family = match family_from(source, block_statements(at_rule), 0) {
            Some(family) => lowercase(family),
            None => seq![],
        };
        DefinitionsModel { identities: seq!["font-face "@ + family], ..no_definitions() }
    } else if name == "page"@ {
        DefinitionsModel { identities: seq!["page"@], ..no_definitions() }
    } else if registers(name) {
        match registered_name(field(at_rule, "prelude"@)) {
            Some(prelude) => DefinitionsModel { identities: seq![name + " "@ + prelude], ..no_definitions() },
            None => if syntax == StylesheetSyntax::Css {
                let prelude = trimmed(
                    part(
                        source,
                        css_span(field(at_rule, "name"@)).1 as int,
                        css_span(field(at_rule, "block"@)).0 as int,
                    ),
                    Separator::Whitespace,
                );
                DefinitionsModel { identities: seq![name + " "@ + prelude], ..no_definitions() }
            } else {
                DefinitionsModel { unverifiable: true, ..no_definitions() }
            },
        }
    } else {
        no_definitions()
    }
}

/// What one statement defines itself.
pub open spec fn own_definitions(source: Seq<char>, syntax: StylesheetSyntax, statement: TreeModel) -> DefinitionsModel {
    match at_name(statement) {
        Some(name) => {
            let registered = registration(source, syntax, statement, name);
            if name == "theme"@ {
                DefinitionsModel {
                    tokens: tokens_in(source, block_statements(statement), block_statements(statement).len() as int),
                    ..registered
                }
            } else {
                registered
            }
        },
        None => no_definitions(),
    }
}

/// What the first `n` statements define.
pub open spec fn definitions(source: Seq<char>, syntax: StylesheetSyntax, statements: Seq<TreeModel>, n: nat) -> DefinitionsModel
    decreases statements, n,
{
    if n == 0 || n > statements.len() {
        no_definitions()
    } else {
        let before = definitions(source, syntax, statements, (n - 1) as nat);
        let statement = statements[n - 1];
        if of_kind(statement, "AtRule"@) && has_block(statement) {
            let inside = if in_block(statements, statement) {
                definitions(source, syntax, block_statements(statement), block_statements(statement).len())
            } else {
                no_definitions()
            };
            both_define(before, both_define(own_definitions(source, syntax, statement), inside))
        } else {
            before
        }
    }
}

fn empty_definitions() -> (result: Definitions)
    ensures
        result@ == no_definitions(),
{
    let result = Definitions { tokens: Vec::new(), identities: Vec::new(), unverifiable: false };
    assert(result@.tokens =~= Seq::empty());
    assert(result@.identities =~= Seq::empty());
    result
}

fn absorb_definitions(known: &mut Definitions, more: Definitions)
    ensures
        final(known)@ == both_define(old(known)@, more@),
{
    let ghost before = known.tokens@;
    let ghost added = more.tokens@;
    let mut tokens = more.tokens;
    known.tokens.append(&mut tokens);
    assert(pairs_of(known.tokens@) =~= pairs_of(before) + pairs_of(added));
    push_texts(&mut known.identities, &more.identities);
    known.unverifiable = known.unverifiable || more.unverifiable;
}

fn one_identity(text: String) -> (result: Definitions)
    ensures
        result@ == (DefinitionsModel { identities: seq![text@], ..no_definitions() }),
{
    let mut result = empty_definitions();
    let ghost model = text@;
    result.identities.push(text);
    assert(result@.identities =~= seq![model]);
    result
}

fn named_identity(name: &str, prelude: &str) -> (result: Definitions)
    ensures
        result@ == (DefinitionsModel { identities: seq![name@ + " "@ + prelude@], ..no_definitions() }),
{
    let mut text = copy(name);
    text.append(" ");
    text.append(prelude);
    one_identity(text)
}

fn read_registration(source: &str, syntax: StylesheetSyntax, at_rule: &Tree, name: &str) -> (result: Definitions)
    ensures
        result@ == registration(source@, syntax, at_rule@, name@),
{
    if same(name, "font-face") {
        let family = match get_block_statements(at_rule) {
            Some(statements) => {
                proof {
                    lemma_list_model(statements@, statements@.len());
                }
                find_family(source, statements)
            },
            None => None,
        };
        let lowered = match family {
            Some(family) => to_lowercase(family.as_str()),
            None => String::new(),
        };
        one_identity(font_face_identity(lowered.as_str()))
    } else if same(name, "page") {
        one_identity("page".to_owned())
    } else if does_register(name) {
        match registration_prelude(get(at_rule, "prelude")) {
            Some(prelude) => named_identity(name, prelude.as_str()),
            None => if syntax == StylesheetSyntax::Css {
                let start = optional_css_span(get(at_rule, "name")).1;
                let end = optional_css_span(get(at_rule, "block")).0;
                let prelude = trim(copy_part(source, start, end).as_str(), Separator::Whitespace);
                named_identity(name, prelude.as_str())
            } else {
                let mut result = empty_definitions();
                result.unverifiable = true;
                result
            },
        }
    } else {
        empty_definitions()
    }
}

fn read_definitions(source: &str, syntax: StylesheetSyntax, statement: &Tree) -> (result: Definitions)
    ensures
        result@ == own_definitions(source@, syntax, statement@),
{
    let name = match get_at_name(statement) {
        Some(name) => name,
        None => {
            return empty_definitions();
        },
    };
    let mut result = read_registration(source, syntax, statement, name.as_str());
    if same(name.as_str(), "theme") {
        result.tokens = match get_block_statements(statement) {
            Some(statements) => {
                proof {
                    lemma_list_model(statements@, statements@.len());
                }
                collect_tokens(source, statements)
            },
            None => {
                let none: Vec<(String, String)> = Vec::new();
                assert(pairs_of(none@) =~= Seq::empty());
                none
            },
        };
    }
    result
}

fn collect_at_rule_metadata(source: &str, syntax: StylesheetSyntax, statements: &Vec<Tree>) -> (result: Definitions)
    ensures
        result@ == definitions(
            source@,
            syntax,
            list_model(statements@, statements@.len()),
            statements@.len(),
        ),
    decreases statements@,
{
    proof {
        lemma_list_model(statements@, statements@.len());
    }
    let ghost models = list_model(statements@, statements@.len());
    let mut known = empty_definitions();
    let mut n: usize = 0;
    while n < statements.len()
        invariant
            n <= statements@.len(),
            models.len() == statements@.len(),
            forall|k: int| 0 <= k < statements@.len() ==> #[trigger] models[k] == tree_model(statements@[k]),
            known@ == definitions(source@, syntax, models, n as nat),
        decreases statements.len() - n,
    {
        assert(models[n as int] == tree_model(statements@[n as int]));
        let statement = &statements[n];
        assert(decreases_to!(statements@ => statements@[n as int]));
        proof {
            lemma_block_inside(models, n as int);
        }
        let ghost mine = block_statements(models[n as int]);
        assert(mine.len() == 0 ==> definitions(source@, syntax, mine, mine.len()) == no_definitions());
        if is_kind(statement, "AtRule") && is_present(get(statement, "block")) {
            let mut own = read_definitions(source, syntax, statement);
            let inside = match get_block_statements(statement) {
                Some(block) => {
                    proof {
                        lemma_list_model(block@, block@.len());
                    }
                    collect_at_rule_metadata(source, syntax, block)
                },
                None => empty_definitions(),
            };
            absorb_definitions(&mut own, inside);
            absorb_definitions(&mut known, own);
        }
        n += 1;
    }
    known
}

/// Tokens compared by their names.
pub open spec fn by_token() -> spec_fn((Seq<char>, Seq<char>), (Seq<char>, Seq<char>)) -> bool {
    |a: (Seq<char>, Seq<char>), b: (Seq<char>, Seq<char>)| precedes(a.0, b.0)
}

/// The first `n` tokens in ascending order; the last value of a token counts.
pub open spec fn token_table(tokens: Seq<(Seq<char>, Seq<char>)>, n: int) -> Seq<(Seq<char>, Seq<char>)>
    decreases n,
{
    if n <= 0 {
        seq![]
    } else {
        let before = token_table(tokens, n - 1);
        if source_at(before, tokens[n - 1].0) is Some {
            with_source(before, tokens[n - 1].0, tokens[n - 1].1)
        } else {
            placed(before, tokens[n - 1], by_token())
        }
    }
}

fn place_token(list: &mut Vec<(String, String)>, token: (String, String))
    ensures
        pairs_of(final(list)@) == placed(pairs_of(old(list)@), (token.0@, token.1@), by_token()),
{
    let ghost start = pairs_of(list@);
    let ghost model = (token.0@, token.1@);
    let mut k: usize = list.len();
    while k > 0 && is_before(token.0.as_str(), list[k - 1].0.as_str())
        invariant
            k <= list@.len(),
            list@ == old(list)@,
            start == pairs_of(list@),
            model == (token.0@, token.1@),
            forall|j: int| k <= j < list@.len() ==> (by_token())(model, #[trigger] start[j]),
        decreases k,
    {
        assert(start[k - 1] == (list@[k - 1].0@, list@[k - 1].1@));
        k -= 1;
    }
    proof {
        if k > 0 {
            assert(start[k - 1] == (list@[k - 1].0@, list@[k - 1].1@));
        }
        lemma_placed(start, model, by_token(), k as int);
    }
    list.insert(k, token);
    assert(pairs_of(list@) =~= start.insert(k as int, model));
}

fn build_token_table(tokens: &Vec<(String, String)>) -> (result: Vec<(String, String)>)
    ensures
        pairs_of(result@) == token_table(pairs_of(tokens@), tokens@.len() as int),
{
    let mut result: Vec<(String, String)> = Vec::new();
    assert(pairs_of(result@) =~= Seq::empty());
    let mut n: usize = 0;
    while n < tokens.len()
        invariant
            n <= tokens@.len(),
            pairs_of(result@) == token_table(pairs_of(tokens@), n as int),
        decreases tokens.len() - n,
    {
        let token = &tokens[n];
        assert(pairs_of(tokens@)[n as int] == (token.0@, token.1@));
        if find_source(&result, token.0.as_str()).is_some() {
            put_source(&mut result, token.0.as_str(), token.1.as_str());
        } else {
            place_token(&mut result, (copy(token.0.as_str()), copy(token.1.as_str())));
        }
        n += 1;
    }
    result
}

// ---------------------------------------------------------------------------
// Imports that load
// ---------------------------------------------------------------------------

/// An `@import` that loads another stylesheet.
#[derive(Debug)]
pub struct StylesheetImport {
    pub href: String,
    pub media: String,
    pub start: usize,
    pub end: usize,
}

/// The model of a [`StylesheetImport`].
pub struct ImportModel {
    pub href: Seq<char>,
    pub media: Seq<char>,
    pub start: int,
    pub end: int,
}

impl View for StylesheetImport {
    type V = ImportModel;

    open spec fn view(&self) -> ImportModel {
        ImportModel { href: self.href@, media: self.media@, start: self.start as int, end: self.end as int }
    }
}

/// The conditions under which an import loads.
pub open spec fn import_media(source: Seq<char>, prelude: TreeModel) -> Seq<char> {
    if present(field(prelude, "layer"@)) || present(field(prelude, "supports"@)) || present(
        field(prelude, "modifiers"@),
    ) {
        trimmed(
            part(source, css_span(field(prelude, "href"@)).1 as int, css_span(prelude).1 as int),
            Separator::Whitespace,
        )
    } else if present(field(prelude, "media"@)) {
        let span = css_span(field(prelude, "media"@));
        trimmed(part(source, span.0 as int, span.1 as int), Separator::Whitespace)
    } else {
        seq![]
    }
}

fn read_import_media(source: &str, prelude: &Tree) -> (result: String)
    ensures
        result@ == import_media(source@, prelude@),
{
    if is_present(get(prelude, "layer")) || is_present(get(prelude, "supports")) || is_present(
        get(prelude, "modifiers"),
    ) {
        let start = optional_css_span(get(prelude, "href")).1;
        let end = get_css_span(prelude).1;
        trim(copy_part(source, start, end).as_str(), Separator::Whitespace)
    } else if is_present(get(prelude, "media")) {
        let span = optional_css_span(get(prelude, "media"));
        trim(copy_part(source, span.0, span.1).as_str(), Separator::Whitespace)
    } else {
        String::new()
    }
}

/// The imports that load.
pub struct LoadingModel {
    pub imports: Seq<ImportModel>,
    pub unverifiable: bool,
    /// An import may still follow.
    pub open: bool,
}

/// The imports that load among the first `n` statements: those before any
/// other rule.
pub open spec fn loading(source: Seq<char>, statements: Seq<TreeModel>, n: int) -> LoadingModel
    decreases n,
{
    if n <= 0 {
        LoadingModel { imports: seq![], unverifiable: false, open: true }
    } else {
        let before = loading(source, statements, n - 1);
        let statement = statements[n - 1];
        let prelude = field(statement, "prelude"@);
        if !of_kind(statement, "AtRule"@) {
            LoadingModel { open: false, ..before }
        } else if of_kind(prelude, "ImportPrelude"@) {
            if !before.open {
                before
            } else {
                match import_href(field(prelude, "href"@)) {
                    None => LoadingModel { unverifiable: true, ..before },
                    Some(href) => {
                        let span = css_span(statement);
                        LoadingModel {
                            imports: before.imports.push(
                                ImportModel {
                                    href,
                                    media: import_media(source, prelude),
                                    start: span.0 as int,
                                    end: if byte_at(source, span.1 as int, 59u8) {
                                        span.1 + 1
                                    } else {
                                        span.1 as int
                                    },
                                },
                            ),
                            ..before
                        }
                    },
                }
            }
        } else if has_block(statement) {
            LoadingModel { open: false, ..before }
        } else {
            before
        }
    }
}

fn collect_loading_imports(source: &str, statements: &Vec<Tree>) -> (result: (Vec<StylesheetImport>, bool))
    ensures
        ({
            let models = list_model(statements@, statements@.len());
            let model = loading(source@, models, statements@.len() as int);
            views(result.0@) == model.imports && result.1 == model.unverifiable
        }),
{
    let ghost models = list_model(statements@, statements@.len());
    proof {
        lemma_list_model(statements@, statements@.len());
    }
    let mut imports: Vec<StylesheetImport> = Vec::new();
    assert(views(imports@) =~= Seq::empty());
    let mut unverifiable = false;
    let mut open = true;
    let mut n: usize = 0;
    while n < statements.len()
        invariant
            n <= statements@.len(),
            models.len() == statements@.len(),
            models == list_model(statements@, statements@.len()),
            forall|k: int| 0 <= k < statements@.len() ==> #[trigger] models[k] == tree_model(statements@[k]),
            loading(source@, models, n as int) == (LoadingModel { imports: views(imports@), unverifiable, open }),
        decreases statements.len() - n,
    {
        assert(models[n as int] == tree_model(statements@[n as int]));
        let statement = &statements[n];
        let prelude = match get(statement, "prelude") {
            Some(prelude) => if is_kind(prelude, "ImportPrelude") {
                Some(prelude)
            } else {
                None
            },
            None => {
                assert(text_field(TreeModel::Null, "type"@) is None);
                None
            },
        };
        if !is_kind(statement, "AtRule") {
            open = false;
        } else if let Some(prelude) = prelude {
            if open {
                match get_import_href(get(prelude, "href")) {
                    None => {
                        unverifiable = true;
                    },
                    Some(href) => {
                        let span = get_css_span(statement);
                        let end = if has_byte_at(source, span.1, 59u8) {
                            span.1 + 1
                        } else {
                            span.1
                        };
                        let import = StylesheetImport {
                            href: copy(href.as_str()),
                            media: read_import_media(source, prelude),
                            start: span.0,
                            end,
                        };
                        let ghost before = imports@;
                        let ghost model = import@;
                        imports.push(import);
                        assert(views(imports@) =~= views(before).push(model));
                    },
                }
            }
        } else if is_present(get(statement, "block")) {
            open = false;
        }
        n += 1;
    }
    (imports, unverifiable)
}

// ---------------------------------------------------------------------------
// The analysis
// ---------------------------------------------------------------------------

/// What a stylesheet refers to, loads, registers and lets escape its scope.
#[derive(Debug)]
pub struct StylesheetAnalysis {
    /// In ascending order.
    pub references: Vec<String>,
    pub imports: Vec<StylesheetImport>,
    pub unverifiable: bool,
    pub scope_escapes: Vec<String>,
    pub scope_shadow_css: Vec<String>,
    pub scope_escapes_unverifiable: bool,
    pub selectors_unverifiable: bool,
    /// In ascending order of the tokens.
    pub theme_tokens: Vec<(String, String)>,
    pub global_at_rule_identities: Vec<String>,
    pub global_at_rules_unverifiable: bool,
}

/// The model of a [`StylesheetAnalysis`].
pub struct StylesheetModel {
    pub references: Seq<Seq<char>>,
    pub imports: Seq<ImportModel>,
    pub unverifiable: bool,
    pub scope_escapes: Seq<Seq<char>>,
    pub scope_shadow_css: Seq<Seq<char>>,
    pub scope_escapes_unverifiable: bool,
    pub selectors_unverifiable: bool,
    pub theme_tokens: Seq<(Seq<char>, Seq<char>)>,
    pub global_at_rule_identities: Seq<Seq<char>>,
    pub global_at_rules_unverifiable: bool,
}

impl View for StylesheetAnalysis {
    type V = StylesheetModel;

    open spec fn view(&self) -> StylesheetModel {
        StylesheetModel {
            references: texts(self.references@),
            imports: views(self.imports@),
            unverifiable: self.unverifiable,
            scope_escapes: texts(self.scope_escapes@),
            scope_shadow_css: texts(self.scope_shadow_css@),
            scope_escapes_unverifiable: self.scope_escapes_unverifiable,
            selectors_unverifiable: self.selectors_unverifiable,
            theme_tokens: pairs_of(self.theme_tokens@),
            global_at_rule_identities: texts(self.global_at_rule_identities@),
            global_at_rules_unverifiable: self.global_at_rules_unverifiable,
        }
    }
}

/// The language of a stylesheet by the extension of its path.
pub open spec fn syntax_of(path: Seq<char>) -> Option<StylesheetSyntax> {
    if extension(path) == Some("css"@) {
        Some(StylesheetSyntax::Css)
    } else if extension(path) == Some("scss"@) {
        Some(StylesheetSyntax::Scss)
    } else if extension(path) == Some("sass"@) {
        Some(StylesheetSyntax::Sass)
    } else if extension(path) == Some("less"@) {
        Some(StylesheetSyntax::Less)
    } else {
        None
    }
}

/// The language of a stylesheet by the extension of its path.
pub fn stylesheet_syntax(path: &str) -> (result: Result<StylesheetSyntax, String>)
    ensures
        match syntax_of(path@) {
            Some(syntax) => result matches Ok(found) && found == syntax,
            None => result matches Err(message) && message@ == "Unsupported stylesheet: "@ + path@,
        },
{
    if has_extension(path, "css") {
        Ok(StylesheetSyntax::Css)
    } else if has_extension(path, "scss") {
        Ok(StylesheetSyntax::Scss)
    } else if has_extension(path, "sass") {
        Ok(StylesheetSyntax::Sass)
    } else if has_extension(path, "less") {
        Ok(StylesheetSyntax::Less)
    } else {
        let mut message = "Unsupported stylesheet: ".to_owned();
        message.append(path);
        Err(message)
    }
}

/// What the statements of a stylesheet come to.
pub open spec fn sheet_analysis(source: Seq<char>, syntax: StylesheetSyntax, statements: Seq<TreeModel>) -> StylesheetModel {
    let said = facts(source, statements, statements.len());
    let defined = definitions(source, syntax, statements, statements.len());
    let loaded = loading(source, statements, statements.len() as int);
    let plain = syntax == StylesheetSyntax::Css;
    StylesheetModel {
        references: with_names(seq![], said.references),
        imports: if plain {
            loaded.imports
        } else {
            seq![]
        },
        unverifiable: said.unverifiable || plain && loaded.unverifiable,
        scope_escapes: said.scope_escapes,
        scope_shadow_css: said.scope_shadow_css,
        scope_escapes_unverifiable: said.scope_escapes_unverifiable,
        selectors_unverifiable: said.selectors_unverifiable,
        theme_tokens: token_table(defined.tokens, defined.tokens.len() as int),
        global_at_rule_identities: defined.identities,
        global_at_rules_unverifiable: defined.unverifiable,
    }
}

/// What a stylesheet refers to, loads, registers and lets escape.
pub open spec fn stylesheet_outcome(parses: Seq<ParseModel>, path: Seq<char>, source: Seq<char>) -> Result<
    StylesheetModel,
    HaltModel,
> {
    match syntax_of(path) {
        None => Err(failed("Unsupported stylesheet: "@ + path)),
        Some(syntax) => match read_css(parses, source, syntax, ErrorKind::AuthoredStylesheetParse, "Failed to parse "@ + path + ": "@) {
            Err(halt) => Err(halt),
            Ok(tree) => Ok(sheet_analysis(source, syntax, items(tree, "statements"@))),
        },
    }
}

fn analyze_statements(source: &str, syntax: StylesheetSyntax, statements: &Vec<Tree>) -> (result: StylesheetAnalysis)
    ensures
        result@ == sheet_analysis(source@, syntax, list_model(statements@, statements@.len())),
{
    proof {
        lemma_list_model(statements@, statements@.len());
    }
    let said = collect_stylesheet_statements(source, statements);
    let defined = collect_at_rule_metadata(source, syntax, statements);
    assert(pairs_of(defined.tokens@).len() == defined.tokens@.len());
    let mut references: Vec<String> = Vec::new();
    assert(texts(references@) =~= Seq::empty());
    insert_names(&mut references, &said.references);
    let (imports, unread) = if syntax == StylesheetSyntax::Css {
        collect_loading_imports(source, statements)
    } else {
        let none: Vec<StylesheetImport> = Vec::new();
        assert(views(none@) =~= Seq::empty());
        (none, false)
    };
    StylesheetAnalysis {
        references,
        imports,
        unverifiable: said.unverifiable || unread,
        scope_escapes: said.scope_escapes,
        scope_shadow_css: said.scope_shadow_css,
        scope_escapes_unverifiable: said.scope_escapes_unverifiable,
        selectors_unverifiable: said.selectors_unverifiable,
        theme_tokens: build_token_table(&defined.tokens),
        global_at_rule_identities: defined.identities,
        global_at_rules_unverifiable: defined.unverifiable,
    }
}

/// What a stylesheet refers to, loads, registers and lets escape.
pub fn stylesheet_analysis(parses: &Vec<Parse>, path: &str, source: &str) -> (result: Result<StylesheetAnalysis, Halt>)
    ensures
        match stylesheet_outcome(views(parses@), path@, source@) {
            Ok(model) => result matches Ok(analysis) && analysis@ == model,
            Err(model) => result matches Err(halt) && halt@ == model,
        },
{
    let syntax = match stylesheet_syntax(path) {
        Ok(syntax) => syntax,
        Err(message) => {
            return Err(fail(message));
        },
    };
    let mut blame = "Failed to parse ".to_owned();
    blame.append(path);
    blame.append(": ");
    match parse_css(parses, source, syntax, ErrorKind::AuthoredStylesheetParse, blame.as_str()) {
        Err(halt) => Err(halt),
        Ok(tree) => match get_items(tree, "statements") {
            Some(statements) => Ok(analyze_statements(source, syntax, statements)),
            None => {
                let none: Vec<Tree> = Vec::new();
                assert(list_model(none@, none@.len()) =~= items(tree@, "statements"@));
                Ok(analyze_statements(source, syntax, &none))
            },
        },
    }
}

} // verus!
