//! JS/JSX-side rewriting: locate CSS Module references and plan span edits.
use crate::edit::{Edit, EditModel};
use crate::errors::{ErrorKind, ErrorModel, MigrationError};
use crate::js_imports::{
    bound_to, count_references, empty_imports, find_global_symbols, find_imports, global_symbols, imports_of, is_bound,
    no_imports, references_to, Binding, ImportsModel,
};
use crate::json::{json_quoted, quote_json};
use crate::jsx_extract::{attribute_name, first, get_attribute_name, get_first, is_text};
use crate::names::{insert_name, insert_names, with_name, with_names, References};
use crate::path::{file_name, find_file_name};
use crate::plan::{
    conflict_warning, empty_source_plan, first_clash, held, no_plan, CandidateMatch, Candidates, Conflicts, MatchModel,
    PlanModel, SourcePlan, Warning, WarningModel,
};
use crate::position::{byte_at, has_byte_at};
use crate::selector::{KeyModel, SelectorKey};
use crate::source::{FileModel, SourceFile};
use crate::syntax::{
    branches, collect_result_leaves, does_branch, field, find_referenced, flag, get, get_flag, get_items, get_span,
    get_string, get_text, is_kind, is_static_member, items, module_at, of_kind, optional, optional_get_text,
    optional_string, optional_text, parse_module, referenced, result_leaves, span_of, static_member, string_value,
    text_field, tree_views, Module, ModuleModel, Occurrence, SyntaxError, SyntaxErrorModel,
};
use crate::text::{
    contains, copy_cut, copy_texts, cut, has_char, holds, is_word, join, joined, lemma_word_behind, lemma_words_are_words, list_has, maybe,
    maybe_view, push_texts, same, split_words, splitting_undoes_joining, texts, to_chars, views, words, Separator,
};
use crate::tree::{fields_model, lemma_fields_model, lemma_list_model, list_model, tree_model, Tree, TreeModel};
use vstd::prelude::*;
use vstd::utf8::*;

verus! {

/// The candidates of each selector key.
pub type Entries = Seq<(KeyModel, Seq<Seq<char>>)>;

// ---------------------------------------------------------------------------
// Values
// ---------------------------------------------------------------------------

/// A class list as the value of a JSX attribute. JSX string attributes have no
/// escape sequences, so quote-bearing values pick the other quote, and a value
/// with both quotes falls back to a JS string in an expression container,
/// where escapes do apply.
pub open spec fn attribute_value(value: Seq<char>) -> Seq<char> {
    if !value.contains('"') {
        seq!['"'] + value + seq!['"']
    } else if !value.contains('\'') {
        seq!['\''] + value + seq!['\'']
    } else {
        seq!['{'] + json_quoted(value) + seq!['}']
    }
}

fn enclose(open: char, text: &str, close: char) -> (result: String)
    ensures
        result@ == seq![open] + text@ + seq![close],
{
    let mut result = String::new();
    result.push(open);
    assert(result@ =~= seq![open]);
    result.append(text);
    result.push(close);
    assert(result@ =~= seq![open] + text@ + seq![close]);
    result
}

/// A class list as the value of a JSX attribute.
pub fn jsx_attribute_value(value: &str) -> (result: String)
    ensures
        result@ == attribute_value(value@),
{
    if !has_char(value, '"') {
        enclose('"', value, '"')
    } else if !has_char(value, '\'') {
        enclose('\'', value, '\'')
    } else {
        enclose('{', quote_json(value).as_str(), '}')
    }
}

/// A JSX attribute value is delimited by a quote that the class list does not
/// hold, or by braces: the list can never end the attribute.
pub proof fn attribute_values_do_not_end_early(value: Seq<char>)
    ensures
        attribute_value(value).len() >= 2,
        attribute_value(value)[0] == '"' || attribute_value(value)[0] == '\'' ==> {
            &&& attribute_value(value) == seq![attribute_value(value)[0]] + value + seq![attribute_value(value)[0]]
            &&& !value.contains(attribute_value(value)[0])
        },
{
}

/// Where a class list stands.
#[derive(Clone, Copy, PartialEq, Eq, Structural, Debug)]
pub enum Site {
    /// It is the whole value of a JSX attribute.
    Attribute,
    /// It is an expression inside the value of one.
    Expression {
        /// It was authored between single quotes.
        single_quoted: bool,
    },
}

/// The text can stand between single quotes as it is.
pub open spec fn fits_single_quotes(text: Seq<char>) -> bool {
    forall|i: int|
        0 <= i < text.len() ==> #[trigger] text[i] != '\'' && text[i] != '\\' && text[i] != '\n' && text[i] != '\r'
}

fn does_fit_single_quotes(text: &str) -> (result: bool)
    ensures
        result == fits_single_quotes(text@),
{
    let chars = to_chars(text);
    let mut i: usize = 0;
    while i < chars.len()
        invariant
            i <= chars@.len(),
            chars@ == text@,
            forall|j: int|
                0 <= j < i ==> #[trigger] text@[j] != '\'' && text@[j] != '\\' && text@[j] != '\n' && text@[j] != '\r',
        decreases chars.len() - i,
    {
        if chars[i] == '\'' || chars[i] == '\\' || chars[i] == '\n' || chars[i] == '\r' {
            assert(text@[i as int] == chars@[i as int]);
            return false;
        }
        i += 1;
    }
    true
}

/// A class list as it is written at a site. An expression keeps its quotes
/// where the list needs no escapes.
pub open spec fn site_value(site: Site, value: Seq<char>) -> Seq<char> {
    match site {
        Site::Attribute => attribute_value(value),
        Site::Expression { single_quoted } => if single_quoted && fits_single_quotes(value) {
            seq!['\''] + value + seq!['\'']
        } else {
            json_quoted(value)
        },
    }
}

fn write_site_value(site: Site, value: &str) -> (result: String)
    ensures
        result@ == site_value(site, value@),
{
    match site {
        Site::Attribute => jsx_attribute_value(value),
        Site::Expression { single_quoted } => if single_quoted && does_fit_single_quotes(value) {
            enclose('\'', value, '\'')
        } else {
            quote_json(value)
        },
    }
}

/// The byte behind the line break that may stand at `end`.
pub open spec fn behind_newline(source: Seq<char>, end: int) -> int {
    let bytes = encode_utf8(source);
    if 0 <= end && end + 1 < bytes.len() && bytes[end] == 0x0d && bytes[end + 1] == 0x0a {
        end + 2
    } else if 0 <= end < bytes.len() && bytes[end] == 0x0a {
        end + 1
    } else {
        end
    }
}

/// The byte behind the line break that may stand at `end`.
pub fn consume_following_newline(source: &str, end: usize) -> (result: usize)
    ensures
        result == behind_newline(source@, end as int),
{
    let bytes = source.as_bytes();
    if end < bytes.len() {
        if bytes.len() - end > 1 && bytes[end] == 0x0d && bytes[end + 1] == 0x0a {
            return end + 2;
        }
        if bytes[end] == 0x0a {
            return end + 1;
        }
    }
    end
}

// ---------------------------------------------------------------------------
// The scene
// ---------------------------------------------------------------------------

/// What the usages of a stylesheet are collected against.
pub struct Scene<'a> {
    pub file: &'a SourceFile,
    pub is_module: bool,
    pub symbols: &'a Vec<Occurrence>,
    pub bindings: &'a Vec<Binding>,
    pub global_symbols: &'a Vec<usize>,
    pub candidates: &'a Candidates,
    /// The module classes that stay referenced.
    pub preserved: &'a Vec<String>,
    pub batch_mode: bool,
    pub conflicts: &'a Conflicts,
}

/// The model of a [`Scene`].
pub struct SceneModel {
    pub path: Seq<char>,
    pub source: Seq<char>,
    pub is_module: bool,
    pub symbols: Seq<Occurrence>,
    pub bindings: Seq<Binding>,
    pub global_symbols: Seq<usize>,
    pub entries: Entries,
    pub preserved: Seq<Seq<char>>,
    pub batch_mode: bool,
    pub pairs: Seq<(Seq<char>, Seq<char>)>,
}

impl<'a> View for Scene<'a> {
    type V = SceneModel;

    open spec fn view(&self) -> SceneModel {
        SceneModel {
            path: self.file.path@,
            source: self.file.source@,
            is_module: self.is_module,
            symbols: self.symbols@,
            bindings: self.bindings@,
            global_symbols: self.global_symbols@,
            entries: self.candidates@,
            preserved: texts(self.preserved@),
            batch_mode: self.batch_mode,
            pairs: self.conflicts@,
        }
    }
}

/// What has been collected of a module.
pub struct Usage {
    pub edits: Vec<Edit>,
    pub emitted: Vec<String>,
    pub matches: Vec<CandidateMatch>,
    pub module_refs: References,
    pub matched_module_refs: References,
    /// Where a module class is bound to a variable: the start of the member
    /// expression, and the span of the declarator.
    pub aliases: Vec<(usize, (usize, usize))>,
    /// The computed accesses to the module.
    pub computed: Vec<(usize, usize)>,
    pub unsafe_reference: bool,
    pub warnings: Vec<Warning>,
}

/// The model of a [`Usage`].
pub struct UsageModel {
    pub edits: Seq<EditModel>,
    pub emitted: Seq<Seq<char>>,
    pub matches: Seq<MatchModel>,
    pub module_refs: Seq<Seq<char>>,
    pub matched_module_refs: Seq<Seq<char>>,
    pub aliases: Seq<(usize, (usize, usize))>,
    pub computed: Seq<(usize, usize)>,
    pub unsafe_reference: bool,
    pub warnings: Seq<WarningModel>,
}

impl View for Usage {
    type V = UsageModel;

    open spec fn view(&self) -> UsageModel {
        UsageModel {
            edits: views(self.edits@),
            emitted: texts(self.emitted@),
            matches: views(self.matches@),
            module_refs: self.module_refs@,
            matched_module_refs: self.matched_module_refs@,
            aliases: self.aliases@,
            computed: self.computed@,
            unsafe_reference: self.unsafe_reference,
            warnings: views(self.warnings@),
        }
    }
}

/// Nothing has been collected.
pub open spec fn no_usage() -> UsageModel {
    UsageModel {
        edits: seq![],
        emitted: seq![],
        matches: seq![],
        module_refs: seq![],
        matched_module_refs: seq![],
        aliases: seq![],
        computed: seq![],
        unsafe_reference: false,
        warnings: seq![],
    }
}

fn empty_usage() -> (result: Usage)
    ensures
        result@ == no_usage(),
{
    let result = Usage {
        edits: Vec::new(),
        emitted: Vec::new(),
        matches: Vec::new(),
        module_refs: References::new(),
        matched_module_refs: References::new(),
        aliases: Vec::new(),
        computed: Vec::new(),
        unsafe_reference: false,
        warnings: Vec::new(),
    };
    assert(result@.edits =~= no_usage().edits);
    assert(result@.emitted =~= no_usage().emitted);
    assert(result@.matches =~= no_usage().matches);
    assert(result@.aliases =~= no_usage().aliases);
    assert(result@.computed =~= no_usage().computed);
    assert(result@.warnings =~= no_usage().warnings);
    result
}

/// `out` with one more warning.
pub open spec fn with_warning(
    at: SceneModel,
    code: Seq<char>,
    span: (usize, usize),
    message: Seq<char>,
    out: UsageModel,
) -> UsageModel {
    UsageModel {
        warnings: out.warnings.push(
            WarningModel { code, file: at.path, start: span.0 as int, end: span.1 as int, message },
        ),
        ..out
    }
}

fn push_warning<'a>(at: &Scene<'a>, code: &str, span: (usize, usize), message: String, out: &mut Usage)
    ensures
        final(out)@ == with_warning(at@, code@, span, message@, old(out)@),
{
    let ghost before = out.warnings@;
    let warning = Warning::new(code, at.file.path.as_str(), span, message);
    let ghost model = warning@;
    out.warnings.push(warning);
    assert(views(out.warnings@) =~= views(before).push(model));
}

/// `out` with one more edit.
pub open spec fn with_edit(start: int, end: int, replacement: Seq<char>, out: UsageModel) -> UsageModel {
    UsageModel { edits: out.edits.push(EditModel { start, end, replacement }), ..out }
}

fn push_edit(start: usize, end: usize, replacement: String, out: &mut Usage)
    ensures
        final(out)@ == with_edit(start as int, end as int, replacement@, old(out)@),
{
    let ghost before = out.edits@;
    let edit = Edit { start, end, replacement };
    let ghost model = edit@;
    out.edits.push(edit);
    assert(views(out.edits@) =~= views(before).push(model));
}

/// The match of one candidate.
pub open spec fn match_of(key: KeyModel, candidate: Seq<char>, start: int, end: int) -> MatchModel {
    MatchModel { start, end, element_start: None, key, candidate, origin_candidate: candidate }
}

/// `out` with the match of one candidate.
pub open spec fn with_match(key: KeyModel, candidate: Seq<char>, start: int, end: int, out: UsageModel) -> UsageModel {
    UsageModel { matches: out.matches.push(match_of(key, candidate, start, end)), ..out }
}

fn push_match(key: &SelectorKey, candidate: &String, start: usize, end: usize, out: &mut Usage)
    ensures
        final(out)@ == with_match(key@, candidate@, start as int, end as int, old(out)@),
{
    let ghost before = out.matches@;
    let found = CandidateMatch {
        start,
        end,
        element_start: None,
        key: key.copy(),
        candidate: candidate.clone(),
        origin_candidate: candidate.clone(),
    };
    let ghost model = found@;
    out.matches.push(found);
    assert(views(out.matches@) =~= views(before).push(model));
}

/// `out` with one more candidate written.
pub open spec fn with_emitted(candidate: Seq<char>, out: UsageModel) -> UsageModel {
    UsageModel { emitted: with_name(out.emitted, candidate), ..out }
}

// ---------------------------------------------------------------------------
// Module members
// ---------------------------------------------------------------------------

/// The tree is an identifier that refers to an import of the CSS Module.
pub open spec fn module_object(at: SceneModel, object: TreeModel) -> bool {
    of_kind(object, "Identifier"@) && (referenced(at.symbols, object) matches Some(symbol) && bound_to(
        at.bindings,
        symbol,
    ))
}

fn is_module_object<'a>(at: &Scene<'a>, object: Option<&Tree>) -> (result: bool)
    ensures
        result == module_object(at@, optional(object)),
{
    match object {
        Some(object) => is_kind(object, "Identifier") && match find_referenced(at.symbols, object) {
            Some(symbol) => is_bound(at.bindings, symbol),
            None => false,
        },
        None => {
            assert(!of_kind(TreeModel::Null, "Identifier"@));
            false
        },
    }
}

/// The class that a static member of the CSS Module names.
pub open spec fn module_member(at: SceneModel, tree: TreeModel) -> Option<Seq<char>> {
    if static_member(tree) && module_object(at, field(tree, "object"@)) {
        text_field(field(tree, "property"@), "name"@)
    } else {
        None
    }
}

fn get_module_member<'a, 'b>(at: &Scene<'a>, tree: &'b Tree) -> (result: Option<&'b String>)
    ensures
        optional_text(result) == module_member(at@, tree@),
{
    if is_static_member(tree) && is_module_object(at, get(tree, "object")) {
        optional_get_text(get(tree, "property"), "name")
    } else {
        None
    }
}

/// The tree is a member of some CSS Module import, which can never match a
/// global class and is classified by the module's own plan instead.
pub open spec fn global_module_member(at: SceneModel, tree: TreeModel) -> bool {
    let object = field(tree, "object"@);
    (static_member(tree) || (of_kind(tree, "MemberExpression"@) && flag(tree, "computed"@))) && of_kind(
        object,
        "Identifier"@,
    ) && (referenced(at.symbols, object) matches Some(symbol) && at.global_symbols.contains(symbol))
}

fn has_symbol(list: &Vec<usize>, symbol: usize) -> (result: bool)
    ensures
        result == list@.contains(symbol),
{
    let mut i: usize = 0;
    while i < list.len()
        invariant
            i <= list@.len(),
            forall|j: int| 0 <= j < i ==> list@[j] != symbol,
        decreases list.len() - i,
    {
        if list[i] == symbol {
            return true;
        }
        i += 1;
    }
    false
}

fn is_global_module_member<'a>(at: &Scene<'a>, tree: &Tree) -> (result: bool)
    ensures
        result == global_module_member(at@, tree@),
{
    if !is_static_member(tree) && !(is_kind(tree, "MemberExpression") && get_flag(tree, "computed")) {
        return false;
    }
    match get(tree, "object") {
        Some(object) => is_kind(object, "Identifier") && match find_referenced(at.symbols, object) {
            Some(symbol) => has_symbol(at.global_symbols, symbol),
            None => false,
        },
        None => {
            assert(!of_kind(TreeModel::Null, "Identifier"@));
            false
        },
    }
}

// ---------------------------------------------------------------------------
// Global classes
// ---------------------------------------------------------------------------

/// What the attributes of an element hold.
pub struct GlobalModel {
    pub ids: Seq<(KeyModel, Seq<char>)>,
    pub literal: Option<((usize, usize), Seq<char>)>,
    pub has_class_name: bool,
    pub out: UsageModel,
}

/// The text of a template without expressions.
pub open spec fn plain_template(tree: TreeModel) -> Option<Seq<char>> {
    if of_kind(tree, "TemplateLiteral"@) && items(tree, "expressions"@).len() == 0 {
        text_field(field(first(items(tree, "quasis"@)), "value"@), "cooked"@)
    } else {
        None
    }
}

/// `found` with the candidates of an id.
pub open spec fn with_id(key: KeyModel, candidates: Seq<Seq<char>>) -> Seq<(KeyModel, Seq<char>)> {
    candidates.map_values(|candidate: Seq<char>| (key, candidate))
}

/// `found` with what one attribute holds.
pub open spec fn after_attribute(at: SceneModel, item: TreeModel, found: GlobalModel) -> GlobalModel {
    let value = field(item, "value"@);
    if attribute_name(item) == Some("className"@) {
        let seen = GlobalModel { has_class_name: true, ..found };
        if string_value(value) is Some {
            GlobalModel { literal: Some((span_of(value), string_value(value)->0)), ..seen }
        } else if of_kind(value, "JSXExpressionContainer"@) {
            let expression = field(value, "expression"@);
            if string_value(expression) is Some {
                GlobalModel { literal: Some((span_of(value), string_value(expression)->0)), ..seen }
            } else if plain_template(expression) is Some {
                GlobalModel { literal: Some((span_of(value), plain_template(expression)->0)), ..seen }
            } else if global_module_member(at, expression) {
                seen
            } else if branches(expression) {
                let leaves = result_leaves(expression);
                GlobalModel { out: with_global_leaves(at, leaves, leaves.len() as int, seen.out), ..seen }
            } else {
                GlobalModel {
                    out: with_warning(
                        at,
                        "dynamic-class-name"@,
                        span_of(value),
                        "Only static className values are supported."@,
                        seen.out,
                    ),
                    ..seen
                }
            }
        } else {
            seen
        }
    } else if attribute_name(item) == Some("id"@) {
        match string_value(value) {
            Some(name) => match held(at.entries, KeyModel::Id(name)) {
                Some(candidates) => GlobalModel {
                    ids: found.ids + with_id(KeyModel::Id(name), candidates),
                    ..found
                },
                None => found,
            },
            None => found,
        }
    } else {
        found
    }
}

/// What the first `n` attributes hold.
pub open spec fn attributes_of(at: SceneModel, list: Seq<TreeModel>, n: int, out: UsageModel) -> GlobalModel
    decreases n,
{
    if n <= 0 {
        GlobalModel { ids: seq![], literal: None, has_class_name: false, out }
    } else {
        after_attribute(at, list[n - 1], attributes_of(at, list, n - 1, out))
    }
}

/// What is known of a class list while candidates join it.
pub struct ClassListModel {
    pub classes: Seq<Seq<char>>,
    pub out: UsageModel,
}

/// `state` with one candidate.
pub open spec fn with_listed(
    key: KeyModel,
    candidate: Seq<char>,
    span: (usize, usize),
    state: ClassListModel,
) -> ClassListModel {
    ClassListModel {
        classes: if state.classes.contains(candidate) {
            state.classes
        } else {
            state.classes.push(candidate)
        },
        out: with_match(key, candidate, span.0 as int, span.1 as int, with_emitted(candidate, state.out)),
    }
}

/// `state` with the first `n` candidates of a key.
pub open spec fn with_listed_all(
    key: KeyModel,
    candidates: Seq<Seq<char>>,
    span: (usize, usize),
    n: int,
    state: ClassListModel,
) -> ClassListModel
    decreases n,
{
    if n <= 0 {
        state
    } else {
        with_listed(key, candidates[n - 1], span, with_listed_all(key, candidates, span, n - 1, state))
    }
}

/// `state` with the candidates of the first `n` classes.
pub open spec fn with_own_classes(
    at: SceneModel,
    own: Seq<Seq<char>>,
    span: (usize, usize),
    n: int,
    state: ClassListModel,
) -> ClassListModel
    decreases n,
{
    if n <= 0 {
        state
    } else {
        let before = with_own_classes(at, own, span, n - 1, state);
        let key = KeyModel::Class(own[n - 1]);
        match held(at.entries, key) {
            Some(candidates) => with_listed_all(key, candidates, span, candidates.len() as int, before),
            None => before,
        }
    }
}

/// `state` with the first `n` extra candidates.
pub open spec fn with_extra(
    extra: Seq<(KeyModel, Seq<char>)>,
    span: (usize, usize),
    n: int,
    state: ClassListModel,
) -> ClassListModel
    decreases n,
{
    if n <= 0 {
        state
    } else {
        with_listed(extra[n - 1].0, extra[n - 1].1, span, with_extra(extra, span, n - 1, state))
    }
}

/// A class list with the candidates of its classes and the extra ones.
pub open spec fn completed(
    at: SceneModel,
    span: (usize, usize),
    value: Seq<char>,
    extra: Seq<(KeyModel, Seq<char>)>,
    out: UsageModel,
) -> ClassListModel {
    let own = words(value, Separator::Whitespace);
    with_extra(
        extra,
        span,
        extra.len() as int,
        with_own_classes(at, own, span, own.len() as int, ClassListModel { classes: own, out }),
    )
}

/// `out` with the rewrite of a static class list.
pub open spec fn with_literal(
    at: SceneModel,
    span: (usize, usize),
    value: Seq<char>,
    extra: Seq<(KeyModel, Seq<char>)>,
    site: Site,
    out: UsageModel,
) -> UsageModel {
    let state = completed(at, span, value, extra, out);
    let replacement = joined(state.classes, " "@);
    if replacement == value {
        state.out
    } else {
        with_edit(span.0 as int, span.1 as int, site_value(site, replacement), state.out)
    }
}

/// The result stands for no class: `null`, `false`, or the global
/// `undefined`. A local binding of that name can hold a class.
pub open spec fn no_class(at: SceneModel, leaf: TreeModel) -> bool {
    ||| of_kind(leaf, "Literal"@) && (text_field(leaf, "raw"@) == Some("null"@) || field(leaf, "value"@)
        == TreeModel::Flag(false))
    ||| of_kind(leaf, "Identifier"@) && text_field(leaf, "name"@) == Some("undefined"@) && referenced(
        at.symbols,
        leaf,
    ) is None
}

/// `out` with what one result of a `className` expression gains outside a CSS
/// Module.
pub open spec fn with_global_leaf(at: SceneModel, leaf: TreeModel, out: UsageModel) -> UsageModel {
    let span = span_of(leaf);
    if string_value(leaf) is Some {
        with_literal(
            at,
            span,
            string_value(leaf)->0,
            seq![],
            Site::Expression { single_quoted: byte_at(at.source, span.0 as int, 0x27u8) },
            out,
        )
    } else if plain_template(leaf) is Some {
        with_literal(
            at,
            span,
            plain_template(leaf)->0,
            seq![],
            Site::Expression { single_quoted: false },
            out,
        )
    } else if no_class(at, leaf) || global_module_member(at, leaf) {
        out
    } else {
        with_warning(at, "dynamic-class-name"@, span, "Only static className values are supported."@, out)
    }
}

/// `out` with the first `n` results of a `className` expression.
pub open spec fn with_global_leaves(at: SceneModel, leaves: Seq<TreeModel>, n: int, out: UsageModel) -> UsageModel
    decreases n,
{
    if n <= 0 {
        out
    } else {
        with_global_leaf(at, leaves[n - 1], with_global_leaves(at, leaves, n - 1, out))
    }
}

/// Whitespace at the byte before `i` is skipped, down to `start`.
pub open spec fn before_blanks(bytes: Seq<u8>, start: int, i: int) -> int
    decreases i,
{
    if i <= 0 || i <= start || i > bytes.len() || !blank_byte(bytes[i - 1]) {
        i
    } else {
        before_blanks(bytes, start, i - 1)
    }
}

pub open spec fn blank_byte(byte: u8) -> bool {
    byte == 0x20 || byte == 0x09 || byte == 0x0a || byte == 0x0c || byte == 0x0d
}

/// Where a new attribute of an opening element is inserted.
pub open spec fn insertion_point(source: Seq<char>, span: (usize, usize)) -> int {
    let bytes = encode_utf8(source);
    let end = span.1 as int;
    let close = if 2 <= end <= bytes.len() && bytes[end - 2] == 0x2f && bytes[end - 1] == 0x3e {
        end - 2
    } else if end >= 1 {
        end - 1
    } else {
        0
    };
    before_blanks(bytes, span.0 as int, close)
}

/// `out` with the candidates of the first `n` ids at an insertion point.
pub open spec fn with_inserted(ids: Seq<(KeyModel, Seq<char>)>, place: int, n: int, out: UsageModel) -> UsageModel
    decreases n,
{
    if n <= 0 {
        out
    } else {
        let before = with_inserted(ids, place, n - 1, out);
        with_match(ids[n - 1].0, ids[n - 1].1, place, place, with_emitted(ids[n - 1].1, before))
    }
}

pub open spec fn candidates_of(ids: Seq<(KeyModel, Seq<char>)>) -> Seq<Seq<char>> {
    ids.map_values(|id: (KeyModel, Seq<char>)| id.1)
}

/// `out` with what an element outside a CSS Module gains.
pub open spec fn with_global_element(at: SceneModel, element: TreeModel, out: UsageModel) -> UsageModel {
    let attributes = items(element, "attributes"@);
    let found = attributes_of(at, attributes, attributes.len() as int, out);
    match found.literal {
        Some(literal) => with_literal(at, literal.0, literal.1, found.ids, Site::Attribute, found.out),
        None => if !found.has_class_name && found.ids.len() > 0 {
            let place = insertion_point(at.source, span_of(element));
            with_edit(
                place,
                place,
                " className="@ + attribute_value(joined(candidates_of(found.ids), " "@)),
                with_inserted(found.ids, place, found.ids.len() as int, found.out),
            )
        } else {
            found.out
        },
    }
}

/// The text of a template without expressions.
pub fn get_plain_template<'b>(tree: &'b Tree) -> (result: Option<&'b String>)
    ensures
        optional_text(result) == plain_template(tree@),
{
    let empty = match get_items(tree, "expressions") {
        Some(list) => {
            proof {
                lemma_list_model(list@, list@.len());
            }
            list.len() == 0
        },
        None => true,
    };
    if is_kind(tree, "TemplateLiteral") && empty {
        match get_first(get_items(tree, "quasis")) {
            Some(quasi) => optional_get_text(get(quasi, "value"), "cooked"),
            None => {
                assert(field(TreeModel::Null, "value"@) == TreeModel::Null);
                None
            },
        }
    } else {
        None
    }
}

/// What the attributes of an element hold.
struct Global {
    ids: Vec<(SelectorKey, String)>,
    literal: Option<((usize, usize), String)>,
    has_class_name: bool,
}

spec fn id_views(ids: Seq<(SelectorKey, String)>) -> Seq<(KeyModel, Seq<char>)> {
    ids.map_values(|id: (SelectorKey, String)| (id.0@, id.1@))
}

spec fn global_view(found: Global, out: UsageModel) -> GlobalModel {
    GlobalModel {
        ids: id_views(found.ids@),
        literal: match found.literal {
            Some(literal) => Some((literal.0, literal.1@)),
            None => None,
        },
        has_class_name: found.has_class_name,
        out,
    }
}

fn push_ids(key: &SelectorKey, candidates: &Vec<String>, ids: &mut Vec<(SelectorKey, String)>)
    ensures
        id_views(final(ids)@) == id_views(old(ids)@) + with_id(key@, texts(candidates@)),
{
    let ghost start = id_views(ids@);
    let ghost added = with_id(key@, texts(candidates@));
    let mut i: usize = 0;
    assert(id_views(ids@) =~= start + added.take(0));
    while i < candidates.len()
        invariant
            i <= candidates@.len(),
            added == with_id(key@, texts(candidates@)),
            id_views(ids@) == start + added.take(i as int),
        decreases candidates.len() - i,
    {
        let ghost before = id_views(ids@);
        ids.push((key.copy(), candidates[i].clone()));
        assert(id_views(ids@) =~= before.push((key@, candidates@[i as int]@)));
        assert(added[i as int] == (key@, candidates@[i as int]@));
        assert(start + added.take(i + 1) =~= (start + added.take(i as int)).push(added[i as int]));
        i += 1;
    }
    assert(added.take(i as int) =~= added);
}

fn read_attribute<'a>(at: &Scene<'a>, item: &Tree, found: &mut Global, out: &mut Usage)
    ensures
        global_view(*final(found), final(out)@) == after_attribute(at@, item@, global_view(*old(found), old(out)@)),
{
    let name = get_attribute_name(item);
    let value = get(item, "value");
    if is_text(name, "className") {
        found.has_class_name = true;
        if let Some(text) = optional_string(value) {
            let span = match value {
                Some(value) => get_span(value),
                None => (0, 0),
            };
            found.literal = Some((span, text.clone()));
        } else if let Some(container) = value {
            if is_kind(container, "JSXExpressionContainer") {
                let span = get_span(container);
                let expression = get(container, "expression");
                if let Some(text) = optional_string(expression) {
                    found.literal = Some((span, text.clone()));
                } else {
                    let expression = match expression {
                        Some(expression) => expression,
                        None => &Tree::Null,
                    };
                    if let Some(text) = get_plain_template(expression) {
                        found.literal = Some((span, text.clone()));
                    } else if is_global_module_member(at, expression) {
                        // The module's own plan classifies it.
                    } else if does_branch(expression) {
                        rewrite_global_leaves(at, expression, out);
                    } else {
                        push_warning(
                            at,
                            "dynamic-class-name",
                            span,
                            "Only static className values are supported.".to_owned(),
                            out,
                        );
                    }
                }
            }
        } else {
            assert(!of_kind(TreeModel::Null, "JSXExpressionContainer"@));
        }
    } else if is_text(name, "id") {
        if let Some(text) = optional_string(value) {
            let key = SelectorKey::Id(text.clone());
            if let Some(candidates) = at.candidates.get(&key) {
                push_ids(&key, candidates, &mut found.ids);
            }
        }
    }
}

fn list_candidate(
    key: &SelectorKey,
    candidate: &String,
    span: (usize, usize),
    classes: &mut Vec<String>,
    out: &mut Usage,
)
    ensures
        (ClassListModel { classes: texts(final(classes)@), out: final(out)@ }) == with_listed(
            key@,
            candidate@,
            span,
            ClassListModel { classes: texts(old(classes)@), out: old(out)@ },
        ),
{
    insert_name(&mut out.emitted, candidate.as_str());
    push_match(key, candidate, span.0, span.1, out);
    if !list_has(classes, candidate.as_str()) {
        let ghost before = classes@;
        classes.push(candidate.clone());
        assert(texts(classes@) =~= texts(before).push(candidate@));
    }
}

fn list_candidates(
    key: &SelectorKey,
    candidates: &Vec<String>,
    span: (usize, usize),
    classes: &mut Vec<String>,
    out: &mut Usage,
)
    ensures
        (ClassListModel { classes: texts(final(classes)@), out: final(out)@ }) == with_listed_all(
            key@,
            texts(candidates@),
            span,
            candidates@.len() as int,
            ClassListModel { classes: texts(old(classes)@), out: old(out)@ },
        ),
{
    let ghost start = ClassListModel { classes: texts(classes@), out: out@ };
    let mut i: usize = 0;
    while i < candidates.len()
        invariant
            i <= candidates@.len(),
            (ClassListModel { classes: texts(classes@), out: out@ }) == with_listed_all(
                key@,
                texts(candidates@),
                span,
                i as int,
                start,
            ),
        decreases candidates.len() - i,
    {
        assert(texts(candidates@)[i as int] == candidates@[i as int]@);
        list_candidate(key, &candidates[i], span, classes, out);
        i += 1;
    }
}

/// Rewrites a static class list.
fn global_literal_edit<'a>(
    at: &Scene<'a>,
    span: (usize, usize),
    value: &String,
    extra: &Vec<(SelectorKey, String)>,
    site: Site,
    out: &mut Usage,
)
    ensures
        final(out)@ == with_literal(at@, span, value@, id_views(extra@), site, old(out)@),
{
    let own = split_words(value.as_str(), Separator::Whitespace);
    let mut classes = copy_texts(&own);
    let ghost start = ClassListModel { classes: texts(own@), out: out@ };
    let mut i: usize = 0;
    while i < own.len()
        invariant
            i <= own@.len(),
            (ClassListModel { classes: texts(classes@), out: out@ }) == with_own_classes(
                at@,
                texts(own@),
                span,
                i as int,
                start,
            ),
        decreases own.len() - i,
    {
        assert(texts(own@)[i as int] == own@[i as int]@);
        let key = SelectorKey::Class(own[i].clone());
        if let Some(candidates) = at.candidates.get(&key) {
            assert(texts(candidates@).len() == candidates@.len());
            list_candidates(&key, candidates, span, &mut classes, out);
        }
        i += 1;
    }
    assert(texts(own@).len() == own@.len());
    let ghost middle = ClassListModel { classes: texts(classes@), out: out@ };
    let mut k: usize = 0;
    while k < extra.len()
        invariant
            k <= extra@.len(),
            (ClassListModel { classes: texts(classes@), out: out@ }) == with_extra(
                id_views(extra@),
                span,
                k as int,
                middle,
            ),
        decreases extra.len() - k,
    {
        assert(id_views(extra@)[k as int] == (extra@[k as int].0@, extra@[k as int].1@));
        list_candidate(&extra[k].0, &extra[k].1, span, &mut classes, out);
        k += 1;
    }
    assert(id_views(extra@).len() == extra@.len());
    let replacement = join(&classes, " ");
    if !same(replacement.as_str(), value.as_str()) {
        push_edit(span.0, span.1, write_site_value(site, replacement.as_str()), out);
    }
}

fn has_no_class<'a>(at: &Scene<'a>, leaf: &Tree) -> (result: bool)
    ensures
        result == no_class(at@, leaf@),
{
    if is_kind(leaf, "Literal") {
        if is_text(get_text(leaf, "raw"), "null") {
            return true;
        }
        if let Some(Tree::Flag(false)) = get(leaf, "value") {
            return true;
        }
    }
    is_kind(leaf, "Identifier") && is_text(get_text(leaf, "name"), "undefined") && find_referenced(
        at.symbols,
        leaf,
    ).is_none()
}

fn rewrite_global_leaf<'a>(at: &Scene<'a>, leaf: &Tree, out: &mut Usage)
    ensures
        final(out)@ == with_global_leaf(at@, leaf@, old(out)@),
{
    let span = get_span(leaf);
    let none: Vec<(SelectorKey, String)> = Vec::new();
    assert(id_views(none@) =~= Seq::empty());
    if let Some(text) = get_string(leaf) {
        let single_quoted = has_byte_at(at.file.source.as_str(), span.0, 0x27u8);
        global_literal_edit(at, span, text, &none, Site::Expression { single_quoted }, out);
    } else if let Some(text) = get_plain_template(leaf) {
        global_literal_edit(at, span, text, &none, Site::Expression { single_quoted: false }, out);
    } else if !has_no_class(at, leaf) && !is_global_module_member(at, leaf) {
        push_warning(
            at,
            "dynamic-class-name",
            span,
            "Only static className values are supported.".to_owned(),
            out,
        );
    }
}

fn rewrite_global_leaves<'a>(at: &Scene<'a>, expression: &Tree, out: &mut Usage)
    ensures
        final(out)@ == with_global_leaves(
            at@,
            result_leaves(expression@),
            result_leaves(expression@).len() as int,
            old(out)@,
        ),
{
    let mut leaves: Vec<&Tree> = Vec::new();
    collect_result_leaves(expression, &mut leaves);
    assert(tree_views(leaves@) =~= result_leaves(expression@));
    let ghost start = out@;
    let mut n: usize = 0;
    while n < leaves.len()
        invariant
            n <= leaves@.len(),
            out@ == with_global_leaves(at@, tree_views(leaves@), n as int, start),
        decreases leaves.len() - n,
    {
        assert(tree_views(leaves@)[n as int] == leaves@[n as int]@);
        rewrite_global_leaf(at, leaves[n], out);
        n += 1;
    }
}

fn find_insertion_point(source: &str, span: (usize, usize)) -> (result: usize)
    ensures
        result == insertion_point(source@, span),
{
    let bytes = source.as_bytes();
    let end = span.1;
    let close: usize = if 2 <= end && end <= bytes.len() && bytes[end - 2] == 0x2f && bytes[end - 1] == 0x3e {
        end - 2
    } else if end >= 1 {
        end - 1
    } else {
        0
    };
    let mut i: usize = close;
    while i > 0 && i > span.0 && i <= bytes.len() && (bytes[i - 1] == 0x20 || bytes[i - 1] == 0x09 || bytes[i - 1]
        == 0x0a || bytes[i - 1] == 0x0c || bytes[i - 1] == 0x0d)
        invariant
            bytes@ == encode_utf8(source@),
            before_blanks(bytes@, span.0 as int, i as int) == before_blanks(bytes@, span.0 as int, close as int),
        decreases i,
    {
        i -= 1;
    }
    i
}

/// What an element outside a CSS Module gains.
fn global_element<'a>(at: &Scene<'a>, element: &Tree, out: &mut Usage)
    ensures
        final(out)@ == with_global_element(at@, element@, old(out)@),
{
    let mut found = Global { ids: Vec::new(), literal: None, has_class_name: false };
    let ghost start = out@;
    assert(id_views(found.ids@) =~= Seq::<(KeyModel, Seq<char>)>::empty());
    if let Some(attributes) = get_items(element, "attributes") {
        proof {
            lemma_list_model(attributes@, attributes@.len());
        }
        let ghost models = list_model(attributes@, attributes@.len());
        let mut n: usize = 0;
        while n < attributes.len()
            invariant
                n <= attributes@.len(),
                models.len() == attributes@.len(),
                forall|k: int| 0 <= k < attributes@.len() ==> #[trigger] models[k] == tree_model(attributes@[k]),
                global_view(found, out@) == attributes_of(at@, models, n as int, start),
            decreases attributes.len() - n,
        {
            assert(models[n as int] == tree_model(attributes@[n as int]));
            read_attribute(at, &attributes[n], &mut found, out);
            n += 1;
        }
    }
    assert(global_view(found, out@) == attributes_of(
        at@,
        items(element@, "attributes"@),
        items(element@, "attributes"@).len() as int,
        start,
    ));
    assert(id_views(found.ids@).len() == found.ids@.len());
    if let Some((span, value)) = &found.literal {
        global_literal_edit(at, *span, value, &found.ids, Site::Attribute, out);
    } else if !found.has_class_name && found.ids.len() > 0 {
        let place = find_insertion_point(at.file.source.as_str(), get_span(element));
        let ghost before = out@;
        let mut classes: Vec<String> = Vec::new();
        let mut i: usize = 0;
        assert(texts(classes@) =~= candidates_of(id_views(found.ids@)).take(0));
        while i < found.ids.len()
            invariant
                i <= found.ids@.len(),
                id_views(found.ids@).len() == found.ids@.len(),
                texts(classes@) == candidates_of(id_views(found.ids@)).take(i as int),
                out@ == with_inserted(id_views(found.ids@), place as int, i as int, before),
            decreases found.ids.len() - i,
        {
            let id = &found.ids[i];
            assert(id_views(found.ids@)[i as int] == (id.0@, id.1@));
            insert_name(&mut out.emitted, id.1.as_str());
            push_match(&id.0, &id.1, place, place, out);
            let ghost listed = classes@;
            classes.push(id.1.clone());
            assert(texts(classes@) =~= texts(listed).push(id.1@));
            assert(candidates_of(id_views(found.ids@)).take(i + 1) =~= candidates_of(id_views(found.ids@)).take(
                i as int,
            ).push(id.1@));
            i += 1;
        }
        assert(candidates_of(id_views(found.ids@)).take(i as int) =~= candidates_of(id_views(found.ids@)));
        let mut replacement = " className=".to_owned();
        replacement.append(jsx_attribute_value(join(&classes, " ").as_str()).as_str());
        push_edit(place, place, replacement, out);
    }
}

// ---------------------------------------------------------------------------
// Module classes
// ---------------------------------------------------------------------------

/// What a `className` expression comes to.
pub struct TemplateModel {
    pub value: Seq<char>,
    pub members: Seq<Seq<char>>,
    pub static_classes: Seq<Seq<char>>,
    pub partial_edits: Seq<EditModel>,
    pub preserved_candidates: Seq<Seq<char>>,
    pub preserved_expression: Option<Seq<char>>,
    pub append_at: Option<int>,
}

/// A template without module members.
pub open spec fn no_template() -> TemplateModel {
    TemplateModel {
        value: seq![],
        members: seq![],
        static_classes: seq![],
        partial_edits: seq![],
        preserved_candidates: seq![],
        preserved_expression: None,
        append_at: None,
    }
}

/// How far a template has been read. `original` holds a NUL for every module
/// member.
pub struct ReadingModel {
    pub value: Seq<char>,
    pub original: Seq<char>,
    pub members: Seq<Seq<char>>,
    pub member_edits: Seq<EditModel>,
    pub preserved_candidates: Seq<Seq<char>>,
    pub partial: bool,
}

/// The texts without a NUL.
pub open spec fn without_marks(list: Seq<Seq<char>>) -> Seq<Seq<char>>
    decreases list.len(),
{
    if list.len() == 0 {
        seq![]
    } else if list.last().contains('\0') {
        without_marks(list.drop_last())
    } else {
        without_marks(list.drop_last()).push(list.last())
    }
}

/// The template once it has been read.
pub open spec fn finished(template: TreeModel, reading: ReadingModel) -> TemplateModel {
    let end = span_of(template).1 as int;
    TemplateModel {
        value: joined(words(reading.value, Separator::Whitespace), " "@),
        members: reading.members,
        static_classes: without_marks(words(reading.original, Separator::Whitespace)),
        partial_edits: if reading.partial {
            reading.member_edits
        } else {
            seq![]
        },
        preserved_candidates: reading.preserved_candidates,
        preserved_expression: None,
        append_at: if reading.partial {
            Some(if end > 0 {
                end - 1
            } else {
                0
            })
        } else {
            None
        },
    }
}

/// What one expression of a template does.
pub enum StepModel {
    /// The reading goes on.
    Read(ReadingModel),
    /// The template holds a member without candidates.
    Stop,
    /// The template is dynamic.
    Dynamic,
}

/// `reading` with one expression.
pub open spec fn after_expression(at: SceneModel, expression: TreeModel, reading: ReadingModel) -> StepModel {
    if static_member(expression) {
        match module_member(at, expression) {
            None => if at.batch_mode {
                StepModel::Read(
                    ReadingModel { partial: true, original: reading.original.push('\0'), ..reading },
                )
            } else {
                StepModel::Dynamic
            },
            Some(name) => match held(at.entries, KeyModel::Class(name)) {
                None => if at.batch_mode {
                    StepModel::Stop
                } else {
                    StepModel::Dynamic
                },
                Some(candidates) => {
                    let marked = ReadingModel {
                        original: reading.original.push('\0'),
                        members: reading.members.push(name),
                        ..reading
                    };
                    let replacement = joined(candidates, " "@);
                    StepModel::Read(
                        if at.preserved.contains(name) {
                            ReadingModel {
                                partial: true,
                                preserved_candidates: reading.preserved_candidates + candidates,
                                ..marked
                            }
                        } else {
                            ReadingModel {
                                value: reading.value + replacement,
                                member_edits: reading.member_edits.push(
                                    EditModel {
                                        start: span_of(expression).0 as int,
                                        end: span_of(expression).1 as int,
                                        replacement: json_quoted(replacement),
                                    },
                                ),
                                ..marked
                            }
                        },
                    )
                },
            },
        }
    } else if at.batch_mode && string_value(expression) is Some {
        let text = string_value(expression)->0;
        StepModel::Read(
            ReadingModel { value: reading.value + text, original: reading.original + text, ..reading },
        )
    } else {
        StepModel::Dynamic
    }
}

/// The template from its part `i` on.
pub open spec fn template_from(
    at: SceneModel,
    template: TreeModel,
    quasis: Seq<TreeModel>,
    expressions: Seq<TreeModel>,
    i: int,
    reading: ReadingModel,
) -> Option<TemplateModel>
    decreases quasis.len() - i,
{
    if i < 0 || i >= quasis.len() {
        Some(finished(template, reading))
    } else {
        match text_field(field(quasis[i], "value"@), "cooked"@) {
            None => None,
            Some(cooked) => {
                let read = ReadingModel {
                    value: reading.value + cooked,
                    original: reading.original + cooked,
                    ..reading
                };
                if i >= expressions.len() {
                    template_from(at, template, quasis, expressions, i + 1, read)
                } else {
                    match after_expression(at, expressions[i], read) {
                        StepModel::Read(next) => template_from(at, template, quasis, expressions, i + 1, next),
                        StepModel::Stop => Some(no_template()),
                        StepModel::Dynamic => None,
                    }
                }
            },
        }
    }
}

pub open spec fn no_reading() -> ReadingModel {
    ReadingModel {
        value: seq![],
        original: seq![],
        members: seq![],
        member_edits: seq![],
        preserved_candidates: seq![],
        partial: false,
    }
}

/// What a template literal comes to; nothing where it is dynamic.
pub open spec fn static_template_of(at: SceneModel, template: TreeModel) -> Option<TemplateModel> {
    template_from(at, template, items(template, "quasis"@), items(template, "expressions"@), 0, no_reading())
}

/// The first conflict between the candidates of the members from `i` on and
/// the classes already present.
pub open spec fn static_clash(
    at: SceneModel,
    members: Seq<Seq<char>>,
    static_classes: Seq<Seq<char>>,
    i: int,
) -> Option<(Seq<char>, Seq<char>)>
    decreases members.len() - i,
{
    if i < 0 || i >= members.len() {
        None
    } else {
        match held(at.entries, KeyModel::Class(members[i])) {
            None => None,
            Some(candidates) => match first_clash(at.pairs, candidates, static_classes, 0) {
                Some(clash) => Some(clash),
                None => static_clash(at, members, static_classes, i + 1),
            },
        }
    }
}

/// What comparing two members' candidates yields.
pub enum ClashModel {
    Clash(Seq<char>, Seq<char>),
    /// A member has no candidates.
    Missing,
    Clean,
}

/// The first conflict between `left` and the candidates of the members from
/// `k` on.
pub open spec fn pair_clash(at: SceneModel, left: Seq<Seq<char>>, members: Seq<Seq<char>>, k: int) -> ClashModel
    decreases members.len() - k,
{
    if k < 0 || k >= members.len() {
        ClashModel::Clean
    } else {
        match held(at.entries, KeyModel::Class(members[k])) {
            None => ClashModel::Missing,
            Some(right) => match first_clash(at.pairs, left, right, 0) {
                Some(clash) => ClashModel::Clash(clash.0, clash.1),
                None => pair_clash(at, left, members, k + 1),
            },
        }
    }
}

/// The first conflict between the candidates of two members from `i` on.
/// Utilities generated from different module classes are ordered by
/// Tailwind's stylesheet, not by the source CSS cascade, so an overlapping
/// pair must retain its rules instead of migrating.
pub open spec fn member_clash(at: SceneModel, members: Seq<Seq<char>>, i: int) -> Option<(Seq<char>, Seq<char>)>
    decreases members.len() - i,
{
    if i < 0 || i >= members.len() {
        None
    } else {
        match held(at.entries, KeyModel::Class(members[i])) {
            None => None,
            Some(left) => match pair_clash(at, left, members, i + 1) {
                ClashModel::Clash(a, b) => Some((a, b)),
                ClashModel::Missing => None,
                ClashModel::Clean => member_clash(at, members, i + 1),
            },
        }
    }
}

/// The candidates of a member.
pub open spec fn held_or_none(entries: Entries, member: Seq<char>) -> Seq<Seq<char>> {
    match held(entries, KeyModel::Class(member)) {
        Some(candidates) => candidates,
        None => seq![],
    }
}

/// `out` with the matches of the first `n` candidates of a member.
pub open spec fn with_member_match(
    member: Seq<char>,
    candidates: Seq<Seq<char>>,
    span: (usize, usize),
    n: int,
    out: UsageModel,
) -> UsageModel
    decreases n,
{
    if n <= 0 {
        out
    } else {
        with_match(
            KeyModel::Class(member),
            candidates[n - 1],
            span.0 as int,
            span.1 as int,
            with_member_match(member, candidates, span, n - 1, out),
        )
    }
}

/// `out` with the matches of the first `n` members.
pub open spec fn with_member_matches(
    at: SceneModel,
    members: Seq<Seq<char>>,
    span: (usize, usize),
    n: int,
    out: UsageModel,
) -> UsageModel
    decreases n,
{
    if n <= 0 {
        out
    } else {
        let candidates = held_or_none(at.entries, members[n - 1]);
        with_member_match(
            members[n - 1],
            candidates,
            span,
            candidates.len() as int,
            with_member_matches(at, members, span, n - 1, out),
        )
    }
}

/// `out` with the first `n` members rewritten.
pub open spec fn with_rewritten(at: SceneModel, members: Seq<Seq<char>>, n: int, out: UsageModel) -> UsageModel
    decreases n,
{
    if n <= 0 {
        out
    } else {
        let before = with_rewritten(at, members, n - 1, out);
        UsageModel {
            emitted: with_names(before.emitted, held_or_none(at.entries, members[n - 1])),
            matched_module_refs: before.matched_module_refs.push(members[n - 1]),
            ..before
        }
    }
}

/// The texts that `known` does not hold.
pub open spec fn missing_from(list: Seq<Seq<char>>, known: Seq<Seq<char>>) -> Seq<Seq<char>>
    decreases list.len(),
{
    if list.len() == 0 {
        seq![]
    } else if known.contains(list.last()) {
        missing_from(list.drop_last(), known)
    } else {
        missing_from(list.drop_last(), known).push(list.last())
    }
}

/// What a `className` container is rewritten with. A previous run may already
/// have appended the preserved candidates as a static segment; appending them
/// again would grow the template on every run.
pub open spec fn with_container(
    template: TemplateModel,
    span: (usize, usize),
    site: Site,
    out: UsageModel,
) -> UsageModel {
    let preserved = missing_from(template.preserved_candidates, template.static_classes);
    let appended = json_quoted(" "@ + joined(preserved, " "@));
    match (template.preserved_expression, template.append_at) {
        (Some(expression), _) => if preserved.len() > 0 {
            with_edit(
                span.0 as int,
                span.1 as int,
                if site == Site::Attribute {
                    "{`${"@ + expression + "}${"@ + appended + "}`}"@
                } else {
                    "`${"@ + expression + "}${"@ + appended + "}`"@
                },
                out,
            )
        } else {
            out
        },
        (None, Some(place)) => {
            let edits = if preserved.len() > 0 {
                template.partial_edits.push(
                    EditModel { start: place, end: place, replacement: "${"@ + appended + "}"@ },
                )
            } else {
                template.partial_edits
            };
            UsageModel { edits: out.edits + edits, ..out }
        },
        (None, None) => if template.partial_edits.len() == 0 {
            with_edit(span.0 as int, span.1 as int, site_value(site, template.value), out)
        } else {
            UsageModel { edits: out.edits + template.partial_edits, ..out }
        },
    }
}

/// `out` with what a `className` container comes to.
pub open spec fn with_template(
    at: SceneModel,
    template: TemplateModel,
    span: (usize, usize),
    site: Site,
    out: UsageModel,
) -> UsageModel {
    let members = template.members;
    let matched = with_member_matches(at, members, span, members.len() as int, out);
    match member_clash(at, members, 0) {
        Some(clash) => with_warning(
            at,
            "module-utilities-conflict"@,
            span,
            "Generated utilities `"@ + clash.0 + "` and `"@ + clash.1
                + "` overlap; the CSS Module source order would be lost."@,
            matched,
        ),
        None => {
            let warned = match static_clash(at, members, template.static_classes, 0) {
                Some(clash) => UsageModel {
                    warnings: matched.warnings.push(
                        conflict_warning(at.path, span.0 as int, span.1 as int, clash.0, clash.1),
                    ),
                    ..matched
                },
                None => matched,
            };
            with_rewritten(at, members, members.len() as int, with_container(template, span, site, warned))
        },
    }
}

/// What a `className` that is one member of the CSS Module comes to.
pub open spec fn member_template(at: SceneModel, member: TreeModel) -> Option<TemplateModel> {
    match module_member(at, member) {
        None => None,
        Some(name) => match held(at.entries, KeyModel::Class(name)) {
            None => None,
            Some(candidates) => {
                let kept = at.preserved.contains(name);
                Some(
                    TemplateModel {
                        value: joined(candidates, " "@),
                        members: seq![name],
                        static_classes: seq![],
                        partial_edits: seq![],
                        preserved_candidates: if kept {
                            candidates
                        } else {
                            seq![]
                        },
                        preserved_expression: if kept {
                            Some(source_text(at.source, span_of(member)))
                        } else {
                            None
                        },
                        append_at: None,
                    },
                )
            },
        },
    }
}

/// The source text of a span.
pub open spec fn source_text(source: Seq<char>, span: (usize, usize)) -> Seq<char> {
    match cut(source, span.0 as int, span.1 as int) {
        Some(text) => text,
        None => seq![],
    }
}

/// `out` with what one result of a `className` expression comes to. Members of
/// other objects and plain texts are none of the CSS Module's.
pub open spec fn with_module_leaf(at: SceneModel, leaf: TreeModel, out: UsageModel) -> UsageModel {
    let span = span_of(leaf);
    let site = Site::Expression { single_quoted: false };
    if static_member(leaf) {
        match member_template(at, leaf) {
            Some(template) => with_template(at, template, span, site, out),
            None => out,
        }
    } else if of_kind(leaf, "TemplateLiteral"@) {
        match static_template_of(at, leaf) {
            Some(template) => if template.members.len() == 0 {
                out
            } else {
                with_template(at, template, span, site, out)
            },
            None => with_warning(
                at,
                "dynamic-class-name"@,
                span,
                "The template contains a dynamic or unsupported class."@,
                out,
            ),
        }
    } else if string_value(leaf) is Some || no_class(at, leaf) {
        out
    } else {
        with_warning(at, "dynamic-class-name"@, span, "Only static className values are supported."@, out)
    }
}

/// `out` with the first `n` results of a `className` expression.
pub open spec fn with_module_leaves(at: SceneModel, leaves: Seq<TreeModel>, n: int, out: UsageModel) -> UsageModel
    decreases n,
{
    if n <= 0 {
        out
    } else {
        with_module_leaf(at, leaves[n - 1], with_module_leaves(at, leaves, n - 1, out))
    }
}

/// `out` with what one attribute of an element comes to.
pub open spec fn with_module_attribute(at: SceneModel, item: TreeModel, out: UsageModel) -> UsageModel {
    let value = field(item, "value"@);
    let span = span_of(value);
    let expression = field(value, "expression"@);
    if attribute_name(item) == Some("className"@) && of_kind(value, "JSXExpressionContainer"@) {
        if static_member(expression) {
            match member_template(at, expression) {
                Some(template) => with_template(at, template, span, Site::Attribute, out),
                None => out,
            }
        } else if of_kind(expression, "TemplateLiteral"@) {
            match static_template_of(at, expression) {
                // Without a module member, rewriting would only reformat an
                // unrelated template literal.
                Some(template) => if template.members.len() == 0 {
                    out
                } else {
                    with_template(at, template, span, Site::Attribute, out)
                },
                None => with_warning(
                    at,
                    "dynamic-class-name"@,
                    span,
                    "The template contains a dynamic or unsupported class."@,
                    out,
                ),
            }
        } else if branches(expression) {
            let leaves = result_leaves(expression);
            with_module_leaves(at, leaves, leaves.len() as int, out)
        } else {
            with_warning(at, "dynamic-class-name"@, span, "Only static className values are supported."@, out)
        }
    } else {
        out
    }
}

/// `out` with the first `n` attributes of an element.
pub open spec fn with_module_attributes(at: SceneModel, list: Seq<TreeModel>, n: int, out: UsageModel) -> UsageModel
    decreases n,
{
    if n <= 0 {
        out
    } else {
        with_module_attribute(at, list[n - 1], with_module_attributes(at, list, n - 1, out))
    }
}

/// What a `className` expression comes to.
struct StaticTemplate {
    value: String,
    members: Vec<String>,
    static_classes: Vec<String>,
    partial_edits: Vec<Edit>,
    preserved_candidates: Vec<String>,
    preserved_expression: Option<String>,
    append_at: Option<usize>,
}

impl View for StaticTemplate {
    type V = TemplateModel;

    closed spec fn view(&self) -> TemplateModel {
        TemplateModel {
            value: self.value@,
            members: texts(self.members@),
            static_classes: texts(self.static_classes@),
            partial_edits: views(self.partial_edits@),
            preserved_candidates: texts(self.preserved_candidates@),
            preserved_expression: maybe(self.preserved_expression),
            append_at: match self.append_at {
                Some(place) => Some(place as int),
                None => None,
            },
        }
    }
}

fn empty_template() -> (result: StaticTemplate)
    ensures
        result@ == no_template(),
{
    let result = StaticTemplate {
        value: String::new(),
        members: Vec::new(),
        static_classes: Vec::new(),
        partial_edits: Vec::new(),
        preserved_candidates: Vec::new(),
        preserved_expression: None,
        append_at: None,
    };
    assert(result@.value =~= no_template().value);
    assert(result@.members =~= no_template().members);
    assert(result@.static_classes =~= no_template().static_classes);
    assert(result@.partial_edits =~= no_template().partial_edits);
    assert(result@.preserved_candidates =~= no_template().preserved_candidates);
    result
}

/// How far a template has been read.
struct Reading {
    value: String,
    original: String,
    members: Vec<String>,
    member_edits: Vec<Edit>,
    preserved_candidates: Vec<String>,
    partial: bool,
}

impl View for Reading {
    type V = ReadingModel;

    closed spec fn view(&self) -> ReadingModel {
        ReadingModel {
            value: self.value@,
            original: self.original@,
            members: texts(self.members@),
            member_edits: views(self.member_edits@),
            preserved_candidates: texts(self.preserved_candidates@),
            partial: self.partial,
        }
    }
}

fn drop_marked(list: Vec<String>) -> (result: Vec<String>)
    ensures
        texts(result@) == without_marks(texts(list@)),
{
    let mut result: Vec<String> = Vec::new();
    let mut i: usize = 0;
    assert(texts(list@).take(0) =~= Seq::<Seq<char>>::empty());
    assert(texts(result@) =~= Seq::<Seq<char>>::empty());
    while i < list.len()
        invariant
            i <= list@.len(),
            texts(result@) == without_marks(texts(list@).take(i as int)),
        decreases list.len() - i,
    {
        assert(texts(list@).take(i + 1).drop_last() =~= texts(list@).take(i as int));
        assert(texts(list@).take(i + 1).last() == list@[i as int]@);
        if !has_char(list[i].as_str(), '\0') {
            let ghost before = result@;
            result.push(list[i].clone());
            assert(texts(result@) =~= texts(before).push(list@[i as int]@));
        }
        i += 1;
    }
    assert(texts(list@).take(i as int) =~= texts(list@));
    result
}

fn find_missing(list: &Vec<String>, known: &Vec<String>) -> (result: Vec<String>)
    ensures
        texts(result@) == missing_from(texts(list@), texts(known@)),
{
    let mut result: Vec<String> = Vec::new();
    let mut i: usize = 0;
    assert(texts(list@).take(0) =~= Seq::<Seq<char>>::empty());
    assert(texts(result@) =~= Seq::<Seq<char>>::empty());
    while i < list.len()
        invariant
            i <= list@.len(),
            texts(result@) == missing_from(texts(list@).take(i as int), texts(known@)),
        decreases list.len() - i,
    {
        assert(texts(list@).take(i + 1).drop_last() =~= texts(list@).take(i as int));
        assert(texts(list@).take(i + 1).last() == list@[i as int]@);
        if !list_has(known, list[i].as_str()) {
            let ghost before = result@;
            result.push(list[i].clone());
            assert(texts(result@) =~= texts(before).push(list@[i as int]@));
        }
        i += 1;
    }
    assert(texts(list@).take(i as int) =~= texts(list@));
    result
}

fn finish_template(template: &Tree, reading: Reading) -> (result: StaticTemplate)
    ensures
        result@ == finished(template@, reading@),
{
    let end = get_span(template).1;
    let value = join(&split_words(reading.value.as_str(), Separator::Whitespace), " ");
    let static_classes = drop_marked(split_words(reading.original.as_str(), Separator::Whitespace));
    let partial_edits = if reading.partial {
        reading.member_edits
    } else {
        let none: Vec<Edit> = Vec::new();
        assert(views(none@) =~= Seq::<EditModel>::empty());
        none
    };
    let append_at: Option<usize> = if reading.partial {
        Some(if end > 0 {
            end - 1
        } else {
            0
        })
    } else {
        None
    };
    StaticTemplate {
        value,
        members: reading.members,
        static_classes,
        partial_edits,
        preserved_candidates: reading.preserved_candidates,
        preserved_expression: None,
        append_at,
    }
}

/// What one expression of a template does.
enum Step {
    Read,
    Stop,
    Dynamic,
}

fn read_expression<'a>(at: &Scene<'a>, expression: &Tree, reading: &mut Reading) -> (step: Step)
    ensures
        match step {
            Step::Read => after_expression(at@, expression@, old(reading)@) == StepModel::Read(final(reading)@),
            Step::Stop => after_expression(at@, expression@, old(reading)@) is Stop,
            Step::Dynamic => after_expression(at@, expression@, old(reading)@) is Dynamic,
        },
{
    if is_static_member(expression) {
        let name = match get_module_member(at, expression) {
            Some(name) => name,
            None => {
                if !at.batch_mode {
                    return Step::Dynamic;
                }
                reading.partial = true;
                reading.original.push('\0');
                return Step::Read;
            },
        };
        let key = SelectorKey::Class(name.clone());
        let candidates = match at.candidates.get(&key) {
            Some(candidates) => candidates,
            None => {
                return if at.batch_mode {
                    Step::Stop
                } else {
                    Step::Dynamic
                };
            },
        };
        reading.original.push('\0');
        let ghost members = reading.members@;
        reading.members.push(name.clone());
        assert(texts(reading.members@) =~= texts(members).push(name@));
        if list_has(at.preserved, name.as_str()) {
            reading.partial = true;
            push_texts(&mut reading.preserved_candidates, candidates);
        } else {
            let replacement = join(candidates, " ");
            reading.value.append(replacement.as_str());
            let span = get_span(expression);
            let edit = Edit { start: span.0, end: span.1, replacement: quote_json(replacement.as_str()) };
            let ghost model = edit@;
            let ghost edits = reading.member_edits@;
            reading.member_edits.push(edit);
            assert(views(reading.member_edits@) =~= views(edits).push(model));
        }
        return Step::Read;
    }
    if at.batch_mode {
        if let Some(text) = get_string(expression) {
            reading.value.append(text.as_str());
            reading.original.append(text.as_str());
            return Step::Read;
        }
    }
    Step::Dynamic
}

/// What a template literal comes to; nothing where it is dynamic.
fn static_template<'a>(at: &Scene<'a>, template: &Tree) -> (result: Option<StaticTemplate>)
    ensures
        maybe_view(result) == static_template_of(at@, template@),
{
    let no_items: Vec<Tree> = Vec::new();
    let quasis = match get_items(template, "quasis") {
        Some(quasis) => quasis,
        None => &no_items,
    };
    let expressions = match get_items(template, "expressions") {
        Some(expressions) => expressions,
        None => &no_items,
    };
    proof {
        lemma_list_model(quasis@, quasis@.len());
        lemma_list_model(expressions@, expressions@.len());
    }
    let ghost quasi_models = list_model(quasis@, quasis@.len());
    let ghost expression_models = list_model(expressions@, expressions@.len());
    assert(quasi_models =~= items(template@, "quasis"@));
    assert(expression_models =~= items(template@, "expressions"@));
    let mut reading = Reading {
        value: String::new(),
        original: String::new(),
        members: Vec::new(),
        member_edits: Vec::new(),
        preserved_candidates: Vec::new(),
        partial: false,
    };
    assert(reading@.value =~= no_reading().value);
    assert(reading@.original =~= no_reading().original);
    assert(reading@.members =~= no_reading().members);
    assert(reading@.member_edits =~= no_reading().member_edits);
    assert(reading@.preserved_candidates =~= no_reading().preserved_candidates);
    let mut i: usize = 0;
    while i < quasis.len()
        invariant
            i <= quasis@.len(),
            quasi_models.len() == quasis@.len(),
            expression_models.len() == expressions@.len(),
            forall|k: int| 0 <= k < quasis@.len() ==> #[trigger] quasi_models[k] == tree_model(quasis@[k]),
            forall|k: int|
                0 <= k < expressions@.len() ==> #[trigger] expression_models[k] == tree_model(expressions@[k]),
            template_from(at@, template@, quasi_models, expression_models, i as int, reading@) == static_template_of(
                at@,
                template@,
            ),
        decreases quasis.len() - i,
    {
        assert(quasi_models[i as int] == tree_model(quasis@[i as int]));
        let cooked = match optional_get_text(get(&quasis[i], "value"), "cooked") {
            Some(cooked) => cooked,
            None => {
                return None;
            },
        };
        reading.value.append(cooked.as_str());
        reading.original.append(cooked.as_str());
        if i < expressions.len() {
            assert(expression_models[i as int] == tree_model(expressions@[i as int]));
            match read_expression(at, &expressions[i], &mut reading) {
                Step::Read => {},
                Step::Stop => {
                    return Some(empty_template());
                },
                Step::Dynamic => {
                    return None;
                },
            }
        }
        i += 1;
    }
    Some(finish_template(template, reading))
}

fn get_candidates<'a>(at: &Scene<'a>, member: &String) -> (result: Option<&'a Vec<String>>)
    ensures
        match result {
            Some(candidates) => held(at@.entries, KeyModel::Class(member@)) == Some(texts(candidates@)),
            None => held(at@.entries, KeyModel::Class(member@)) is None,
        },
{
    at.candidates.get(&SelectorKey::Class(member.clone()))
}

fn conflicting_utilities<'a>(at: &Scene<'a>, members: &Vec<String>, static_classes: &Vec<String>) -> (result: Option<
    (String, String),
>)
    ensures
        match result {
            Some(pair) => static_clash(at@, texts(members@), texts(static_classes@), 0) == Some((pair.0@, pair.1@)),
            None => static_clash(at@, texts(members@), texts(static_classes@), 0) is None,
        },
{
    let mut i: usize = 0;
    while i < members.len()
        invariant
            i <= members@.len(),
            static_clash(at@, texts(members@), texts(static_classes@), i as int) == static_clash(
                at@,
                texts(members@),
                texts(static_classes@),
                0,
            ),
        decreases members.len() - i,
    {
        assert(texts(members@)[i as int] == members@[i as int]@);
        match get_candidates(at, &members[i]) {
            Some(candidates) => {
                if let Some(clash) = at.conflicts.find_first_clash(candidates, static_classes) {
                    return Some(clash);
                }
            },
            None => {
                return None;
            },
        }
        i += 1;
    }
    None
}

/// What comparing two members' candidates yields.
enum Clash {
    Clash(String, String),
    Missing,
    Clean,
}

fn find_pair_clash<'a>(at: &Scene<'a>, left: &Vec<String>, members: &Vec<String>, from: usize) -> (result: Clash)
    requires
        from <= members@.len(),
    ensures
        match result {
            Clash::Clash(a, b) => pair_clash(at@, texts(left@), texts(members@), from as int) == ClashModel::Clash(
                a@,
                b@,
            ),
            Clash::Missing => pair_clash(at@, texts(left@), texts(members@), from as int) is Missing,
            Clash::Clean => pair_clash(at@, texts(left@), texts(members@), from as int) is Clean,
        },
{
    let mut k: usize = from;
    while k < members.len()
        invariant
            from <= k <= members@.len(),
            pair_clash(at@, texts(left@), texts(members@), k as int) == pair_clash(
                at@,
                texts(left@),
                texts(members@),
                from as int,
            ),
        decreases members.len() - k,
    {
        assert(texts(members@)[k as int] == members@[k as int]@);
        match get_candidates(at, &members[k]) {
            Some(right) => {
                if let Some((a, b)) = at.conflicts.find_first_clash(left, right) {
                    return Clash::Clash(a, b);
                }
            },
            None => {
                return Clash::Missing;
            },
        }
        k += 1;
    }
    assert(texts(members@).len() == members@.len());
    Clash::Clean
}

fn conflicting_member_utilities<'a>(at: &Scene<'a>, members: &Vec<String>) -> (result: Option<(String, String)>)
    ensures
        match result {
            Some(pair) => member_clash(at@, texts(members@), 0) == Some((pair.0@, pair.1@)),
            None => member_clash(at@, texts(members@), 0) is None,
        },
{
    let mut i: usize = 0;
    while i < members.len()
        invariant
            i <= members@.len(),
            member_clash(at@, texts(members@), i as int) == member_clash(at@, texts(members@), 0),
        decreases members.len() - i,
    {
        assert(texts(members@)[i as int] == members@[i as int]@);
        match get_candidates(at, &members[i]) {
            Some(left) => match find_pair_clash(at, left, members, i + 1) {
                Clash::Clash(a, b) => {
                    return Some((a, b));
                },
                Clash::Missing => {
                    return None;
                },
                Clash::Clean => {},
            },
            None => {
                return None;
            },
        }
        i += 1;
    }
    None
}

fn push_member_matches<'a>(at: &Scene<'a>, members: &Vec<String>, span: (usize, usize), out: &mut Usage)
    ensures
        final(out)@ == with_member_matches(at@, texts(members@), span, members@.len() as int, old(out)@),
{
    let ghost start = out@;
    let mut n: usize = 0;
    while n < members.len()
        invariant
            n <= members@.len(),
            out@ == with_member_matches(at@, texts(members@), span, n as int, start),
        decreases members.len() - n,
    {
        let member = &members[n];
        assert(texts(members@)[n as int] == member@);
        if let Some(candidates) = get_candidates(at, member) {
            let key = SelectorKey::Class(member.clone());
            let ghost before = out@;
            let mut i: usize = 0;
            while i < candidates.len()
                invariant
                    i <= candidates@.len(),
                    key@ == KeyModel::Class(member@),
                    out@ == with_member_match(member@, texts(candidates@), span, i as int, before),
                decreases candidates.len() - i,
            {
                assert(texts(candidates@)[i as int] == candidates@[i as int]@);
                push_match(&key, &candidates[i], span.0, span.1, out);
                i += 1;
            }
            assert(texts(candidates@).len() == candidates@.len());
        }
        n += 1;
    }
}

fn push_rewritten<'a>(at: &Scene<'a>, members: &Vec<String>, out: &mut Usage)
    ensures
        final(out)@ == with_rewritten(at@, texts(members@), members@.len() as int, old(out)@),
{
    let ghost start = out@;
    let mut n: usize = 0;
    while n < members.len()
        invariant
            n <= members@.len(),
            out@ == with_rewritten(at@, texts(members@), n as int, start),
        decreases members.len() - n,
    {
        let member = &members[n];
        assert(texts(members@)[n as int] == member@);
        if let Some(candidates) = get_candidates(at, member) {
            insert_names(&mut out.emitted, candidates);
        }
        out.matched_module_refs.record(member.as_str());
        n += 1;
    }
}

fn push_edits(edits: Vec<Edit>, out: &mut Usage)
    ensures
        final(out)@ == (UsageModel { edits: old(out)@.edits + views(edits@), ..old(out)@ }),
{
    let ghost start = out@.edits;
    let mut i: usize = 0;
    assert(out@.edits =~= start + views(edits@).take(0));
    while i < edits.len()
        invariant
            i <= edits@.len(),
            out@ == (UsageModel { edits: start + views(edits@).take(i as int), ..old(out)@ }),
        decreases edits.len() - i,
    {
        let ghost before = out@.edits;
        out.edits.push(edits[i].copy());
        assert(out@.edits =~= before.push(edits@[i as int]@));
        assert(views(edits@)[i as int] == edits@[i as int]@);
        assert(start + views(edits@).take(i + 1) =~= (start + views(edits@).take(i as int)).push(edits@[i as int]@));
        i += 1;
    }
    assert(views(edits@).take(i as int) =~= views(edits@));
}

/// Rewrites a `className` container.
fn rewrite_container(template: StaticTemplate, span: (usize, usize), site: Site, out: &mut Usage)
    ensures
        final(out)@ == with_container(template@, span, site, old(out)@),
{
    let preserved = find_missing(&template.preserved_candidates, &template.static_classes);
    assert(texts(preserved@).len() == preserved@.len());
    let mut segment = " ".to_owned();
    segment.append(join(&preserved, " ").as_str());
    let appended = quote_json(segment.as_str());
    let mut partial_edits = template.partial_edits;
    assert(views(partial_edits@).len() == partial_edits@.len());
    if let Some(expression) = template.preserved_expression {
        if preserved.len() > 0 {
            let whole = site == Site::Attribute;
            let mut replacement = if whole {
                "{`${".to_owned()
            } else {
                "`${".to_owned()
            };
            replacement.append(expression.as_str());
            replacement.append("}${");
            replacement.append(appended.as_str());
            if whole {
                replacement.append("}`}");
            } else {
                replacement.append("}`");
            }
            push_edit(span.0, span.1, replacement, out);
        }
    } else if let Some(place) = template.append_at {
        if preserved.len() > 0 {
            let mut replacement = "${".to_owned();
            replacement.append(appended.as_str());
            replacement.append("}");
            let edit = Edit { start: place, end: place, replacement };
            let ghost model = edit@;
            let ghost before = partial_edits@;
            partial_edits.push(edit);
            assert(views(partial_edits@) =~= views(before).push(model));
        }
        push_edits(partial_edits, out);
    } else if partial_edits.len() == 0 {
        push_edit(span.0, span.1, write_site_value(site, template.value.as_str()), out);
    } else {
        push_edits(partial_edits, out);
    }
}

/// What a `className` container comes to.
fn apply_template<'a>(at: &Scene<'a>, template: StaticTemplate, span: (usize, usize), site: Site, out: &mut Usage)
    ensures
        final(out)@ == with_template(at@, template@, span, site, old(out)@),
{
    let members = copy_texts(&template.members);
    push_member_matches(at, &members, span, out);
    if let Some((left, right)) = conflicting_member_utilities(at, &members) {
        let mut message = "Generated utilities `".to_owned();
        message.append(left.as_str());
        message.append("` and `");
        message.append(right.as_str());
        message.append("` overlap; the CSS Module source order would be lost.");
        push_warning(at, "module-utilities-conflict", span, message, out);
        return;
    }
    if let Some((generated, existing)) = conflicting_utilities(at, &members, &template.static_classes) {
        let warning = Warning::existing_tailwind_conflict(
            at.file.path.as_str(),
            span,
            generated.as_str(),
            existing.as_str(),
        );
        let ghost model = warning@;
        let ghost before = out.warnings@;
        out.warnings.push(warning);
        assert(views(out.warnings@) =~= views(before).push(model));
    }
    rewrite_container(template, span, site, out);
    push_rewritten(at, &members, out);
}

fn make_member_template<'a>(at: &Scene<'a>, member: &Tree) -> (result: Option<StaticTemplate>)
    ensures
        maybe_view(result) == member_template(at@, member@),
{
    let name = match get_module_member(at, member) {
        Some(name) => name,
        None => {
            return None;
        },
    };
    let candidates = match get_candidates(at, name) {
        Some(candidates) => candidates,
        None => {
            return None;
        },
    };
    let kept = list_has(at.preserved, name.as_str());
    let mut template = empty_template();
    template.value = join(candidates, " ");
    template.members.push(name.clone());
    if kept {
        template.preserved_candidates = copy_texts(candidates);
        let span = get_span(member);
        let text = match copy_cut(at.file.source.as_str(), span.0, span.1) {
            Some(text) => text,
            None => {
                let empty = String::new();
                assert(empty@ =~= Seq::<char>::empty());
                empty
            },
        };
        template.preserved_expression = Some(text);
    }
    assert(texts(template.members@) =~= seq![name@]);
    Some(template)
}

fn rewrite_module_leaf<'a>(at: &Scene<'a>, leaf: &Tree, out: &mut Usage)
    ensures
        final(out)@ == with_module_leaf(at@, leaf@, old(out)@),
{
    let span = get_span(leaf);
    let site = Site::Expression { single_quoted: false };
    if is_static_member(leaf) {
        if let Some(template) = make_member_template(at, leaf) {
            apply_template(at, template, span, site, out);
        }
    } else if is_kind(leaf, "TemplateLiteral") {
        match static_template(at, leaf) {
            Some(template) => {
                assert(texts(template.members@).len() == template.members@.len());
                if template.members.len() > 0 {
                    apply_template(at, template, span, site, out);
                }
            },
            None => {
                push_warning(
                    at,
                    "dynamic-class-name",
                    span,
                    "The template contains a dynamic or unsupported class.".to_owned(),
                    out,
                );
            },
        }
    } else if get_string(leaf).is_none() && !has_no_class(at, leaf) {
        push_warning(
            at,
            "dynamic-class-name",
            span,
            "Only static className values are supported.".to_owned(),
            out,
        );
    }
}

fn rewrite_module_leaves<'a>(at: &Scene<'a>, expression: &Tree, out: &mut Usage)
    ensures
        final(out)@ == with_module_leaves(
            at@,
            result_leaves(expression@),
            result_leaves(expression@).len() as int,
            old(out)@,
        ),
{
    let mut leaves: Vec<&Tree> = Vec::new();
    collect_result_leaves(expression, &mut leaves);
    assert(tree_views(leaves@) =~= result_leaves(expression@));
    let ghost start = out@;
    let mut n: usize = 0;
    while n < leaves.len()
        invariant
            n <= leaves@.len(),
            out@ == with_module_leaves(at@, tree_views(leaves@), n as int, start),
        decreases leaves.len() - n,
    {
        assert(tree_views(leaves@)[n as int] == leaves@[n as int]@);
        rewrite_module_leaf(at, leaves[n], out);
        n += 1;
    }
}

fn rewrite_attribute<'a>(at: &Scene<'a>, item: &Tree, out: &mut Usage)
    ensures
        final(out)@ == with_module_attribute(at@, item@, old(out)@),
{
    if !is_text(get_attribute_name(item), "className") {
        return;
    }
    let container = match get(item, "value") {
        Some(container) => container,
        None => {
            assert(!of_kind(TreeModel::Null, "JSXExpressionContainer"@));
            return;
        },
    };
    if !is_kind(container, "JSXExpressionContainer") {
        return;
    }
    let span = get_span(container);
    let expression = match get(container, "expression") {
        Some(expression) => expression,
        None => &Tree::Null,
    };
    if is_static_member(expression) {
        if let Some(template) = make_member_template(at, expression) {
            apply_template(at, template, span, Site::Attribute, out);
        }
    } else if is_kind(expression, "TemplateLiteral") {
        match static_template(at, expression) {
            Some(template) => {
                assert(texts(template.members@).len() == template.members@.len());
                if template.members.len() > 0 {
                    apply_template(at, template, span, Site::Attribute, out);
                }
            },
            None => {
                push_warning(
                    at,
                    "dynamic-class-name",
                    span,
                    "The template contains a dynamic or unsupported class.".to_owned(),
                    out,
                );
            },
        }
    } else if does_branch(expression) {
        rewrite_module_leaves(at, expression, out);
    } else {
        push_warning(
            at,
            "dynamic-class-name",
            span,
            "Only static className values are supported.".to_owned(),
            out,
        );
    }
}

fn rewrite_attributes<'a>(at: &Scene<'a>, element: &Tree, out: &mut Usage)
    ensures
        final(out)@ == with_module_attributes(
            at@,
            items(element@, "attributes"@),
            items(element@, "attributes"@).len() as int,
            old(out)@,
        ),
{
    let attributes = match get_items(element, "attributes") {
        Some(attributes) => attributes,
        None => {
            return;
        },
    };
    proof {
        lemma_list_model(attributes@, attributes@.len());
    }
    let ghost models = list_model(attributes@, attributes@.len());
    let ghost start = out@;
    let mut n: usize = 0;
    while n < attributes.len()
        invariant
            n <= attributes@.len(),
            models.len() == attributes@.len(),
            forall|k: int| 0 <= k < attributes@.len() ==> #[trigger] models[k] == tree_model(attributes@[k]),
            out@ == with_module_attributes(at@, models, n as int, start),
        decreases attributes.len() - n,
    {
        assert(models[n as int] == tree_model(attributes@[n as int]));
        rewrite_attribute(at, &attributes[n], out);
        n += 1;
    }
}

// ---------------------------------------------------------------------------
// Walking
// ---------------------------------------------------------------------------

/// The declarator that binds the member at `start`: the last one counts.
pub open spec fn alias_at(aliases: Seq<(usize, (usize, usize))>, start: usize) -> Option<(usize, usize)>
    decreases aliases.len(),
{
    if aliases.len() == 0 {
        None
    } else if aliases.last().0 == start {
        Some(aliases.last().1)
    } else {
        alias_at(aliases.drop_last(), start)
    }
}

/// `out` with one reference to a module class.
pub open spec fn with_reference(
    at: SceneModel,
    name: Seq<char>,
    span: (usize, usize),
    inside: bool,
    out: UsageModel,
) -> UsageModel {
    let counted = UsageModel { module_refs: out.module_refs.push(name), ..out };
    if inside {
        counted
    } else {
        let exposed = UsageModel { unsafe_reference: true, ..counted };
        match alias_at(out.aliases, span.0) {
            Some(declarator) => with_warning(
                at,
                "aliased-css-module-reference"@,
                declarator,
                "A CSS Module class is aliased to a binding, so the module is retained."@,
                exposed,
            ),
            None => with_warning(
                at,
                "non-classname-css-module-reference"@,
                span,
                "A CSS Module class is used outside a supported className, so the module is retained."@,
                exposed,
            ),
        }
    }
}

/// `out` with what one node adds before its parts are walked.
pub open spec fn after_usage(at: SceneModel, tree: TreeModel, inside: bool, out: UsageModel) -> UsageModel {
    let span = span_of(tree);
    if of_kind(tree, "MemberExpression"@) {
        if module_member(at, tree) is Some {
            with_reference(at, module_member(at, tree)->0, span, inside, out)
        } else if flag(tree, "computed"@) && module_object(at, field(tree, "object"@)) {
            with_warning(
                at,
                "computed-css-module-reference"@,
                span,
                "A computed CSS Module access cannot be verified, so the module is retained."@,
                UsageModel { computed: out.computed.push(span), unsafe_reference: true, ..out },
            )
        } else {
            out
        }
    } else if of_kind(tree, "VariableDeclarator"@) {
        let value = field(tree, "init"@);
        if module_member(at, value) is Some {
            UsageModel { aliases: out.aliases.push((span_of(value).0, span)), ..out }
        } else {
            out
        }
    } else if of_kind(tree, "JSXOpeningElement"@) {
        if at.is_module {
            let attributes = items(tree, "attributes"@);
            with_module_attributes(at, attributes, attributes.len() as int, out)
        } else {
            with_global_element(at, tree, out)
        }
    } else {
        out
    }
}

/// `out` with every usage in the tree, in the order of the text; `inside` a
/// `className` attribute or not.
pub open spec fn used(at: SceneModel, tree: TreeModel, inside: bool, out: UsageModel) -> UsageModel
    decreases tree, 0nat,
{
    match tree {
        TreeModel::List(list) => used_items(at, list, list.len(), inside, out),
        TreeModel::Node(fields) => used_fields(
            at,
            fields,
            fields.len(),
            inside || attribute_name(tree) == Some("className"@),
            after_usage(at, tree, inside, out),
        ),
        _ => out,
    }
}

pub open spec fn used_items(at: SceneModel, list: Seq<TreeModel>, n: nat, inside: bool, out: UsageModel) -> UsageModel
    decreases list, n,
{
    if n == 0 || n > list.len() {
        out
    } else {
        used(at, list[n - 1], inside, used_items(at, list, (n - 1) as nat, inside, out))
    }
}

pub open spec fn used_fields(
    at: SceneModel,
    fields: Seq<(Seq<char>, TreeModel)>,
    n: nat,
    inside: bool,
    out: UsageModel,
) -> UsageModel
    decreases fields, n,
{
    if n == 0 || n > fields.len() {
        out
    } else {
        used(at, fields[n - 1].1, inside, used_fields(at, fields, (n - 1) as nat, inside, out))
    }
}

fn find_alias(aliases: &Vec<(usize, (usize, usize))>, start: usize) -> (result: Option<(usize, usize)>)
    ensures
        result == alias_at(aliases@, start),
{
    let mut n: usize = aliases.len();
    assert(aliases@.take(n as int) =~= aliases@);
    while n > 0
        invariant
            n <= aliases@.len(),
            alias_at(aliases@.take(n as int), start) == alias_at(aliases@, start),
        decreases n,
    {
        assert(aliases@.take(n as int).last() == aliases@[n - 1]);
        assert(aliases@.take(n as int).drop_last() =~= aliases@.take(n - 1));
        if aliases[n - 1].0 == start {
            return Some(aliases[n - 1].1);
        }
        n -= 1;
    }
    None
}

fn record_reference<'a>(at: &Scene<'a>, name: &String, span: (usize, usize), inside: bool, out: &mut Usage)
    ensures
        final(out)@ == with_reference(at@, name@, span, inside, old(out)@),
{
    out.module_refs.record(name.as_str());
    if inside {
        return;
    }
    out.unsafe_reference = true;
    match find_alias(&out.aliases, span.0) {
        Some(declarator) => {
            push_warning(
                at,
                "aliased-css-module-reference",
                declarator,
                "A CSS Module class is aliased to a binding, so the module is retained.".to_owned(),
                out,
            );
        },
        None => {
            push_warning(
                at,
                "non-classname-css-module-reference",
                span,
                "A CSS Module class is used outside a supported className, so the module is retained.".to_owned(),
                out,
            );
        },
    }
}

fn collect_usage<'a>(at: &Scene<'a>, tree: &Tree, inside: bool, out: &mut Usage)
    ensures
        final(out)@ == after_usage(at@, tree@, inside, old(out)@),
{
    let span = get_span(tree);
    if is_kind(tree, "MemberExpression") {
        if let Some(name) = get_module_member(at, tree) {
            record_reference(at, name, span, inside, out);
        } else if get_flag(tree, "computed") && is_module_object(at, get(tree, "object")) {
            out.computed.push(span);
            out.unsafe_reference = true;
            push_warning(
                at,
                "computed-css-module-reference",
                span,
                "A computed CSS Module access cannot be verified, so the module is retained.".to_owned(),
                out,
            );
        }
    } else if is_kind(tree, "VariableDeclarator") {
        match get(tree, "init") {
            Some(value) => {
                if get_module_member(at, value).is_some() {
                    out.aliases.push((get_span(value).0, span));
                }
            },
            None => {
                assert(!of_kind(TreeModel::Null, "MemberExpression"@));
            },
        }
    } else if is_kind(tree, "JSXOpeningElement") {
        if at.is_module {
            rewrite_attributes(at, tree, out);
        } else {
            global_element(at, tree, out);
        }
    }
}

fn collect_usages<'a>(at: &Scene<'a>, tree: &Tree, inside: bool, out: &mut Usage)
    ensures
        final(out)@ == used(at@, tree@, inside, old(out)@),
    decreases tree,
{
    match tree {
        Tree::List(list) => {
            proof {
                lemma_list_model(list@, list@.len());
            }
            let ghost models = list_model(list@, list@.len());
            let ghost start = out@;
            let mut n: usize = 0;
            while n < list.len()
                invariant
                    *tree == Tree::List(*list),
                    n <= list@.len(),
                    models.len() == list@.len(),
                    forall|k: int| 0 <= k < list@.len() ==> #[trigger] models[k] == tree_model(list@[k]),
                    out@ == used_items(at@, models, n as nat, inside, start),
                decreases list.len() - n,
            {
                assert(models[n as int] == tree_model(list@[n as int]));
                assert(decreases_to!(list@ => list@[n as int]));
                assert(decreases_to!(*tree => (*tree)->List_0));
                assert(decreases_to!(*list => list@));
                collect_usages(at, &list[n], inside, out);
                n += 1;
            }
        },
        Tree::Node(fields) => {
            collect_usage(at, tree, inside, out);
            let within = inside || is_text(get_attribute_name(tree), "className");
            proof {
                lemma_fields_model(fields@, fields@.len());
            }
            let ghost models = fields_model(fields@, fields@.len());
            let ghost start = out@;
            let mut n: usize = 0;
            while n < fields.len()
                invariant
                    *tree == Tree::Node(*fields),
                    n <= fields@.len(),
                    models.len() == fields@.len(),
                    forall|k: int|
                        0 <= k < fields@.len() ==> #[trigger] models[k] == (fields@[k].0@, tree_model(fields@[k].1)),
                    out@ == used_fields(at@, models, n as nat, within, start),
                decreases fields.len() - n,
            {
                assert(models[n as int] == (fields@[n as int].0@, tree_model(fields@[n as int].1)));
                assert(decreases_to!(fields@ => fields@[n as int]));
                assert(decreases_to!(fields@[n as int] => fields@[n as int].1));
                assert(decreases_to!(*tree => (*tree)->Node_0));
                assert(decreases_to!(*fields => fields@));
                collect_usages(at, &fields[n].1, within, out);
                n += 1;
            }
        },
        _ => {},
    }
}

// ---------------------------------------------------------------------------
// Plans
// ---------------------------------------------------------------------------

/// The file's text names the stylesheet.
pub open spec fn mentions_stylesheet(file: FileModel, css_path: Seq<char>) -> bool {
    file_name(css_path) matches Some(name) && holds(file.source, name)
}

/// The plan for a file that cannot be parsed: when its text names this
/// stylesheet it becomes an unverifiable reference that conservatively retains
/// the module; otherwise it has no effect.
pub open spec fn opaque_plan(file: FileModel, css_path: Seq<char>, is_module: bool) -> PlanModel {
    if is_module && mentions_stylesheet(file, css_path) {
        PlanModel {
            module_references_safe: false,
            warnings: seq![
                WarningModel {
                    code: "unsupported-css-module-reference"@,
                    file: file.path,
                    start: 0,
                    end: 0,
                    message: "The file could not be parsed, so its possible reference retains the CSS Module."@,
                },
            ],
            ..no_plan()
        }
    } else {
        no_plan()
    }
}

/// The plan for a file that cannot be parsed.
pub fn opaque_reference_plan(file: &SourceFile, css_path: &str, is_module: bool) -> (result: SourcePlan)
    ensures
        result@ == opaque_plan(file@, css_path@, is_module),
{
    let mut plan = empty_source_plan();
    let referenced = is_module && match find_file_name(css_path) {
        Some(name) => contains(file.source.as_str(), name.as_str()),
        None => false,
    };
    if referenced {
        plan.module_references_safe = false;
        plan.warnings.push(
            Warning::new(
                "unsupported-css-module-reference",
                file.path.as_str(),
                (0, 0),
                "The file could not be parsed, so its possible reference retains the CSS Module.".to_owned(),
            ),
        );
        assert(views(plan.warnings@) =~= opaque_plan(file@, css_path@, is_module).warnings);
    }
    plan
}

/// The edits that delete the first `n` imports.
pub open spec fn import_removals(source: Seq<char>, bindings: Seq<Binding>, n: int) -> Seq<EditModel>
    decreases n,
{
    if n <= 0 {
        seq![]
    } else {
        import_removals(source, bindings, n - 1).push(
            EditModel {
                start: bindings[n - 1].1.0 as int,
                end: behind_newline(source, bindings[n - 1].1.1 as int),
                replacement: seq![],
            },
        )
    }
}

fn make_import_removals(source: &str, bindings: &Vec<Binding>) -> (result: Vec<Edit>)
    ensures
        views(result@) == import_removals(source@, bindings@, bindings@.len() as int),
{
    let mut result: Vec<Edit> = Vec::new();
    let mut n: usize = 0;
    assert(views(result@) =~= Seq::<EditModel>::empty());
    while n < bindings.len()
        invariant
            n <= bindings@.len(),
            views(result@) == import_removals(source@, bindings@, n as int),
        decreases bindings.len() - n,
    {
        let span = bindings[n].1;
        let edit = Edit::removal(span.0, consume_following_newline(source, span.1));
        assert(edit@.replacement =~= Seq::<char>::empty());
        let ghost model = edit@;
        let ghost before = result@;
        result.push(edit);
        assert(views(result@) =~= views(before).push(model));
        n += 1;
    }
    result
}

/// The scene of a file.
pub open spec fn scene_of(
    file: FileModel,
    is_module: bool,
    module: ModuleModel,
    imports: ImportsModel,
    entries: Entries,
    preserved: Seq<Seq<char>>,
    batch_mode: bool,
    pairs: Seq<(Seq<char>, Seq<char>)>,
) -> SceneModel {
    SceneModel {
        path: file.path,
        source: file.source,
        is_module,
        symbols: module.symbols,
        bindings: imports.bindings,
        global_symbols: if is_module {
            seq![]
        } else {
            global_symbols(module.symbols, module.tree)
        },
        entries,
        preserved,
        batch_mode,
        pairs,
    }
}

/// Every reference to the CSS Module has been classified.
pub open spec fn counts_match(module: ModuleModel, imports: ImportsModel, usage: UsageModel) -> bool {
    references_to(module.symbols, imports.bindings, module.symbols.len() as int) == usage.module_refs.len()
        + usage.computed.len()
}

/// The references to the CSS Module can be migrated.
pub open spec fn references_safe(module: ModuleModel, imports: ImportsModel, usage: UsageModel) -> bool {
    !imports.unsupported_shape && counts_match(module, imports, usage) && !usage.unsafe_reference
}

/// The plan that the usages of a module come to. Computed, aliased, and
/// non-className sites already carry their own warnings; the import-site
/// warning covers the remaining import-shape and unclassified-identifier
/// cases. The imports go only where every reference was rewritten.
pub open spec fn usage_plan(
    file: FileModel,
    is_module: bool,
    module: ModuleModel,
    imports: ImportsModel,
    usage: UsageModel,
) -> PlanModel {
    let safe = references_safe(module, imports, usage);
    PlanModel {
        edits: usage.edits,
        removable_import_edits: if is_module && safe && imports.bindings.len() > 0 && usage.module_refs.len()
            + usage.computed.len() == usage.matched_module_refs.len() {
            import_removals(file.source, imports.bindings, imports.bindings.len() as int)
        } else {
            seq![]
        },
        candidates: usage.emitted,
        matches: usage.matches,
        module_refs: usage.module_refs,
        matched_module_refs: usage.matched_module_refs,
        module_references_safe: safe,
        warnings: if (imports.unsupported_shape || !counts_match(module, imports, usage))
            && imports.warning_span is Some {
            usage.warnings.push(
                WarningModel {
                    code: "unsupported-css-module-reference"@,
                    file: file.path,
                    start: (imports.warning_span->0).0 as int,
                    end: (imports.warning_span->0).1 as int,
                    message: "The CSS Module has an import or reference that cannot be migrated safely."@,
                },
            )
        } else {
            usage.warnings
        },
    }
}

/// The plan for a module.
pub open spec fn module_plan(
    file: FileModel,
    css_path: Seq<char>,
    is_module: bool,
    module: ModuleModel,
    entries: Entries,
    preserved: Seq<Seq<char>>,
    batch_mode: bool,
    pairs: Seq<(Seq<char>, Seq<char>)>,
) -> PlanModel {
    let imports = if is_module {
        imports_of(file.path, css_path, module.symbols, module.tree)
    } else {
        no_imports()
    };
    let scene = scene_of(file, is_module, module, imports, entries, preserved, batch_mode, pairs);
    usage_plan(file, is_module, module, imports, used(scene, module.tree, false, no_usage()))
}

/// A failure in a source file.
pub open spec fn source_error(kind: ErrorKind, head: Seq<char>, path: Seq<char>, error: Seq<char>) -> ErrorModel {
    ErrorModel { kind, message: head + path + ": "@ + error }
}

/// The plan for what parsing a file yields. A scan-only file that cannot be
/// parsed is data, not an error; writable files still fail loudly.
pub open spec fn parsed_plan(
    file: FileModel,
    css_path: Seq<char>,
    is_module: bool,
    parsed: Result<ModuleModel, SyntaxErrorModel>,
    entries: Entries,
    preserved: Seq<Seq<char>>,
    batch_mode: bool,
    pairs: Seq<(Seq<char>, Seq<char>)>,
) -> Result<PlanModel, ErrorModel> {
    match parsed {
        Ok(module) => Ok(module_plan(file, css_path, is_module, module, entries, preserved, batch_mode, pairs)),
        Err(SyntaxErrorModel::Unsupported(error)) => Err(
            source_error(ErrorKind::UnsupportedSource, "Unsupported source file "@, file.path, error),
        ),
        Err(SyntaxErrorModel::Parse(error)) => if file.writable {
            Err(source_error(ErrorKind::SourceParse, "Failed to parse "@, file.path, error))
        } else {
            Ok(opaque_plan(file, css_path, is_module))
        },
        Err(SyntaxErrorModel::Analyze(error)) => if file.writable {
            Err(source_error(ErrorKind::SourceAnalysis, "Failed to analyze "@, file.path, error))
        } else {
            Ok(opaque_plan(file, css_path, is_module))
        },
    }
}

/// The result of planning, by its model.
pub open spec fn plan_result(result: Result<SourcePlan, MigrationError>) -> Result<PlanModel, ErrorModel> {
    match result {
        Ok(plan) => Ok(plan@),
        Err(error) => Err(error@),
    }
}

fn add_up(a: usize, b: usize, total: usize) -> (result: bool)
    ensures
        result == (a + b == total),
{
    match a.checked_add(b) {
        Some(sum) => sum == total,
        None => false,
    }
}

/// The plan for a module.
pub fn plan_module(
    file: &SourceFile,
    css_path: &str,
    is_module: bool,
    module: &Module,
    candidates: &Candidates,
    preserved: &Vec<String>,
    batch_mode: bool,
    conflicts: &Conflicts,
) -> (result: SourcePlan)
    ensures
        result@ == module_plan(
            file@,
            css_path@,
            is_module,
            module@,
            candidates@,
            texts(preserved@),
            batch_mode,
            conflicts@,
        ),
{
    let imports = if is_module {
        find_imports(file.path.as_str(), css_path, &module.symbols, &module.tree)
    } else {
        empty_imports()
    };
    let global_symbols = if is_module {
        let none: Vec<usize> = Vec::new();
        assert(none@ =~= Seq::<usize>::empty());
        none
    } else {
        find_global_symbols(&module.symbols, &module.tree)
    };
    let scene = Scene {
        file,
        is_module,
        symbols: &module.symbols,
        bindings: &imports.bindings,
        global_symbols: &global_symbols,
        candidates,
        preserved,
        batch_mode,
        conflicts,
    };
    let mut usage = empty_usage();
    collect_usages(&scene, &module.tree, false, &mut usage);
    let total = count_references(&module.symbols, &imports.bindings);
    let matches_counts = add_up(usage.module_refs.names.len(), usage.computed.len(), total);
    assert(usage.module_refs@.len() == usage.module_refs.names@.len());
    assert(usage.matched_module_refs@.len() == usage.matched_module_refs.names@.len());
    let safe = !imports.unsupported_shape && matches_counts && !usage.unsafe_reference;
    let removable = is_module && safe && imports.bindings.len() > 0 && add_up(
        usage.module_refs.names.len(),
        usage.computed.len(),
        usage.matched_module_refs.names.len(),
    );
    if imports.unsupported_shape || !matches_counts {
        if let Some(span) = imports.warning_span {
            push_warning(
                &scene,
                "unsupported-css-module-reference",
                span,
                "The CSS Module has an import or reference that cannot be migrated safely.".to_owned(),
                &mut usage,
            );
        }
    }
    let removable_import_edits = if removable {
        make_import_removals(file.source.as_str(), &imports.bindings)
    } else {
        let none: Vec<Edit> = Vec::new();
        assert(views(none@) =~= Seq::<EditModel>::empty());
        none
    };
    SourcePlan {
        edits: usage.edits,
        removable_import_edits,
        candidates: usage.emitted,
        matches: usage.matches,
        module_refs: usage.module_refs,
        matched_module_refs: usage.matched_module_refs,
        module_references_safe: safe,
        warnings: usage.warnings,
    }
}

fn write_error(kind: ErrorKind, head: &str, path: &str, error: &str) -> (result: MigrationError)
    ensures
        result@ == source_error(kind, head@, path@, error@),
{
    let mut message = head.to_owned();
    message.append(path);
    message.append(": ");
    message.append(error);
    MigrationError::new(kind, message)
}

/// The plan for what parsing a file yields.
pub fn plan_parsed(
    file: &SourceFile,
    css_path: &str,
    is_module: bool,
    parsed: Result<Module, SyntaxError>,
    candidates: &Candidates,
    preserved: &Vec<String>,
    batch_mode: bool,
    conflicts: &Conflicts,
) -> (result: Result<SourcePlan, MigrationError>)
    ensures
        plan_result(result) == parsed_plan(
            file@,
            css_path@,
            is_module,
            match parsed {
                Ok(module) => Ok(module@),
                Err(error) => Err(error@),
            },
            candidates@,
            texts(preserved@),
            batch_mode,
            conflicts@,
        ),
{
    match parsed {
        Ok(module) => Ok(
            plan_module(file, css_path, is_module, &module, candidates, preserved, batch_mode, conflicts),
        ),
        Err(SyntaxError::Unsupported(error)) => Err(
            write_error(ErrorKind::UnsupportedSource, "Unsupported source file ", file.path.as_str(), error.as_str()),
        ),
        Err(SyntaxError::Parse(error)) => if file.writable {
            Err(write_error(ErrorKind::SourceParse, "Failed to parse ", file.path.as_str(), error.as_str()))
        } else {
            Ok(opaque_reference_plan(file, css_path, is_module))
        },
        Err(SyntaxError::Analyze(error)) => if file.writable {
            Err(write_error(ErrorKind::SourceAnalysis, "Failed to analyze ", file.path.as_str(), error.as_str()))
        } else {
            Ok(opaque_reference_plan(file, css_path, is_module))
        },
    }
}

/// What a JavaScript or TypeScript file becomes when the candidates of a
/// stylesheet are written into it.
pub fn plan_source_file_with_mode(
    file: &SourceFile,
    css_path: &str,
    is_module: bool,
    candidates: &Candidates,
    preserved: &Vec<String>,
    batch_mode: bool,
    conflicts: &Conflicts,
) -> (result: Result<SourcePlan, MigrationError>)
    ensures
        plan_result(result) == parsed_plan(
            file@,
            css_path@,
            is_module,
            module_at(file@.path, file@.source),
            candidates@,
            texts(preserved@),
            batch_mode,
            conflicts@,
        ),
{
    let parsed = parse_module(file.path.as_str(), file.source.as_str());
    plan_parsed(file, css_path, is_module, parsed, candidates, preserved, batch_mode, conflicts)
}

/// What a file becomes outside a batch: no module class stays referenced.
pub fn plan_source_file(
    file: &SourceFile,
    css_path: &str,
    is_module: bool,
    candidates: &Candidates,
    conflicts: &Conflicts,
) -> (result: Result<SourcePlan, MigrationError>)
    ensures
        plan_result(result) == parsed_plan(
            file@,
            css_path@,
            is_module,
            module_at(file@.path, file@.source),
            candidates@,
            seq![],
            false,
            conflicts@,
        ),
{
    let none: Vec<String> = Vec::new();
    assert(texts(none@) =~= Seq::<Seq<char>>::empty());
    plan_source_file_with_mode(file, css_path, is_module, candidates, &none, false, conflicts)
}

/// What a file becomes in a batch.
pub fn plan_batch_source_file(
    file: &SourceFile,
    css_path: &str,
    is_module: bool,
    candidates: &Candidates,
    preserved: &Vec<String>,
    conflicts: &Conflicts,
) -> (result: Result<SourcePlan, MigrationError>)
    ensures
        plan_result(result) == parsed_plan(
            file@,
            css_path@,
            is_module,
            module_at(file@.path, file@.source),
            candidates@,
            texts(preserved@),
            true,
            conflicts@,
        ),
{
    plan_source_file_with_mode(file, css_path, is_module, candidates, preserved, true, conflicts)
}

/// An import of the CSS Module is deleted only where its references are safe
/// and each of them was rewritten.
pub proof fn removed_imports_are_unused(
    file: FileModel,
    is_module: bool,
    module: ModuleModel,
    imports: ImportsModel,
    usage: UsageModel,
)
    ensures
        usage_plan(file, is_module, module, imports, usage).removable_import_edits.len() > 0 ==> {
            &&& usage_plan(file, is_module, module, imports, usage).module_references_safe
            &&& usage.matched_module_refs.len() == references_to(
                module.symbols,
                imports.bindings,
                module.symbols.len() as int,
            )
        },
{
}

// What candidates do to a class list

proof fn lemma_listed_all(
    key: KeyModel,
    candidates: Seq<Seq<char>>,
    span: (usize, usize),
    n: int,
    state: ClassListModel,
)
    requires
        0 <= n <= candidates.len(),
    ensures
        ({
            let result = with_listed_all(key, candidates, span, n, state);
            &&& result.out.edits == state.out.edits
            &&& forall|x: Seq<char>| #[trigger] state.classes.contains(x) ==> result.classes.contains(x)
            &&& forall|i: int| 0 <= i < n ==> result.classes.contains(#[trigger] candidates[i])
            &&& forall|x: Seq<char>| #[trigger]
                result.classes.contains(x) ==> state.classes.contains(x) || candidates.contains(x)
            &&& (forall|i: int| 0 <= i < n ==> state.classes.contains(#[trigger] candidates[i])) ==> result.classes
                == state.classes
        }),
    decreases n,
{
    if n > 0 {
        lemma_listed_all(key, candidates, span, n - 1, state);
        let before = with_listed_all(key, candidates, span, n - 1, state);
        let result = with_listed_all(key, candidates, span, n, state);
        let added = candidates[n - 1];
        assert forall|x: Seq<char>| #[trigger] before.classes.contains(x) implies result.classes.contains(x) by {
            let k = choose|k: int| 0 <= k < before.classes.len() && before.classes[k] == x;
            assert(result.classes[k] == x);
        }
        assert(result.classes.contains(added)) by {
            if !before.classes.contains(added) {
                assert(result.classes[before.classes.len() as int] == added);
            }
        }
        assert forall|i: int| 0 <= i < n implies result.classes.contains(#[trigger] candidates[i]) by {
            if i < n - 1 {
                assert(before.classes.contains(candidates[i]));
            }
        }
        assert forall|x: Seq<char>| #[trigger] result.classes.contains(x) implies state.classes.contains(x)
            || candidates.contains(x) by {
            if !before.classes.contains(x) {
                let k = choose|k: int| 0 <= k < result.classes.len() && result.classes[k] == x;
                if k < before.classes.len() {
                    assert(before.classes[k] == x);
                } else {
                    assert(candidates[n - 1] == x);
                }
            }
        }
        if forall|i: int| 0 <= i < n ==> state.classes.contains(#[trigger] candidates[i]) {
            assert(state.classes.contains(candidates[n - 1]));
            assert(before.classes.contains(candidates[n - 1]));
        }
    }
}

/// The candidates of a class are in the list.
pub open spec fn has_candidates(at: SceneModel, classes: Seq<Seq<char>>, class: Seq<char>) -> bool {
    match held(at.entries, KeyModel::Class(class)) {
        Some(candidates) => forall|i: int| 0 <= i < candidates.len() ==> classes.contains(#[trigger] candidates[i]),
        None => true,
    }
}

/// The text is a candidate of some class of the list.
pub open spec fn comes_from(at: SceneModel, own: Seq<Seq<char>>, x: Seq<char>) -> bool {
    exists|i: int|
        0 <= i < own.len() && (held(at.entries, KeyModel::Class(#[trigger] own[i])) matches Some(candidates)
            && candidates.contains(x))
}

pub proof fn lemma_own_classes(
    at: SceneModel,
    own: Seq<Seq<char>>,
    span: (usize, usize),
    n: int,
    state: ClassListModel,
)
    requires
        0 <= n <= own.len(),
    ensures
        ({
            let result = with_own_classes(at, own, span, n, state);
            &&& result.out.edits == state.out.edits
            &&& forall|x: Seq<char>| #[trigger] state.classes.contains(x) ==> result.classes.contains(x)
            &&& forall|i: int| 0 <= i < n ==> has_candidates(at, result.classes, #[trigger] own[i])
            &&& forall|x: Seq<char>| #[trigger]
                result.classes.contains(x) ==> state.classes.contains(x) || comes_from(at, own, x)
            &&& (forall|i: int| 0 <= i < n ==> has_candidates(at, state.classes, #[trigger] own[i]))
                ==> result.classes == state.classes
        }),
    decreases n,
{
    if n > 0 {
        lemma_own_classes(at, own, span, n - 1, state);
        let before = with_own_classes(at, own, span, n - 1, state);
        let result = with_own_classes(at, own, span, n, state);
        let key = KeyModel::Class(own[n - 1]);
        if let Some(candidates) = held(at.entries, key) {
            lemma_listed_all(key, candidates, span, candidates.len() as int, before);
            assert forall|i: int| 0 <= i < n implies has_candidates(at, result.classes, #[trigger] own[i]) by {
                if i < n - 1 {
                    assert(has_candidates(at, before.classes, own[i]));
                    if let Some(list) = held(at.entries, KeyModel::Class(own[i])) {
                        assert forall|k: int| 0 <= k < list.len() implies result.classes.contains(
                            #[trigger] list[k],
                        ) by {
                            assert(before.classes.contains(list[k]));
                        }
                    }
                }
            }
            assert forall|x: Seq<char>| #[trigger] result.classes.contains(x) implies state.classes.contains(x)
                || comes_from(at, own, x) by {
                if !before.classes.contains(x) {
                    assert(candidates.contains(x));
                    assert(held(at.entries, KeyModel::Class(own[n - 1])) == Some(candidates));
                }
            }
            if forall|i: int| 0 <= i < n ==> has_candidates(at, state.classes, #[trigger] own[i]) {
                assert(has_candidates(at, state.classes, own[n - 1]));
                assert(before.classes == state.classes);
                assert forall|k: int| 0 <= k < candidates.len() implies before.classes.contains(
                    #[trigger] candidates[k],
                ) by {}
            }
        } else {
            assert forall|i: int| 0 <= i < n implies has_candidates(at, result.classes, #[trigger] own[i]) by {
                if i < n - 1 {
                    assert(has_candidates(at, before.classes, own[i]));
                }
            }
        }
    }
}

pub proof fn lemma_extra(extra: Seq<(KeyModel, Seq<char>)>, span: (usize, usize), n: int, state: ClassListModel)
    requires
        0 <= n <= extra.len(),
    ensures
        ({
            let result = with_extra(extra, span, n, state);
            &&& result.out.edits == state.out.edits
            &&& forall|x: Seq<char>| #[trigger] state.classes.contains(x) ==> result.classes.contains(x)
            &&& forall|i: int| 0 <= i < n ==> result.classes.contains((#[trigger] extra[i]).1)
            &&& forall|x: Seq<char>| #[trigger]
                result.classes.contains(x) ==> state.classes.contains(x) || (exists|i: int|
                    0 <= i < n && (#[trigger] extra[i]).1 == x)
            &&& (forall|i: int| 0 <= i < n ==> state.classes.contains((#[trigger] extra[i]).1)) ==> result.classes
                == state.classes
        }),
    decreases n,
{
    if n > 0 {
        lemma_extra(extra, span, n - 1, state);
        let before = with_extra(extra, span, n - 1, state);
        let candidates = seq![extra[n - 1].1];
        assert(candidates[0] == extra[n - 1].1);
        assert(with_listed_all(extra[n - 1].0, candidates, span, 0, before) == before);
        lemma_listed_all(extra[n - 1].0, candidates, span, 1, before);
        let result = with_extra(extra, span, n, state);
        assert(result == with_listed_all(extra[n - 1].0, candidates, span, 1, before));
        assert forall|i: int| 0 <= i < n implies result.classes.contains((#[trigger] extra[i]).1) by {
            if i < n - 1 {
                assert(before.classes.contains(extra[i].1));
            }
        }
        assert forall|x: Seq<char>| #[trigger] result.classes.contains(x) implies state.classes.contains(x) || (
        exists|i: int| 0 <= i < n && (#[trigger] extra[i]).1 == x) by {
            if !before.classes.contains(x) {
                assert(candidates.contains(x));
                assert(extra[n - 1].1 == x);
            }
        }
    }
}

/// The text is one word and has no candidates of its own.
pub open spec fn is_settled(entries: Entries, text: Seq<char>) -> bool {
    is_word(text, Separator::Whitespace) && held(entries, KeyModel::Class(text)) is None
}

/// No candidate is a class with candidates of its own, and each is one word.
pub open spec fn settles(entries: Entries) -> bool {
    forall|key: KeyModel, i: int|
        #![trigger held(entries, key)->0[i]]
        held(entries, key) is Some && 0 <= i < (held(entries, key)->0).len() ==> is_settled(
            entries,
            held(entries, key)->0[i],
        )
}

/// A second run changes no class list: once the candidates of its classes and
/// the extra ones have joined a list, they join it no more.
pub proof fn a_second_run_changes_no_class_list(
    at: SceneModel,
    value: Seq<char>,
    extra: Seq<(KeyModel, Seq<char>)>,
    first: ((usize, usize), UsageModel),
    second: ((usize, usize), Site, UsageModel),
)
    requires
        settles(at.entries),
        forall|i: int| 0 <= i < extra.len() ==> is_settled(at.entries, (#[trigger] extra[i]).1),
    ensures
        ({
            let list = completed(at, first.0, value, extra, first.1).classes;
            with_literal(at, second.0, joined(list, " "@), extra, second.1, second.2).edits == second.2.edits
        }),
{
    let own = words(value, Separator::Whitespace);
    let state = ClassListModel { classes: own, out: first.1 };
    let middle = with_own_classes(at, own, first.0, own.len() as int, state);
    let list = completed(at, first.0, value, extra, first.1).classes;
    lemma_own_classes(at, own, first.0, own.len() as int, state);
    lemma_extra(extra, first.0, extra.len() as int, middle);
    lemma_words_are_words(value, Separator::Whitespace);
    assert forall|i: int| 0 <= i < list.len() implies is_word(#[trigger] list[i], Separator::Whitespace)
        && has_candidates(at, list, list[i]) by {
        let x = list[i];
        assert(list.contains(x));
        if own.contains(x) {
            let k = choose|k: int| 0 <= k < own.len() && own[k] == x;
            assert(is_word(own[k], Separator::Whitespace));
            assert(has_candidates(at, middle.classes, own[k]));
            if let Some(candidates) = held(at.entries, KeyModel::Class(x)) {
                assert forall|j: int| 0 <= j < candidates.len() implies list.contains(#[trigger] candidates[j]) by {
                    assert(middle.classes.contains(candidates[j]));
                }
            }
        } else if middle.classes.contains(x) {
            lemma_candidate_settled(at, own, x);
        } else {
            let k = choose|k: int| 0 <= k < extra.len() && (#[trigger] extra[k]).1 == x;
            assert(is_settled(at.entries, extra[k].1));
        }
    }
    splitting_undoes_joining(list, Separator::Whitespace);
    let again = ClassListModel { classes: list, out: second.2 };
    lemma_own_classes(at, list, second.0, list.len() as int, again);
    lemma_extra(
        extra,
        second.0,
        extra.len() as int,
        with_own_classes(at, list, second.0, list.len() as int, again),
    );
}

proof fn lemma_candidate_settled(at: SceneModel, own: Seq<Seq<char>>, x: Seq<char>)
    requires
        settles(at.entries),
        comes_from(at, own, x),
    ensures
        is_settled(at.entries, x),
{
    let i = choose|i: int|
        0 <= i < own.len() && (held(at.entries, KeyModel::Class(#[trigger] own[i])) matches Some(candidates)
            && candidates.contains(x));
    let key = KeyModel::Class(own[i]);
    let candidates = held(at.entries, key)->0;
    let k = choose|k: int| 0 <= k < candidates.len() && candidates[k] == x;
    assert(held(at.entries, key)->0[k] == x);
}

// What stays of a template

proof fn lemma_nothing_missing(list: Seq<Seq<char>>, known: Seq<Seq<char>>)
    requires
        forall|i: int| 0 <= i < list.len() ==> known.contains(#[trigger] list[i]),
    ensures
        missing_from(list, known).len() == 0,
    decreases list.len(),
{
    if list.len() > 0 {
        assert(known.contains(list[list.len() - 1]));
        let rest = list.drop_last();
        assert forall|i: int| 0 <= i < rest.len() implies known.contains(#[trigger] rest[i]) by {
            assert(known.contains(list[i]));
        }
        lemma_nothing_missing(rest, known);
    }
}

proof fn lemma_member_match_edits(
    member: Seq<char>,
    candidates: Seq<Seq<char>>,
    span: (usize, usize),
    n: int,
    out: UsageModel,
)
    ensures
        with_member_match(member, candidates, span, n, out).edits == out.edits,
    decreases n,
{
    if n > 0 {
        lemma_member_match_edits(member, candidates, span, n - 1, out);
    }
}

proof fn lemma_member_matches_edits(
    at: SceneModel,
    members: Seq<Seq<char>>,
    span: (usize, usize),
    n: int,
    out: UsageModel,
)
    ensures
        with_member_matches(at, members, span, n, out).edits == out.edits,
    decreases n,
{
    if n > 0 {
        let candidates = held_or_none(at.entries, members[n - 1]);
        let before = with_member_matches(at, members, span, n - 1, out);
        lemma_member_matches_edits(at, members, span, n - 1, out);
        lemma_member_match_edits(members[n - 1], candidates, span, candidates.len() as int, before);
    }
}

proof fn lemma_rewritten_edits(at: SceneModel, members: Seq<Seq<char>>, n: int, out: UsageModel)
    ensures
        with_rewritten(at, members, n, out).edits == out.edits,
    decreases n,
{
    if n > 0 {
        lemma_rewritten_edits(at, members, n - 1, out);
    }
}

/// Something of the template stays: a member that other rules need, or a part
/// that is not rewritten.
pub open spec fn stays(template: TemplateModel) -> bool {
    template.preserved_expression is Some || template.append_at is Some
}

/// Every candidate of a member that stays already stands beside it.
pub open spec fn has_preserved(template: TemplateModel) -> bool {
    forall|i: int|
        0 <= i < template.preserved_candidates.len() ==> template.static_classes.contains(
            #[trigger] template.preserved_candidates[i],
        )
}

/// A second run appends nothing to a template: where every candidate of the
/// members that stay already stands among its classes, only the other members
/// are edited, and a member that is the whole expression is left as it is.
pub proof fn a_second_run_appends_nothing(
    at: SceneModel,
    template: TemplateModel,
    span: (usize, usize),
    site: Site,
    out: UsageModel,
)
    requires
        stays(template),
        has_preserved(template),
    ensures
        with_container(template, span, site, out).edits == if template.preserved_expression is Some {
            out.edits
        } else {
            out.edits + template.partial_edits
        },
        with_template(at, template, span, site, out).edits == if template.preserved_expression is Some
            || member_clash(at, template.members, 0) is Some {
            out.edits
        } else {
            out.edits + template.partial_edits
        },
{
    let members = template.members;
    lemma_nothing_missing(template.preserved_candidates, template.static_classes);
    lemma_member_matches_edits(at, members, span, members.len() as int, out);
    let matched = with_member_matches(at, members, span, members.len() as int, out);
    if member_clash(at, members, 0) is None {
        let warned = match static_clash(at, members, template.static_classes, 0) {
            Some(clash) => UsageModel {
                warnings: matched.warnings.push(
                    conflict_warning(at.path, span.0 as int, span.1 as int, clash.0, clash.1),
                ),
                ..matched
            },
            None => matched,
        };
        lemma_rewritten_edits(at, members, members.len() as int, with_container(template, span, site, warned));
    }
}

/// A class of a static segment: one word, and no mark of a member.
pub open spec fn segment_class(class: Seq<char>) -> bool {
    is_word(class, Separator::Whitespace) && !class.contains('\0')
}

proof fn lemma_segment_words(head: Seq<char>, list: Seq<Seq<char>>)
    requires
        forall|i: int| 0 <= i < list.len() ==> is_word(#[trigger] list[i], Separator::Whitespace),
        list.len() > 0,
    ensures
        forall|i: int|
            0 <= i < list.len() ==> words(head + " "@ + joined(list, " "@), Separator::Whitespace).contains(
                #[trigger] list[i],
            ),
    decreases list.len(),
{
    reveal_strlit(" ");
    assert(" "@ =~= seq![' ']);
    let separator = Separator::Whitespace;
    let last = list.last();
    let all = words(head + " "@ + joined(list, " "@), separator);
    assert(is_word(list[list.len() - 1], separator));
    if list.len() == 1 {
        lemma_word_behind(head, ' ', last, separator);
        assert(all[words(head, separator).len() as int] == last);
    } else {
        let rest = list.drop_last();
        assert forall|i: int| 0 <= i < rest.len() implies is_word(#[trigger] rest[i], separator) by {
            assert(is_word(list[i], separator));
        }
        lemma_segment_words(head, rest);
        let before = head + " "@ + joined(rest, " "@);
        assert(head + " "@ + joined(list, " "@) =~= before + seq![' '] + last);
        lemma_word_behind(before, ' ', last, separator);
        let known = words(before, separator);
        assert(all[known.len() as int] == last);
        assert forall|i: int| 0 <= i < list.len() implies all.contains(#[trigger] list[i]) by {
            if i < rest.len() {
                assert(known.contains(rest[i]));
                let k = choose|k: int| 0 <= k < known.len() && known[k] == list[i];
                assert(all[k] == list[i]);
            }
        }
    }
}

proof fn lemma_without_marks(list: Seq<Seq<char>>, class: Seq<char>)
    requires
        list.contains(class),
        !class.contains('\0'),
    ensures
        without_marks(list).contains(class),
    decreases list.len(),
{
    let rest = list.drop_last();
    let k = choose|k: int| 0 <= k < list.len() && list[k] == class;
    let kept = without_marks(list);
    if k == list.len() - 1 {
        assert(kept[kept.len() - 1] == class);
    } else {
        assert(rest[k] == class);
        lemma_without_marks(rest, class);
        let before = without_marks(rest);
        let j = choose|j: int| 0 <= j < before.len() && before[j] == class;
        assert(kept[j] == class);
    }
}

/// The template ends in a static segment with these classes, as a run appends
/// it to the members that stay.
pub open spec fn ends_in_segment(template: TreeModel, list: Seq<Seq<char>>) -> bool {
    let quasis = items(template, "quasis"@);
    let expressions = items(template, "expressions"@);
    let last = expressions.len() - 1;
    &&& last >= 0
    &&& quasis.len() == expressions.len() + 1
    &&& text_field(field(quasis[last + 1], "value"@), "cooked"@) == Some(Seq::<char>::empty())
    &&& !static_member(expressions[last])
    &&& string_value(expressions[last]) == Some(" "@ + joined(list, " "@))
}

/// What is read ends in the segment.
spec fn reads_segment(template: TreeModel, found: TemplateModel, list: Seq<Seq<char>>) -> bool {
    exists|reading: ReadingModel, head: Seq<char>|
        found == #[trigger] finished(template, reading) && reading.original == #[trigger] (head + " "@ + joined(
            list,
            " "@,
        ))
}

proof fn lemma_reads_segment(
    at: SceneModel,
    template: TreeModel,
    list: Seq<Seq<char>>,
    i: int,
    reading: ReadingModel,
)
    requires
        at.batch_mode,
        ends_in_segment(template, list),
        0 <= i < items(template, "expressions"@).len(),
        ({
            let found = template_from(
                at,
                template,
                items(template, "quasis"@),
                items(template, "expressions"@),
                i,
                reading,
            );
            found is Some && (found->0).append_at is Some
        }),
    ensures
        reads_segment(
            template,
            template_from(
                at,
                template,
                items(template, "quasis"@),
                items(template, "expressions"@),
                i,
                reading,
            )->0,
            list,
        ),
    decreases items(template, "expressions"@).len() - i,
{
    let quasis = items(template, "quasis"@);
    let expressions = items(template, "expressions"@);
    let cooked = text_field(field(quasis[i], "value"@), "cooked"@)->0;
    let read = ReadingModel { value: reading.value + cooked, original: reading.original + cooked, ..reading };
    let step = after_expression(at, expressions[i], read);
    assert(step is Read);
    let next = step->Read_0;
    if i + 1 < expressions.len() {
        lemma_reads_segment(at, template, list, i + 1, next);
    } else {
        let segment = " "@ + joined(list, " "@);
        let none = Seq::<char>::empty();
        let last = ReadingModel { value: next.value + none, original: next.original + none, ..next };
        assert(next.original == read.original + segment);
        assert(template_from(at, template, quasis, expressions, i + 2, last) == Some(finished(template, last)));
        assert(template_from(at, template, quasis, expressions, i + 1, next) == Some(finished(template, last)));
        assert(last.original =~= read.original + " "@ + joined(list, " "@));
        assert(reads_segment(template, finished(template, last), list));
    }
}

/// A second run changes no template: one that ends in the segment that a first
/// run appends to it is read with all candidates of the members that stay, so
/// nothing is appended again. Only members that became convertible since then
/// are edited.
pub proof fn a_second_run_finds_its_segment(
    at: SceneModel,
    template: TreeModel,
    list: Seq<Seq<char>>,
    span: (usize, usize),
    site: Site,
    out: UsageModel,
)
    requires
        at.batch_mode,
        list.len() > 0,
        forall|i: int| 0 <= i < list.len() ==> segment_class(#[trigger] list[i]),
        ends_in_segment(template, list),
        static_template_of(at, template) matches Some(found) && found.append_at is Some && (forall|i: int|
            0 <= i < found.preserved_candidates.len() ==> list.contains(#[trigger] found.preserved_candidates[i])),
    ensures
        ({
            let found = static_template_of(at, template)->0;
            &&& has_preserved(found)
            &&& found.partial_edits.len() == 0 ==> with_template(at, found, span, site, out).edits == out.edits
            &&& with_template(at, found, span, site, out).edits == if member_clash(at, found.members, 0) is Some {
                out.edits
            } else {
                out.edits + found.partial_edits
            }
        }),
{
    let found = static_template_of(at, template)->0;
    lemma_reads_segment(at, template, list, 0, no_reading());
    let (reading, head) = choose|reading: ReadingModel, head: Seq<char>|
        found == #[trigger] finished(template, reading) && reading.original == #[trigger] (head + " "@ + joined(
            list,
            " "@,
        ));
    assert forall|i: int| 0 <= i < list.len() implies is_word(#[trigger] list[i], Separator::Whitespace) by {
        assert(segment_class(list[i]));
    }
    lemma_segment_words(head, list);
    assert forall|i: int| 0 <= i < found.preserved_candidates.len() implies found.static_classes.contains(
        #[trigger] found.preserved_candidates[i],
    ) by {
        let class = found.preserved_candidates[i];
        let k = choose|k: int| 0 <= k < list.len() && list[k] == class;
        assert(segment_class(list[k]));
        lemma_without_marks(words(reading.original, Separator::Whitespace), class);
    }
    assert(found.preserved_expression is None);
    a_second_run_appends_nothing(at, found, span, site, out);
    assert(found.partial_edits.len() == 0 ==> out.edits + found.partial_edits =~= out.edits);
}

} // verus!
