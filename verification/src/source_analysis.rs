//! Facts about JavaScript and TypeScript sources that loading proofs and Vue
//! components rest on. Comments, dead strings and type-only clauses never
//! count as loading, so the facts are read from the syntax tree and from what
//! its names are bound to.
use crate::errors::{ErrorKind, ErrorModel, MigrationError};
use crate::js_rewrite::{get_plain_template, plain_template};
use crate::jsx_extract::{first, get_first, is_text};
use crate::syntax::{
    declared, expression_from, expression_json, field, find_declared, find_referenced, flag, get, get_flag, get_inner,
    get_items, get_span, get_string, get_text, has_kind, inner, is_kind, is_static_member, items, module_at, of_kind,
    optional, optional_get_text, optional_list, optional_string, optional_text, parse_expression, parse_module,
    reads_jsx, referenced, span_of, static_member, string_value, text_field, Occurrence, SyntaxError, SyntaxErrorModel,
};
use crate::text::{copy, copy_cut, cut, is_separator, maybe, same, separates, texts, to_chars, views, Separator};
use crate::tree::{fields_model, lemma_fields_model, lemma_list_model, list_model, tree_model, Tree, TreeModel};
use vstd::prelude::*;

verus! {

// ---------------------------------------------------------------------------
// What an identifier stands for
// ---------------------------------------------------------------------------

/// What an identifier at some place of a tree is.
#[derive(Clone, Copy, PartialEq, Eq, Structural, Debug)]
pub enum Role {
    /// It refers to a binding or a global.
    Reference,
    /// It declares a binding.
    Binding,
    /// It only names something: a property, a label, a declaration.
    Name,
}

/// Nodes with a `key` that is a plain name unless it is computed.
pub open spec fn keyed(tree: TreeModel) -> bool {
    ||| of_kind(tree, "Property"@)
    ||| of_kind(tree, "MethodDefinition"@)
    ||| of_kind(tree, "PropertyDefinition"@)
    ||| of_kind(tree, "AccessorProperty"@)
    ||| of_kind(tree, "TSAbstractMethodDefinition"@)
    ||| of_kind(tree, "TSAbstractPropertyDefinition"@)
    ||| of_kind(tree, "TSAbstractAccessorProperty"@)
    ||| of_kind(tree, "TSPropertySignature"@)
    ||| of_kind(tree, "TSMethodSignature"@)
    ||| of_kind(tree, "ImportAttribute"@)
}

/// Nodes whose parts keep the role of the whole.
pub open spec fn spreads_role(tree: TreeModel) -> bool {
    ||| of_kind(tree, "ObjectPattern"@)
    ||| of_kind(tree, "ArrayPattern"@)
    ||| of_kind(tree, "RestElement"@)
    ||| of_kind(tree, "TSParameterProperty"@)
}

/// The role of an identifier in the field `name` of a node that has `role`.
pub open spec fn role_in(tree: TreeModel, role: Role, name: Seq<char>) -> Role {
    if name == "typeAnnotation"@ || name == "decorators"@ {
        Role::Reference
    } else if spreads_role(tree) {
        role
    } else if keyed(tree) && name == "key"@ {
        if flag(tree, "computed"@) {
            Role::Reference
        } else {
            Role::Name
        }
    } else if of_kind(tree, "Property"@) && name == "value"@ {
        role
    } else if of_kind(tree, "AssignmentPattern"@) && name == "left"@ {
        role
    } else if of_kind(tree, "VariableDeclarator"@) && name == "id"@ {
        Role::Binding
    } else if of_kind(tree, "CatchClause"@) && name == "param"@ {
        Role::Binding
    } else if name == "params"@ && !of_kind(tree, "TSTypeParameterInstantiation"@) {
        Role::Binding
    } else if of_kind(tree, "TSIndexSignature"@) && name == "parameters"@ {
        Role::Binding
    } else if of_kind(tree, "MemberExpression"@) && name == "property"@ {
        if flag(tree, "computed"@) {
            Role::Reference
        } else {
            Role::Name
        }
    } else if of_kind(tree, "MetaProperty"@) || of_kind(tree, "JSXNamespacedName"@) {
        Role::Name
    } else if of_kind(tree, "JSXMemberExpression"@) && name == "property"@ {
        Role::Name
    } else if of_kind(tree, "JSXAttribute"@) && name == "name"@ {
        Role::Name
    } else if of_kind(tree, "TSQualifiedName"@) && name == "right"@ {
        Role::Name
    } else if of_kind(tree, "TSTypeParameter"@) && name == "name"@ {
        Role::Name
    } else if of_kind(tree, "ExportSpecifier"@) && name == "local"@ {
        role
    } else if of_kind(tree, "ExportNamedDeclaration"@) && name == "specifiers"@ {
        if string_value(field(tree, "source"@)) is Some {
            Role::Name
        } else {
            Role::Reference
        }
    } else if name == "id"@ || name == "label"@ || name == "imported"@ || name == "exported"@ || name
        == "parameterName"@ {
        Role::Name
    } else if name == "local"@ {
        Role::Binding
    } else {
        Role::Reference
    }
}

fn is_keyed(tree: &Tree) -> (result: bool)
    ensures
        result == keyed(tree@),
{
    is_kind(tree, "Property") || is_kind(tree, "MethodDefinition") || is_kind(tree, "PropertyDefinition") || is_kind(
        tree,
        "AccessorProperty",
    ) || is_kind(tree, "TSAbstractMethodDefinition") || is_kind(tree, "TSAbstractPropertyDefinition") || is_kind(
        tree,
        "TSAbstractAccessorProperty",
    ) || is_kind(tree, "TSPropertySignature") || is_kind(tree, "TSMethodSignature") || is_kind(tree, "ImportAttribute")
}

fn does_spread_role(tree: &Tree) -> (result: bool)
    ensures
        result == spreads_role(tree@),
{
    is_kind(tree, "ObjectPattern") || is_kind(tree, "ArrayPattern") || is_kind(tree, "RestElement") || is_kind(
        tree,
        "TSParameterProperty",
    )
}

fn get_role_in(tree: &Tree, role: Role, name: &str) -> (result: Role)
    ensures
        result == role_in(tree@, role, name@),
{
    if same(name, "typeAnnotation") || same(name, "decorators") {
        Role::Reference
    } else if does_spread_role(tree) {
        role
    } else if is_keyed(tree) && same(name, "key") {
        if get_flag(tree, "computed") {
            Role::Reference
        } else {
            Role::Name
        }
    } else if is_kind(tree, "Property") && same(name, "value") {
        role
    } else if is_kind(tree, "AssignmentPattern") && same(name, "left") {
        role
    } else if is_kind(tree, "VariableDeclarator") && same(name, "id") {
        Role::Binding
    } else if is_kind(tree, "CatchClause") && same(name, "param") {
        Role::Binding
    } else if same(name, "params") && !is_kind(tree, "TSTypeParameterInstantiation") {
        Role::Binding
    } else if is_kind(tree, "TSIndexSignature") && same(name, "parameters") {
        Role::Binding
    } else if is_kind(tree, "MemberExpression") && same(name, "property") {
        if get_flag(tree, "computed") {
            Role::Reference
        } else {
            Role::Name
        }
    } else if is_kind(tree, "MetaProperty") || is_kind(tree, "JSXNamespacedName") {
        Role::Name
    } else if is_kind(tree, "JSXMemberExpression") && same(name, "property") {
        Role::Name
    } else if is_kind(tree, "JSXAttribute") && same(name, "name") {
        Role::Name
    } else if is_kind(tree, "TSQualifiedName") && same(name, "right") {
        Role::Name
    } else if is_kind(tree, "TSTypeParameter") && same(name, "name") {
        Role::Name
    } else if is_kind(tree, "ExportSpecifier") && same(name, "local") {
        role
    } else if is_kind(tree, "ExportNamedDeclaration") && same(name, "specifiers") {
        if optional_string(get(tree, "source")).is_some() {
            Role::Name
        } else {
            Role::Reference
        }
    } else if same(name, "id") || same(name, "label") || same(name, "imported") || same(name, "exported") || same(
        name,
        "parameterName",
    ) {
        Role::Name
    } else if same(name, "local") {
        Role::Binding
    } else {
        Role::Reference
    }
}

/// The node is an identifier that refers to something.
pub open spec fn refers(tree: TreeModel, role: Role) -> bool {
    role == Role::Reference && (of_kind(tree, "Identifier"@) || of_kind(tree, "JSXIdentifier"@))
}

fn does_refer(tree: &Tree, role: Role) -> (result: bool)
    ensures
        result == refers(tree@, role),
{
    role == Role::Reference && (is_kind(tree, "Identifier") || is_kind(tree, "JSXIdentifier"))
}

/// Some identifier in the tree refers to what is called `name`.
pub open spec fn mentions(tree: TreeModel, role: Role, name: Seq<char>) -> bool
    decreases tree, 0nat,
{
    match tree {
        TreeModel::List(list) => mentions_items(list, list.len(), role, name),
        TreeModel::Node(fields) => (refers(tree, role) && text_field(tree, "name"@) == Some(name)) || mentions_fields(
            tree,
            fields,
            fields.len(),
            role,
            name,
        ),
        _ => false,
    }
}

pub open spec fn mentions_items(list: Seq<TreeModel>, n: nat, role: Role, name: Seq<char>) -> bool
    decreases list, n,
{
    if n == 0 || n > list.len() {
        false
    } else {
        mentions_items(list, (n - 1) as nat, role, name) || mentions(list[n - 1], role, name)
    }
}

pub open spec fn mentions_fields(
    tree: TreeModel,
    fields: Seq<(Seq<char>, TreeModel)>,
    n: nat,
    role: Role,
    name: Seq<char>,
) -> bool
    decreases fields, n,
{
    if n == 0 || n > fields.len() {
        false
    } else {
        mentions_fields(tree, fields, (n - 1) as nat, role, name) || mentions(
            fields[n - 1].1,
            role_in(tree, role, fields[n - 1].0),
            name,
        )
    }
}

/// Whether some identifier in the tree refers to what is called `name`.
pub fn does_mention(tree: &Tree, role: Role, name: &str) -> (result: bool)
    ensures
        result == mentions(tree@, role, name@),
    decreases tree,
{
    match tree {
        Tree::List(list) => {
            proof {
                lemma_list_model(list@, list@.len());
            }
            let ghost models = list_model(list@, list@.len());
            let mut found = false;
            let mut n: usize = 0;
            while n < list.len()
                invariant
                    *tree == Tree::List(*list),
                    n <= list@.len(),
                    models.len() == list@.len(),
                    forall|k: int| 0 <= k < list@.len() ==> #[trigger] models[k] == tree_model(list@[k]),
                    found == mentions_items(models, n as nat, role, name@),
                decreases list.len() - n,
            {
                assert(models[n as int] == tree_model(list@[n as int]));
                assert(decreases_to!(list@ => list@[n as int]));
                assert(decreases_to!(*tree => (*tree)->List_0));
                assert(decreases_to!(*list => list@));
                let here = does_mention(&list[n], role, name);
                found = found || here;
                n += 1;
            }
            found
        },
        Tree::Node(fields) => {
            proof {
                lemma_fields_model(fields@, fields@.len());
            }
            let ghost models = fields_model(fields@, fields@.len());
            let mut found = false;
            let mut n: usize = 0;
            while n < fields.len()
                invariant
                    *tree == Tree::Node(*fields),
                    n <= fields@.len(),
                    models.len() == fields@.len(),
                    forall|k: int|
                        0 <= k < fields@.len() ==> #[trigger] models[k] == (fields@[k].0@, tree_model(fields@[k].1)),
                    found == mentions_fields(tree@, models, n as nat, role, name@),
                decreases fields.len() - n,
            {
                assert(models[n as int] == (fields@[n as int].0@, tree_model(fields@[n as int].1)));
                assert(decreases_to!(fields@ => fields@[n as int]));
                assert(decreases_to!(fields@[n as int] => fields@[n as int].1));
                assert(decreases_to!(*tree => (*tree)->Node_0));
                assert(decreases_to!(*fields => fields@));
                let inside = get_role_in(tree, role, fields[n].0.as_str());
                let here = does_mention(&fields[n].1, inside, name);
                found = found || here;
                n += 1;
            }
            (does_refer(tree, role) && is_text(get_text(tree, "name"), name)) || found
        },
        _ => false,
    }
}

// ---------------------------------------------------------------------------
// Template expressions
// ---------------------------------------------------------------------------

/// What a bound class expression of a Vue template says.
#[derive(Debug)]
pub struct ExpressionAnalysis {
    /// The text that the expression always is.
    pub static_string: Option<String>,
    /// The class of a plain `$style.name`.
    pub vue_module_member: Option<String>,
    /// The CSS Module is used somewhere in the expression.
    pub uses_css_module: bool,
}

/// The model of an [`ExpressionAnalysis`].
pub struct ExpressionModel {
    pub static_string: Option<Seq<char>>,
    pub vue_module_member: Option<Seq<char>>,
    pub uses_css_module: bool,
}

impl View for ExpressionAnalysis {
    type V = ExpressionModel;

    open spec fn view(&self) -> ExpressionModel {
        ExpressionModel {
            static_string: maybe(self.static_string),
            vue_module_member: maybe(self.vue_module_member),
            uses_css_module: self.uses_css_module,
        }
    }
}

/// The text of a string literal or of a template without expressions.
pub open spec fn literal_text(tree: TreeModel) -> Option<Seq<char>> {
    if of_kind(tree, "Literal"@) {
        string_value(tree)
    } else {
        plain_template(tree)
    }
}

fn get_literal_text<'a>(tree: &'a Tree) -> (result: Option<&'a String>)
    ensures
        optional_text(result) == literal_text(tree@),
{
    if is_kind(tree, "Literal") {
        get_string(tree)
    } else {
        get_plain_template(tree)
    }
}

/// The tree is an identifier called `name`.
pub open spec fn called(tree: TreeModel, name: Seq<char>) -> bool {
    of_kind(tree, "Identifier"@) && text_field(tree, "name"@) == Some(name)
}

fn is_called(tree: Option<&Tree>, name: &str) -> (result: bool)
    ensures
        result == called(optional(tree), name@),
{
    has_kind(tree, "Identifier") && is_text(optional_get_text(tree, "name"), name)
}

/// What an expression's tree says.
pub open spec fn expression_facts(tree: TreeModel) -> ExpressionModel {
    ExpressionModel {
        static_string: literal_text(tree),
        vue_module_member: if static_member(tree) && called(field(tree, "object"@), "$style"@) {
            text_field(field(tree, "property"@), "name"@)
        } else {
            None
        },
        uses_css_module: mentions(tree, Role::Reference, "$style"@),
    }
}

fn copy_optional(text: Option<&String>) -> (result: Option<String>)
    ensures
        maybe(result) == optional_text(text),
{
    match text {
        Some(text) => Some(copy(text.as_str())),
        None => None,
    }
}

/// Reads the facts off an expression's tree.
pub fn analyze_expression(tree: &Tree) -> (result: ExpressionAnalysis)
    ensures
        result@ == expression_facts(tree@),
{
    ExpressionAnalysis {
        static_string: copy_optional(get_literal_text(tree)),
        vue_module_member: if is_static_member(tree) && is_called(get(tree, "object"), "$style") {
            copy_optional(optional_get_text(get(tree, "property"), "name"))
        } else {
            None
        },
        uses_css_module: does_mention(tree, Role::Reference, "$style"),
    }
}

/// The failure of an expression that was not read.
pub open spec fn expression_error(path: Seq<char>, error: SyntaxErrorModel) -> ErrorModel {
    match error {
        SyntaxErrorModel::Unsupported(text) => ErrorModel { kind: ErrorKind::UnsupportedSource, message: text },
        SyntaxErrorModel::Parse(text) | SyntaxErrorModel::Analyze(text) => ErrorModel {
            kind: ErrorKind::SourceParse,
            message: "Failed to parse "@ + path + ": "@ + text,
        },
    }
}

/// The facts about the bound expression `source` in the file at `path`.
pub fn expression_analysis(path: &str, source: &str) -> (result: Result<ExpressionAnalysis, MigrationError>)
    ensures
        match expression_from(expression_json(path@, source@, reads_jsx(path@))) {
            Ok(tree) => result matches Ok(analysis) && analysis@ == expression_facts(tree),
            Err(model) => result matches Err(error) && error@ == expression_error(path@, model),
        },
{
    match parse_expression(path, source) {
        Ok(tree) => Ok(analyze_expression(&tree)),
        Err(SyntaxError::Unsupported(text)) => Err(MigrationError::new(ErrorKind::UnsupportedSource, text)),
        Err(SyntaxError::Parse(text)) | Err(SyntaxError::Analyze(text)) => {
            let mut message = "Failed to parse ".to_owned();
            message.append(path);
            message.append(": ");
            message.append(text.as_str());
            Err(MigrationError::new(ErrorKind::SourceParse, message))
        },
    }
}

// ---------------------------------------------------------------------------
// Modules
// ---------------------------------------------------------------------------

/// A module that a source names.
#[derive(Debug)]
pub struct SourceImport {
    pub specifier: String,
    /// True for `import type` and `export type` clauses and for clauses whose
    /// specifiers are all inline `type` entries: erased at runtime, they never
    /// load stylesheets.
    pub type_only: bool,
    /// True for `import()` expressions and `require()` calls, which may sit
    /// behind control flow, and for imports with attributes or a phase, which
    /// build a stylesheet object without applying it.
    pub dynamic: bool,
}

/// The model of a [`SourceImport`].
pub struct SourceImportModel {
    pub specifier: Seq<char>,
    pub type_only: bool,
    pub dynamic: bool,
}

impl View for SourceImport {
    type V = SourceImportModel;

    open spec fn view(&self) -> SourceImportModel {
        SourceImportModel { specifier: self.specifier@, type_only: self.type_only, dynamic: self.dynamic }
    }
}

/// A default import: the module and the local name.
#[derive(Debug)]
pub struct DefaultImportBinding {
    pub source: String,
    pub local: String,
}

impl View for DefaultImportBinding {
    type V = (Seq<char>, Seq<char>);

    open spec fn view(&self) -> (Seq<char>, Seq<char>) {
        (self.source@, self.local@)
    }
}

/// The facts about a module.
#[derive(Debug)]
pub struct SourceAnalysis {
    pub imports: Vec<SourceImport>,
    pub static_imports: Vec<String>,
    pub default_imports: Vec<DefaultImportBinding>,
    pub vue_glob_patterns: Vec<String>,
    pub vue_glob_unverifiable: bool,
    pub has_dynamic_import: bool,
    pub has_vue_fallthrough_macro: bool,
    pub uses_css_module: bool,
}

/// The model of a [`SourceAnalysis`].
pub struct AnalysisModel {
    pub imports: Seq<SourceImportModel>,
    pub static_imports: Seq<Seq<char>>,
    pub default_imports: Seq<(Seq<char>, Seq<char>)>,
    pub vue_glob_patterns: Seq<Seq<char>>,
    pub vue_glob_unverifiable: bool,
    pub has_dynamic_import: bool,
    pub has_vue_fallthrough_macro: bool,
    pub uses_css_module: bool,
}

impl View for SourceAnalysis {
    type V = AnalysisModel;

    open spec fn view(&self) -> AnalysisModel {
        AnalysisModel {
            imports: views(self.imports@),
            static_imports: texts(self.static_imports@),
            default_imports: views(self.default_imports@),
            vue_glob_patterns: texts(self.vue_glob_patterns@),
            vue_glob_unverifiable: self.vue_glob_unverifiable,
            has_dynamic_import: self.has_dynamic_import,
            has_vue_fallthrough_macro: self.has_vue_fallthrough_macro,
            uses_css_module: self.uses_css_module,
        }
    }
}

/// What is known while a module is read: the symbols of `useCssModule`, those
/// of the whole of Vue, those that hold `this`, and the facts so far.
pub struct Facts {
    pub functions: Vec<usize>,
    pub namespaces: Vec<usize>,
    pub aliases: Vec<usize>,
    pub analysis: SourceAnalysis,
}

/// The model of [`Facts`].
pub struct FactsModel {
    pub functions: Seq<usize>,
    pub namespaces: Seq<usize>,
    pub aliases: Seq<usize>,
    pub analysis: AnalysisModel,
}

impl View for Facts {
    type V = FactsModel;

    open spec fn view(&self) -> FactsModel {
        FactsModel {
            functions: self.functions@,
            namespaces: self.namespaces@,
            aliases: self.aliases@,
            analysis: self.analysis@,
        }
    }
}

impl FactsModel {
    /// The facts with one more module named.
    pub open spec fn naming(self, specifier: Seq<char>, type_only: bool, dynamic: bool) -> FactsModel {
        FactsModel {
            analysis: AnalysisModel {
                imports: self.analysis.imports.push(SourceImportModel { specifier, type_only, dynamic }),
                ..self.analysis
            },
            ..self
        }
    }

    /// The facts when the CSS Module is used.
    pub open spec fn using(self, used: bool) -> FactsModel {
        FactsModel {
            analysis: AnalysisModel { uses_css_module: self.analysis.uses_css_module || used, ..self.analysis },
            ..self
        }
    }
}

/// The source text and what its identifiers are bound to.
pub struct SourceModel {
    pub text: Seq<char>,
    pub symbols: Seq<Occurrence>,
}

/// A source text and what its identifiers are bound to.
struct Source<'a> {
    text: &'a str,
    symbols: &'a Vec<Occurrence>,
}

impl<'a> View for Source<'a> {
    type V = SourceModel;

    closed spec fn view(&self) -> SourceModel {
        SourceModel { text: self.text@, symbols: self.symbols@ }
    }
}

/// The symbol is one of the list.
pub open spec fn one_of(symbol: Option<usize>, list: Seq<usize>) -> bool {
    symbol is Some && list.contains(symbol->0)
}

fn is_one_of(symbol: Option<usize>, list: &Vec<usize>) -> (result: bool)
    ensures
        result == one_of(symbol, list@),
{
    let wanted = match symbol {
        None => {
            return false;
        },
        Some(wanted) => wanted,
    };
    let mut i: usize = 0;
    while i < list.len()
        invariant
            i <= list@.len(),
            symbol == Some(wanted),
            forall|j: int| 0 <= j < i ==> list@[j] != wanted,
        decreases list.len() - i,
    {
        if list[i] == wanted {
            return true;
        }
        i += 1;
    }
    false
}

/// The identifier refers to a symbol of the list.
pub open spec fn identifies(symbols: Seq<Occurrence>, tree: TreeModel, list: Seq<usize>) -> bool {
    of_kind(tree, "Identifier"@) && one_of(referenced(symbols, tree), list)
}

fn does_identify(symbols: &Vec<Occurrence>, tree: Option<&Tree>, list: &Vec<usize>) -> (result: bool)
    ensures
        result == identifies(symbols@, optional(tree), list@),
{
    match tree {
        Some(tree) => is_kind(tree, "Identifier") && is_one_of(find_referenced(symbols, tree), list),
        None => false,
    }
}

/// The expression is `this`, or a variable that holds it.
pub open spec fn this_alias(symbols: Seq<Occurrence>, tree: TreeModel, aliases: Seq<usize>) -> bool {
    of_kind(inner(tree), "ThisExpression"@) || identifies(symbols, inner(tree), aliases)
}

fn is_this_alias(symbols: &Vec<Occurrence>, tree: Option<&Tree>, aliases: &Vec<usize>) -> (result: bool)
    ensures
        result == this_alias(symbols@, optional(tree), aliases@),
{
    match tree {
        Some(tree) => {
            let inside = get_inner(tree);
            is_kind(inside, "ThisExpression") || does_identify(symbols, Some(inside), aliases)
        },
        None => {
            assert(inner(TreeModel::Null) == TreeModel::Null);
            false
        },
    }
}

// Imports

/// JavaScript's blanks between tokens.
pub open spec fn js_blank(c: char) -> bool {
    separates(Separator::Whitespace, c) || c == '\u{feff}'
}

pub open spec fn ends_line(c: char) -> bool {
    c == '\n' || c == '\r' || c == '\u{2028}' || c == '\u{2029}'
}

/// Where the line ends that `i` is on.
pub open spec fn line_end(text: Seq<char>, i: int) -> int
    decreases text.len() - i,
{
    if i < 0 || i >= text.len() || ends_line(text[i]) {
        i
    } else {
        line_end(text, i + 1)
    }
}

/// Where the block comment ends that `i` is in.
pub open spec fn comment_end(text: Seq<char>, i: int) -> int
    decreases text.len() - i,
{
    if i < 0 || i + 1 >= text.len() {
        text.len() as int
    } else if text[i] == '*' && text[i + 1] == '/' {
        i + 2
    } else {
        comment_end(text, i + 1)
    }
}

/// Where the next token starts, from `i` on.
pub open spec fn token_start(text: Seq<char>, i: int) -> int
    decreases text.len() - i,
{
    if i < 0 || i >= text.len() {
        i
    } else if js_blank(text[i]) {
        token_start(text, i + 1)
    } else if text[i] == '/' && i + 1 < text.len() && text[i + 1] == '/' {
        if i < line_end(text, i) <= text.len() {
            token_start(text, line_end(text, i))
        } else {
            i
        }
    } else if text[i] == '/' && i + 1 < text.len() && text[i + 1] == '*' {
        if i < comment_end(text, i + 2) <= text.len() {
            token_start(text, comment_end(text, i + 2))
        } else {
            i
        }
    } else {
        i
    }
}

fn find_line_end(text: &Vec<char>, from: usize) -> (result: usize)
    requires
        from <= text@.len(),
    ensures
        result == line_end(text@, from as int),
        from <= result <= text@.len(),
{
    let mut i = from;
    while i < text.len() && !(text[i] == '\n' || text[i] == '\r' || text[i] == '\u{2028}' || text[i] == '\u{2029}')
        invariant
            from <= i <= text@.len(),
            line_end(text@, i as int) == line_end(text@, from as int),
        decreases text.len() - i,
    {
        i += 1;
    }
    i
}

fn find_comment_end(text: &Vec<char>, from: usize) -> (result: usize)
    requires
        from <= text@.len(),
    ensures
        result == comment_end(text@, from as int),
        from <= result <= text@.len(),
{
    let mut i = from;
    while i < text.len() && text.len() - i > 1
        invariant
            from <= i <= text@.len(),
            comment_end(text@, i as int) == comment_end(text@, from as int),
        decreases text.len() - i,
    {
        if text[i] == '*' && text[i + 1] == '/' {
            return i + 2;
        }
        i += 1;
    }
    text.len()
}

fn find_token(text: &Vec<char>) -> (result: usize)
    ensures
        result == token_start(text@, 0),
        result <= text@.len(),
{
    let mut i: usize = 0;
    while i < text.len()
        invariant
            i <= text@.len(),
            token_start(text@, i as int) == token_start(text@, 0),
        decreases text.len() - i,
    {
        if is_separator(Separator::Whitespace, text[i]) || text[i] == '\u{feff}' {
            i += 1;
        } else if text[i] == '/' && text.len() - i > 1 && text[i + 1] == '/' {
            let next = find_line_end(text, i);
            if next <= i {
                return i;
            }
            i = next;
        } else if text[i] == '/' && text.len() - i > 1 && text[i + 1] == '*' {
            let next = find_comment_end(text, i + 2);
            if next <= i {
                return i;
            }
            i = next;
        } else {
            return i;
        }
    }
    i
}

/// An attribute clause, empty or not, stands behind the module's name.
pub open spec fn has_clause(text: Seq<char>, tree: TreeModel) -> bool {
    match cut(text, span_of(field(tree, "source"@)).1 as int, span_of(tree).1 as int) {
        None => false,
        Some(rest) => {
            let start = token_start(rest, 0);
            start < rest.len() && rest[start] != ';'
        },
    }
}

fn find_clause(text: &str, tree: &Tree) -> (result: bool)
    ensures
        result == has_clause(text@, tree@),
{
    let from = match get(tree, "source") {
        Some(source) => get_span(source).1,
        None => {
            assert(span_of(TreeModel::Null) == (0usize, 0usize));
            0
        },
    };
    match copy_cut(text, from, get_span(tree).1) {
        None => false,
        Some(rest) => {
            let chars = to_chars(rest.as_str());
            let start = find_token(&chars);
            start < chars.len() && chars[start] != ';'
        },
    }
}

/// The specifier brings in a type only.
pub open spec fn type_specifier(specifier: TreeModel) -> bool {
    (of_kind(specifier, "ImportSpecifier"@) && text_field(specifier, "importKind"@) == Some("type"@)) || (of_kind(
        specifier,
        "ExportSpecifier"@,
    ) && text_field(specifier, "exportKind"@) == Some("type"@))
}

/// There are specifiers, and each brings in a type only.
pub open spec fn only_types(specifiers: Seq<TreeModel>) -> bool {
    specifiers.len() > 0 && forall|i: int| 0 <= i < specifiers.len() ==> type_specifier(#[trigger] specifiers[i])
}

fn has_only_types(specifiers: Option<&Vec<Tree>>) -> (result: bool)
    ensures
        result == only_types(optional_list(specifiers)),
{
    let list = match specifiers {
        None => {
            return false;
        },
        Some(list) => list,
    };
    proof {
        lemma_list_model(list@, list@.len());
    }
    let ghost models = list_model(list@, list@.len());
    let mut i: usize = 0;
    while i < list.len()
        invariant
            i <= list@.len(),
            specifiers == Some(list),
            models == list_model(list@, list@.len()),
            models.len() == list@.len(),
            forall|k: int| 0 <= k < list@.len() ==> #[trigger] models[k] == tree_model(list@[k]),
            forall|j: int| 0 <= j < i ==> type_specifier(#[trigger] models[j]),
        decreases list.len() - i,
    {
        assert(models[i as int] == tree_model(list@[i as int]));
        let specifier = &list[i];
        let typed = (is_kind(specifier, "ImportSpecifier") && is_text(get_text(specifier, "importKind"), "type")) || (
        is_kind(specifier, "ExportSpecifier") && is_text(get_text(specifier, "exportKind"), "type"));
        if !typed {
            assert(!type_specifier(models[i as int]));
            return false;
        }
        i += 1;
    }
    list.len() > 0
}

/// The module that a declaration names.
pub open spec fn source_of(tree: TreeModel) -> Seq<char> {
    match string_value(field(tree, "source"@)) {
        Some(text) => text,
        None => seq![],
    }
}

fn get_source(tree: &Tree) -> (result: String)
    ensures
        result@ == source_of(tree@),
{
    match optional_string(get(tree, "source")) {
        Some(text) => copy(text.as_str()),
        None => String::new(),
    }
}

/// The default bindings among the first `n` specifiers.
pub open spec fn default_bindings(source: Seq<char>, specifiers: Seq<TreeModel>, n: int) -> Seq<(Seq<char>, Seq<char>)>
    decreases n,
{
    if n <= 0 {
        seq![]
    } else {
        let before = default_bindings(source, specifiers, n - 1);
        if of_kind(specifiers[n - 1], "ImportDefaultSpecifier"@) {
            match text_field(field(specifiers[n - 1], "local"@), "name"@) {
                Some(local) => before.push((source, local)),
                None => before,
            }
        } else {
            before
        }
    }
}

/// What an import declaration adds.
pub open spec fn after_declaration(at: SourceModel, tree: TreeModel, facts: FactsModel) -> FactsModel {
    let specifiers = items(tree, "specifiers"@);
    let source = source_of(tree);
    let type_only = text_field(tree, "importKind"@) == Some("type"@) || only_types(specifiers);
    let phased = text_field(tree, "phase"@) is Some;
    let named = facts.naming(source, type_only, has_clause(at.text, tree) || phased);
    if type_only || phased {
        named
    } else {
        FactsModel {
            analysis: AnalysisModel {
                static_imports: named.analysis.static_imports.push(source),
                default_imports: named.analysis.default_imports + default_bindings(
                    source,
                    specifiers,
                    specifiers.len() as int,
                ),
                ..named.analysis
            },
            ..named
        }
    }
}

fn name_import(facts: &mut Facts, specifier: String, type_only: bool, dynamic: bool)
    ensures
        final(facts)@ == old(facts)@.naming(specifier@, type_only, dynamic),
{
    let ghost before = facts.analysis.imports@;
    let ghost model = SourceImportModel { specifier: specifier@, type_only, dynamic };
    facts.analysis.imports.push(SourceImport { specifier, type_only, dynamic });
    assert(views(facts.analysis.imports@) =~= views(before).push(model));
}

fn push_default_bindings(source: &str, specifiers: &Vec<Tree>, found: &mut Vec<DefaultImportBinding>)
    ensures
        views(final(found)@) == views(old(found)@) + default_bindings(
            source@,
            list_model(specifiers@, specifiers@.len()),
            specifiers@.len() as int,
        ),
{
    proof {
        lemma_list_model(specifiers@, specifiers@.len());
    }
    let ghost models = list_model(specifiers@, specifiers@.len());
    let ghost start = views(found@);
    assert(start + default_bindings(source@, models, 0) =~= start);
    let mut n: usize = 0;
    while n < specifiers.len()
        invariant
            n <= specifiers@.len(),
            models.len() == specifiers@.len(),
            forall|k: int| 0 <= k < specifiers@.len() ==> #[trigger] models[k] == tree_model(specifiers@[k]),
            views(found@) == start + default_bindings(source@, models, n as int),
        decreases specifiers.len() - n,
    {
        assert(models[n as int] == tree_model(specifiers@[n as int]));
        let specifier = &specifiers[n];
        if is_kind(specifier, "ImportDefaultSpecifier") {
            if let Some(local) = optional_get_text(get(specifier, "local"), "name") {
                let ghost before = found@;
                found.push(DefaultImportBinding { source: copy(source), local: copy(local.as_str()) });
                assert(views(found@) =~= views(before).push((source@, local@)));
            }
        }
        n += 1;
        assert(views(found@) =~= start + default_bindings(source@, models, n as int));
    }
}

fn note_declaration<'a>(at: &Source<'a>, tree: &Tree, facts: &mut Facts)
    ensures
        final(facts)@ == after_declaration(at@, tree@, old(facts)@),
{
    let specifiers = get_items(tree, "specifiers");
    let source = get_source(tree);
    let type_only = is_text(get_text(tree, "importKind"), "type") || has_only_types(specifiers);
    let phased = get_text(tree, "phase").is_some();
    let attributed = find_clause(at.text, tree);
    name_import(facts, copy(source.as_str()), type_only, attributed || phased);
    if type_only || phased {
        return;
    }
    let ghost before = facts.analysis.static_imports@;
    facts.analysis.static_imports.push(copy(source.as_str()));
    assert(texts(facts.analysis.static_imports@) =~= texts(before).push(source@));
    let ghost known = views(facts.analysis.default_imports@);
    match specifiers {
        Some(specifiers) => {
            proof {
                lemma_list_model(specifiers@, specifiers@.len());
            }
            push_default_bindings(source.as_str(), specifiers, &mut facts.analysis.default_imports);
        },
        None => {
            assert(known + default_bindings(source@, Seq::empty(), 0) =~= known);
        },
    }
}

// Bindings

/// The property's name is `name`, written plainly or as a string.
pub open spec fn key_named(property: TreeModel, name: Seq<char>) -> bool {
    let key = field(property, "key"@);
    of_kind(property, "Property"@) && if of_kind(key, "Identifier"@) {
        !flag(property, "computed"@) && text_field(key, "name"@) == Some(name)
    } else {
        literal_text(key) == Some(name)
    }
}

fn is_key_named(property: &Tree, name: &str) -> (result: bool)
    ensures
        result == key_named(property@, name@),
{
    if !is_kind(property, "Property") {
        return false;
    }
    match get(property, "key") {
        None => {
            assert(literal_text(TreeModel::Null) is None);
            false
        },
        Some(key) => if is_kind(key, "Identifier") {
            !get_flag(property, "computed") && is_text(get_text(key, "name"), name)
        } else {
            is_text(get_literal_text(key), name)
        },
    }
}

/// The symbols that the first `n` properties of a pattern bind `useCssModule` to.
pub open spec fn taken_functions(symbols: Seq<Occurrence>, properties: Seq<TreeModel>, n: int) -> Seq<usize>
    decreases n,
{
    if n <= 0 {
        seq![]
    } else {
        let before = taken_functions(symbols, properties, n - 1);
        let value = field(properties[n - 1], "value"@);
        if key_named(properties[n - 1], "useCssModule"@) && of_kind(value, "Identifier"@) && declared(symbols, value)
            is Some {
            before.push(declared(symbols, value)->0)
        } else {
            before
        }
    }
}

/// Some property of a pattern takes `name`.
pub open spec fn takes(properties: Seq<TreeModel>, name: Seq<char>) -> bool {
    exists|i: int| 0 <= i < properties.len() && key_named(#[trigger] properties[i], name)
}

fn push_taken_functions(symbols: &Vec<Occurrence>, properties: &Vec<Tree>, found: &mut Vec<usize>)
    ensures
        final(found)@ == old(found)@ + taken_functions(
            symbols@,
            list_model(properties@, properties@.len()),
            properties@.len() as int,
        ),
{
    proof {
        lemma_list_model(properties@, properties@.len());
    }
    let ghost models = list_model(properties@, properties@.len());
    let ghost start = found@;
    assert(start + taken_functions(symbols@, models, 0) =~= start);
    let mut n: usize = 0;
    while n < properties.len()
        invariant
            n <= properties@.len(),
            models.len() == properties@.len(),
            forall|k: int| 0 <= k < properties@.len() ==> #[trigger] models[k] == tree_model(properties@[k]),
            found@ == start + taken_functions(symbols@, models, n as int),
        decreases properties.len() - n,
    {
        assert(models[n as int] == tree_model(properties@[n as int]));
        let property = &properties[n];
        if is_key_named(property, "useCssModule") {
            if let Some(value) = get(property, "value") {
                if is_kind(value, "Identifier") {
                    if let Some(symbol) = find_declared(symbols, value) {
                        found.push(symbol);
                    }
                }
            }
        }
        n += 1;
        assert(found@ =~= start + taken_functions(symbols@, models, n as int));
    }
}

fn does_take(properties: &Vec<Tree>, name: &str) -> (result: bool)
    ensures
        result == takes(list_model(properties@, properties@.len()), name@),
{
    proof {
        lemma_list_model(properties@, properties@.len());
    }
    let ghost models = list_model(properties@, properties@.len());
    let mut i: usize = 0;
    while i < properties.len()
        invariant
            i <= properties@.len(),
            models == list_model(properties@, properties@.len()),
            models.len() == properties@.len(),
            forall|k: int| 0 <= k < properties@.len() ==> #[trigger] models[k] == tree_model(properties@[k]),
            forall|j: int| 0 <= j < i ==> !key_named(#[trigger] models[j], name@),
        decreases properties.len() - i,
    {
        assert(models[i as int] == tree_model(properties@[i as int]));
        if is_key_named(&properties[i], name) {
            assert(key_named(models[i as int], name@));
            return true;
        }
        i += 1;
    }
    false
}

/// What a variable declarator adds.
pub open spec fn after_declarator(at: SourceModel, tree: TreeModel, facts: FactsModel) -> FactsModel {
    let init = field(tree, "init"@);
    let id = field(tree, "id"@);
    let properties = items(id, "properties"@);
    let taken = if identifies(at.symbols, init, facts.namespaces) && of_kind(id, "ObjectPattern"@) {
        FactsModel {
            functions: facts.functions + taken_functions(at.symbols, properties, properties.len() as int),
            ..facts
        }
    } else {
        facts
    };
    if !this_alias(at.symbols, init, facts.aliases) {
        taken
    } else if of_kind(id, "Identifier"@) {
        match declared(at.symbols, id) {
            Some(symbol) => FactsModel { aliases: taken.aliases.push(symbol), ..taken },
            None => taken,
        }
    } else {
        taken.using(of_kind(id, "ObjectPattern"@) && takes(properties, "$style"@))
    }
}

fn note_use(facts: &mut Facts, used: bool)
    ensures
        final(facts)@ == old(facts)@.using(used),
{
    if used {
        facts.analysis.uses_css_module = true;
    }
}

fn note_declarator<'a>(at: &Source<'a>, tree: &Tree, facts: &mut Facts)
    ensures
        final(facts)@ == after_declarator(at@, tree@, old(facts)@),
{
    let init = get(tree, "init");
    let id = match get(tree, "id") {
        Some(id) => id,
        None => {
            assert(facts@.using(false) == facts@);
            return;
        },
    };
    let from_vue = does_identify(at.symbols, init, &facts.namespaces);
    let holds_this = is_this_alias(at.symbols, init, &facts.aliases);
    let is_pattern = is_kind(id, "ObjectPattern");
    let mut takes_style = false;
    match get_items(id, "properties") {
        Some(properties) => {
            proof {
                lemma_list_model(properties@, properties@.len());
            }
            if from_vue && is_pattern {
                push_taken_functions(at.symbols, properties, &mut facts.functions);
            }
            takes_style = does_take(properties, "$style");
        },
        None => {
            assert(facts.functions@ + taken_functions(at.symbols@, Seq::empty(), 0) =~= facts.functions@);
        },
    }
    if holds_this {
        if is_kind(id, "Identifier") {
            if let Some(symbol) = find_declared(at.symbols, id) {
                facts.aliases.push(symbol);
            }
        } else {
            note_use(facts, is_pattern && takes_style);
        }
    }
}

// Calls

/// The patterns that the first `n` items of a glob list give.
pub open spec fn listed_patterns(list: Seq<TreeModel>, n: int) -> Seq<Seq<char>>
    decreases n,
{
    if n <= 0 {
        seq![]
    } else {
        match literal_text(list[n - 1]) {
            Some(text) => listed_patterns(list, n - 1).push(text),
            None => listed_patterns(list, n - 1),
        }
    }
}

/// The patterns that a glob argument gives.
pub open spec fn glob_patterns(tree: TreeModel) -> Seq<Seq<char>> {
    if of_kind(tree, "ArrayExpression"@) {
        let list = items(tree, "elements"@);
        listed_patterns(list, list.len() as int)
    } else {
        match literal_text(tree) {
            Some(text) => seq![text],
            None => seq![],
        }
    }
}

/// Every pattern of a glob argument is known.
pub open spec fn glob_readable(tree: TreeModel) -> bool {
    if of_kind(tree, "ArrayExpression"@) {
        let list = items(tree, "elements"@);
        forall|i: int| 0 <= i < list.len() ==> literal_text(#[trigger] list[i]) is Some
    } else {
        literal_text(tree) is Some
    }
}

fn collect_patterns(list: &Vec<Tree>, found: &mut Vec<String>) -> (readable: bool)
    ensures
        texts(final(found)@) == texts(old(found)@) + listed_patterns(
            list_model(list@, list@.len()),
            list@.len() as int,
        ),
        readable == (forall|i: int|
            0 <= i < list@.len() ==> literal_text(#[trigger] list_model(list@, list@.len())[i]) is Some),
{
    proof {
        lemma_list_model(list@, list@.len());
    }
    let ghost models = list_model(list@, list@.len());
    let ghost start = texts(found@);
    assert(start + listed_patterns(models, 0) =~= start);
    let mut readable = true;
    let mut n: usize = 0;
    while n < list.len()
        invariant
            n <= list@.len(),
            models == list_model(list@, list@.len()),
            models.len() == list@.len(),
            forall|k: int| 0 <= k < list@.len() ==> #[trigger] models[k] == tree_model(list@[k]),
            texts(found@) == start + listed_patterns(models, n as int),
            readable == (forall|j: int| 0 <= j < n ==> literal_text(#[trigger] models[j]) is Some),
        decreases list.len() - n,
    {
        assert(models[n as int] == tree_model(list@[n as int]));
        match get_literal_text(&list[n]) {
            Some(text) => {
                let ghost before = found@;
                found.push(copy(text.as_str()));
                assert(texts(found@) =~= texts(before).push(text@));
            },
            None => {
                readable = false;
                assert(literal_text(models[n as int]) is None);
            },
        }
        n += 1;
        assert(texts(found@) =~= start + listed_patterns(models, n as int));
    }
    readable
}

fn collect_glob_argument(tree: &Tree, found: &mut Vec<String>) -> (readable: bool)
    ensures
        texts(final(found)@) == texts(old(found)@) + glob_patterns(tree@),
        readable == glob_readable(tree@),
{
    if is_kind(tree, "ArrayExpression") {
        match get_items(tree, "elements") {
            Some(list) => {
                proof {
                    lemma_list_model(list@, list@.len());
                }
                collect_patterns(list, found)
            },
            None => {
                assert(texts(found@) + listed_patterns(Seq::empty(), 0) =~= texts(found@));
                true
            },
        }
    } else {
        match get_literal_text(tree) {
            Some(text) => {
                let ghost before = found@;
                found.push(copy(text.as_str()));
                assert(texts(found@) =~= texts(before) + seq![text@]);
                true
            },
            None => {
                assert(texts(found@) + Seq::<Seq<char>>::empty() =~= texts(found@));
                false
            },
        }
    }
}

/// `import.meta`.
pub open spec fn import_meta(tree: TreeModel) -> bool {
    of_kind(tree, "MetaProperty"@) && text_field(field(tree, "meta"@), "name"@) == Some("import"@)
}

fn is_import_meta(tree: Option<&Tree>) -> (result: bool)
    ensures
        result == import_meta(optional(tree)),
{
    match tree {
        Some(tree) => is_kind(tree, "MetaProperty") && is_text(optional_get_text(get(tree, "meta"), "name"), "import"),
        None => false,
    }
}

/// The name of the static member `tree`.
pub open spec fn member_name(tree: TreeModel) -> Option<Seq<char>> {
    if static_member(tree) {
        text_field(field(tree, "property"@), "name"@)
    } else {
        None
    }
}

fn is_member_named(tree: Option<&Tree>, name: &str) -> (result: bool)
    ensures
        result == (member_name(optional(tree)) == Some(name@)),
{
    match tree {
        Some(tree) => is_static_member(tree) && is_text(optional_get_text(get(tree, "property"), "name"), name),
        None => false,
    }
}

/// What a glob call adds.
pub open spec fn after_glob(tree: TreeModel, facts: FactsModel) -> FactsModel {
    let arguments = items(tree, "arguments"@);
    let argument = first(arguments);
    FactsModel {
        analysis: AnalysisModel {
            vue_glob_patterns: facts.analysis.vue_glob_patterns + if arguments.len() == 0 {
                seq![]
            } else {
                glob_patterns(argument)
            },
            vue_glob_unverifiable: facts.analysis.vue_glob_unverifiable || arguments.len() == 0 || !glob_readable(
                argument,
            ),
            ..facts.analysis
        },
        ..facts
    }
}

fn note_glob(tree: &Tree, facts: &mut Facts)
    ensures
        final(facts)@ == after_glob(tree@, old(facts)@),
{
    let ghost known = texts(facts.analysis.vue_glob_patterns@);
    let arguments = get_items(tree, "arguments");
    proof {
        if let Some(list) = arguments {
            lemma_list_model(list@, list@.len());
        }
    }
    match get_first(arguments) {
        Some(argument) => {
            let readable = collect_glob_argument(argument, &mut facts.analysis.vue_glob_patterns);
            if !readable {
                facts.analysis.vue_glob_unverifiable = true;
            }
        },
        None => {
            facts.analysis.vue_glob_unverifiable = true;
            assert(known + Seq::<Seq<char>>::empty() =~= known);
        },
    }
}

/// What a call adds.
pub open spec fn after_call(at: SourceModel, tree: TreeModel, facts: FactsModel) -> FactsModel {
    let callee = field(tree, "callee"@);
    let loaded = string_value(first(items(tree, "arguments"@)));
    if of_kind(callee, "Identifier"@) {
        let named = if called(callee, "require"@) && loaded is Some {
            facts.naming(loaded->0, false, true)
        } else {
            facts
        };
        FactsModel {
            analysis: AnalysisModel {
                has_vue_fallthrough_macro: named.analysis.has_vue_fallthrough_macro || ((called(
                    callee,
                    "defineOptions"@,
                ) || called(callee, "defineProps"@)) && referenced(at.symbols, callee) is None),
                ..named.analysis
            },
            ..named
        }
    } else if member_name(callee) == Some("glob"@) && import_meta(field(callee, "object"@)) {
        after_glob(tree, facts)
    } else {
        facts
    }
}

fn note_call<'a>(at: &Source<'a>, tree: &Tree, facts: &mut Facts)
    ensures
        final(facts)@ == after_call(at@, tree@, old(facts)@),
{
    let callee = match get(tree, "callee") {
        None => {
            assert(member_name(TreeModel::Null) is None);
            return;
        },
        Some(callee) => callee,
    };
    if is_kind(callee, "Identifier") {
        if is_called(Some(callee), "require") {
            if let Some(specifier) = optional_string(get_first(get_items(tree, "arguments"))) {
                name_import(facts, copy(specifier.as_str()), false, true);
            }
        }
        if (is_called(Some(callee), "defineOptions") || is_called(Some(callee), "defineProps")) && find_referenced(
            at.symbols,
            callee,
        ).is_none() {
            facts.analysis.has_vue_fallthrough_macro = true;
        }
    } else if is_member_named(Some(callee), "glob") && is_import_meta(get(callee, "object")) {
        note_glob(tree, facts);
    }
}

// Uses

/// The node itself uses the CSS Module: an unbound `$style`, `$style` on
/// `this`, or Vue's `useCssModule` under any of its names.
pub open spec fn uses(at: SourceModel, tree: TreeModel, role: Role, facts: FactsModel) -> bool {
    let object = field(tree, "object"@);
    let member = if flag(tree, "computed"@) {
        string_value(field(tree, "property"@))
    } else {
        member_name(tree)
    };
    if refers(tree, role) {
        let symbol = referenced(at.symbols, tree);
        (text_field(tree, "name"@) == Some("$style"@) && symbol is None) || one_of(symbol, facts.functions)
    } else {
        of_kind(tree, "MemberExpression"@) && ((member == Some("$style"@) && this_alias(
            at.symbols,
            object,
            facts.aliases,
        )) || (member == Some("useCssModule"@) && identifies(at.symbols, object, facts.namespaces)))
    }
}

fn does_use<'a>(at: &Source<'a>, tree: &Tree, role: Role, facts: &Facts) -> (result: bool)
    ensures
        result == uses(at@, tree@, role, facts@),
{
    if does_refer(tree, role) {
        let symbol = find_referenced(at.symbols, tree);
        return (is_text(get_text(tree, "name"), "$style") && symbol.is_none()) || is_one_of(symbol, &facts.functions);
    }
    if !is_kind(tree, "MemberExpression") {
        return false;
    }
    let object = get(tree, "object");
    let computed = get_flag(tree, "computed");
    let style = if computed {
        is_text(optional_string(get(tree, "property")), "$style")
    } else {
        is_member_named(Some(tree), "$style")
    };
    let function = if computed {
        is_text(optional_string(get(tree, "property")), "useCssModule")
    } else {
        is_member_named(Some(tree), "useCssModule")
    };
    (style && is_this_alias(at.symbols, object, &facts.aliases)) || (function && does_identify(
        at.symbols,
        object,
        &facts.namespaces,
    ))
}

/// What a node adds by itself.
pub open spec fn after_source_node(at: SourceModel, tree: TreeModel, role: Role, facts: FactsModel) -> FactsModel {
    let source = string_value(field(tree, "source"@));
    if of_kind(tree, "ImportDeclaration"@) {
        after_declaration(at, tree, facts)
    } else if of_kind(tree, "ExportNamedDeclaration"@) {
        if source is Some {
            facts.naming(
                source->0,
                text_field(tree, "exportKind"@) == Some("type"@) || only_types(items(tree, "specifiers"@)),
                false,
            )
        } else {
            facts
        }
    } else if of_kind(tree, "ExportAllDeclaration"@) {
        facts.naming(source_of(tree), text_field(tree, "exportKind"@) == Some("type"@), false)
    } else if of_kind(tree, "ImportExpression"@) {
        let found = FactsModel { analysis: AnalysisModel { has_dynamic_import: true, ..facts.analysis }, ..facts };
        if source is Some {
            found.naming(source->0, false, true)
        } else {
            found
        }
    } else if of_kind(tree, "TSImportEqualsDeclaration"@) {
        let reference = field(tree, "moduleReference"@);
        let required = string_value(field(reference, "expression"@));
        if of_kind(reference, "TSExternalModuleReference"@) && required is Some {
            facts.naming(required->0, text_field(tree, "importKind"@) == Some("type"@), false)
        } else {
            facts
        }
    } else if of_kind(tree, "VariableDeclarator"@) {
        after_declarator(at, tree, facts)
    } else if of_kind(tree, "CallExpression"@) {
        after_call(at, tree, facts)
    } else {
        facts.using(uses(at, tree, role, facts))
    }
}

fn note_import_equals(tree: &Tree, facts: &mut Facts)
    ensures
        ({
            let reference = field(tree@, "moduleReference"@);
            let required = string_value(field(reference, "expression"@));
            final(facts)@ == if of_kind(reference, "TSExternalModuleReference"@) && required is Some {
                old(facts)@.naming(required->0, text_field(tree@, "importKind"@) == Some("type"@), false)
            } else {
                old(facts)@
            }
        }),
{
    if let Some(reference) = get(tree, "moduleReference") {
        if is_kind(reference, "TSExternalModuleReference") {
            if let Some(specifier) = optional_string(get(reference, "expression")) {
                name_import(facts, copy(specifier.as_str()), is_text(get_text(tree, "importKind"), "type"), false);
            }
        }
    }
}

fn note_node<'a>(at: &Source<'a>, tree: &Tree, role: Role, facts: &mut Facts)
    ensures
        final(facts)@ == after_source_node(
            at@,
            tree@,
            role,
            old(facts)@,
        ),
{
    if is_kind(tree, "ImportDeclaration") {
        note_declaration(at, tree, facts);
    } else if is_kind(tree, "ExportNamedDeclaration") {
        if let Some(source) = optional_string(get(tree, "source")) {
            let type_only = is_text(get_text(tree, "exportKind"), "type") || has_only_types(
                get_items(tree, "specifiers"),
            );
            name_import(facts, copy(source.as_str()), type_only, false);
        }
    } else if is_kind(tree, "ExportAllDeclaration") {
        name_import(facts, get_source(tree), is_text(get_text(tree, "exportKind"), "type"), false);
    } else if is_kind(tree, "ImportExpression") {
        facts.analysis.has_dynamic_import = true;
        if let Some(source) = optional_string(get(tree, "source")) {
            name_import(facts, copy(source.as_str()), false, true);
        }
    } else if is_kind(tree, "TSImportEqualsDeclaration") {
        note_import_equals(tree, facts);
    } else if is_kind(tree, "VariableDeclarator") {
        note_declarator(at, tree, facts);
    } else if is_kind(tree, "CallExpression") {
        note_call(at, tree, facts);
    } else {
        let used = does_use(at, tree, role, facts);
        note_use(facts, used);
    }
}

/// The facts with everything that the tree adds, in the order of the text.
pub open spec fn learned(at: SourceModel, tree: TreeModel, role: Role, facts: FactsModel) -> FactsModel
    decreases tree, 0nat,
{
    match tree {
        TreeModel::List(list) => learned_items(at, list, list.len(), role, facts),
        TreeModel::Node(fields) => learned_fields(
            at,
            tree,
            fields,
            fields.len(),
            role,
            after_source_node(at, tree, role, facts),
        ),
        _ => facts,
    }
}

pub open spec fn learned_items(at: SourceModel, list: Seq<TreeModel>, n: nat, role: Role, facts: FactsModel) -> FactsModel
    decreases list, n,
{
    if n == 0 || n > list.len() {
        facts
    } else {
        learned(at, list[n - 1], role, learned_items(at, list, (n - 1) as nat, role, facts))
    }
}

pub open spec fn learned_fields(
    at: SourceModel,
    tree: TreeModel,
    fields: Seq<(Seq<char>, TreeModel)>,
    n: nat,
    role: Role,
    facts: FactsModel,
) -> FactsModel
    decreases fields, n,
{
    if n == 0 || n > fields.len() {
        facts
    } else {
        learned(
            at,
            fields[n - 1].1,
            role_in(tree, role, fields[n - 1].0),
            learned_fields(at, tree, fields, (n - 1) as nat, role, facts),
        )
    }
}

fn learn<'a>(at: &Source<'a>, tree: &Tree, role: Role, facts: &mut Facts)
    ensures
        final(facts)@ == learned(at@, tree@, role, old(facts)@),
    decreases tree,
{
    match tree {
        Tree::List(list) => {
            proof {
                lemma_list_model(list@, list@.len());
            }
            let ghost models = list_model(list@, list@.len());
            let ghost start = facts@;
            let mut n: usize = 0;
            while n < list.len()
                invariant
                    *tree == Tree::List(*list),
                    n <= list@.len(),
                    models.len() == list@.len(),
                    forall|k: int| 0 <= k < list@.len() ==> #[trigger] models[k] == tree_model(list@[k]),
                    facts@ == learned_items(at@, models, n as nat, role, start),
                decreases list.len() - n,
            {
                assert(models[n as int] == tree_model(list@[n as int]));
                assert(decreases_to!(list@ => list@[n as int]));
                assert(decreases_to!(*tree => (*tree)->List_0));
                assert(decreases_to!(*list => list@));
                learn(at, &list[n], role, facts);
                n += 1;
            }
        },
        Tree::Node(fields) => {
            note_node(at, tree, role, facts);
            proof {
                lemma_fields_model(fields@, fields@.len());
            }
            let ghost models = fields_model(fields@, fields@.len());
            let ghost start = facts@;
            let mut n: usize = 0;
            while n < fields.len()
                invariant
                    *tree == Tree::Node(*fields),
                    n <= fields@.len(),
                    models.len() == fields@.len(),
                    forall|k: int|
                        0 <= k < fields@.len() ==> #[trigger] models[k] == (fields@[k].0@, tree_model(fields@[k].1)),
                    facts@ == learned_fields(at@, tree@, models, n as nat, role, start),
                decreases fields.len() - n,
            {
                assert(models[n as int] == (fields@[n as int].0@, tree_model(fields@[n as int].1)));
                assert(decreases_to!(fields@ => fields@[n as int]));
                assert(decreases_to!(fields@[n as int] => fields@[n as int].1));
                assert(decreases_to!(*tree => (*tree)->Node_0));
                assert(decreases_to!(*fields => fields@));
                let inside = get_role_in(tree, role, fields[n].0.as_str());
                learn(at, &fields[n].1, inside, facts);
                n += 1;
            }
        },
        _ => {},
    }
}

// The whole

/// `facts` with the first `n` specifiers of an import from Vue.
pub open spec fn with_vue(symbols: Seq<Occurrence>, specifiers: Seq<TreeModel>, n: int, facts: FactsModel) -> FactsModel
    decreases n,
{
    if n <= 0 {
        facts
    } else {
        let before = with_vue(symbols, specifiers, n - 1, facts);
        let specifier = specifiers[n - 1];
        let imported = field(specifier, "imported"@);
        match declared(symbols, field(specifier, "local"@)) {
            None => before,
            Some(symbol) => if of_kind(specifier, "ImportSpecifier"@) {
                if (text_field(imported, "name"@) == Some("useCssModule"@) || string_value(imported) == Some(
                    "useCssModule"@,
                )) && text_field(specifier, "importKind"@) != Some("type"@) {
                    FactsModel { functions: before.functions.push(symbol), ..before }
                } else {
                    before
                }
            } else if of_kind(specifier, "ImportNamespaceSpecifier"@) {
                FactsModel { namespaces: before.namespaces.push(symbol), ..before }
            } else {
                before
            },
        }
    }
}

/// The statement imports values from Vue.
pub open spec fn imports_vue(statement: TreeModel) -> bool {
    &&& of_kind(statement, "ImportDeclaration"@)
    &&& string_value(field(statement, "source"@)) == Some("vue"@)
    &&& text_field(statement, "importKind"@) != Some("type"@)
}

/// `facts` with what the first `n` statements import from Vue.
pub open spec fn with_vue_imports(
    symbols: Seq<Occurrence>,
    statements: Seq<TreeModel>,
    n: int,
    facts: FactsModel,
) -> FactsModel
    decreases n,
{
    if n <= 0 {
        facts
    } else {
        let before = with_vue_imports(symbols, statements, n - 1, facts);
        let specifiers = items(statements[n - 1], "specifiers"@);
        if imports_vue(statements[n - 1]) {
            with_vue(symbols, specifiers, specifiers.len() as int, before)
        } else {
            before
        }
    }
}

/// Nothing is known.
pub open spec fn no_facts() -> FactsModel {
    FactsModel {
        functions: seq![],
        namespaces: seq![],
        aliases: seq![],
        analysis: AnalysisModel {
            imports: seq![],
            static_imports: seq![],
            default_imports: seq![],
            vue_glob_patterns: seq![],
            vue_glob_unverifiable: false,
            has_dynamic_import: false,
            has_vue_fallthrough_macro: false,
            uses_css_module: false,
        },
    }
}

/// The facts about a module.
pub open spec fn module_facts(text: Seq<char>, tree: TreeModel, symbols: Seq<Occurrence>) -> AnalysisModel {
    let body = items(tree, "body"@);
    learned(
        SourceModel { text, symbols },
        tree,
        Role::Reference,
        with_vue_imports(symbols, body, body.len() as int, no_facts()),
    ).analysis
}

fn empty_facts() -> (result: Facts)
    ensures
        result@ == no_facts(),
{
    let result = Facts {
        functions: Vec::new(),
        namespaces: Vec::new(),
        aliases: Vec::new(),
        analysis: SourceAnalysis {
            imports: Vec::new(),
            static_imports: Vec::new(),
            default_imports: Vec::new(),
            vue_glob_patterns: Vec::new(),
            vue_glob_unverifiable: false,
            has_dynamic_import: false,
            has_vue_fallthrough_macro: false,
            uses_css_module: false,
        },
    };
    assert(result@.functions =~= no_facts().functions);
    assert(result@.namespaces =~= no_facts().namespaces);
    assert(result@.aliases =~= no_facts().aliases);
    assert(result@.analysis.imports =~= no_facts().analysis.imports);
    assert(result@.analysis.static_imports =~= no_facts().analysis.static_imports);
    assert(result@.analysis.default_imports =~= no_facts().analysis.default_imports);
    assert(result@.analysis.vue_glob_patterns =~= no_facts().analysis.vue_glob_patterns);
    result
}

fn note_vue(symbols: &Vec<Occurrence>, specifiers: &Vec<Tree>, facts: &mut Facts)
    ensures
        final(facts)@ == with_vue(
            symbols@,
            list_model(specifiers@, specifiers@.len()),
            specifiers@.len() as int,
            old(facts)@,
        ),
{
    proof {
        lemma_list_model(specifiers@, specifiers@.len());
    }
    let ghost models = list_model(specifiers@, specifiers@.len());
    let ghost start = facts@;
    let mut n: usize = 0;
    while n < specifiers.len()
        invariant
            n <= specifiers@.len(),
            models.len() == specifiers@.len(),
            forall|k: int| 0 <= k < specifiers@.len() ==> #[trigger] models[k] == tree_model(specifiers@[k]),
            facts@ == with_vue(symbols@, models, n as int, start),
        decreases specifiers.len() - n,
    {
        assert(models[n as int] == tree_model(specifiers@[n as int]));
        let specifier = &specifiers[n];
        let symbol = match get(specifier, "local") {
            Some(local) => find_declared(symbols, local),
            None => find_declared(symbols, &Tree::Null),
        };
        if let Some(symbol) = symbol {
            if is_kind(specifier, "ImportSpecifier") {
                let imported = get(specifier, "imported");
                if (is_text(optional_get_text(imported, "name"), "useCssModule") || is_text(
                    optional_string(imported),
                    "useCssModule",
                )) && !is_text(get_text(specifier, "importKind"), "type") {
                    facts.functions.push(symbol);
                }
            } else if is_kind(specifier, "ImportNamespaceSpecifier") {
                facts.namespaces.push(symbol);
            }
        }
        n += 1;
    }
}

fn note_vue_imports(symbols: &Vec<Occurrence>, body: &Vec<Tree>, facts: &mut Facts)
    ensures
        final(facts)@ == with_vue_imports(
            symbols@,
            list_model(body@, body@.len()),
            body@.len() as int,
            old(facts)@,
        ),
{
    proof {
        lemma_list_model(body@, body@.len());
    }
    let ghost models = list_model(body@, body@.len());
    let ghost start = facts@;
    let mut n: usize = 0;
    while n < body.len()
        invariant
            n <= body@.len(),
            models.len() == body@.len(),
            forall|k: int| 0 <= k < body@.len() ==> #[trigger] models[k] == tree_model(body@[k]),
            facts@ == with_vue_imports(symbols@, models, n as int, start),
        decreases body.len() - n,
    {
        assert(models[n as int] == tree_model(body@[n as int]));
        let statement = &body[n];
        if is_kind(statement, "ImportDeclaration") && is_text(optional_string(get(statement, "source")), "vue")
            && !is_text(get_text(statement, "importKind"), "type") {
            if let Some(specifiers) = get_items(statement, "specifiers") {
                proof {
                    lemma_list_model(specifiers@, specifiers@.len());
                }
                note_vue(symbols, specifiers, facts);
            }
        }
        n += 1;
    }
}

/// Reads the facts off a module's tree.
pub fn analyze_module(text: &str, tree: &Tree, symbols: &Vec<Occurrence>) -> (result: SourceAnalysis)
    ensures
        result@ == module_facts(text@, tree@, symbols@),
{
    let mut facts = empty_facts();
    if let Some(body) = get_items(tree, "body") {
        proof {
            lemma_list_model(body@, body@.len());
        }
        note_vue_imports(symbols, body, &mut facts);
    }
    learn(&Source { text, symbols }, tree, Role::Reference, &mut facts);
    facts.analysis
}

/// The failure of a module that was not read.
pub open spec fn module_error(path: Seq<char>, error: SyntaxErrorModel) -> ErrorModel {
    match error {
        SyntaxErrorModel::Unsupported(text) => ErrorModel { kind: ErrorKind::UnsupportedSource, message: text },
        SyntaxErrorModel::Parse(_) => ErrorModel {
            kind: ErrorKind::SourceParse,
            message: "Failed to parse "@ + path,
        },
        SyntaxErrorModel::Analyze(_) => ErrorModel {
            kind: ErrorKind::SourceAnalysis,
            message: "Failed to analyze "@ + path,
        },
    }
}

/// Every fact about the JavaScript or TypeScript source of the file at `path`.
pub fn source_analysis(path: &str, source: &str) -> (result: Result<SourceAnalysis, MigrationError>)
    ensures
        match module_at(path@, source@) {
            Ok(module) => result matches Ok(analysis) && analysis@ == module_facts(
                source@,
                module.tree,
                module.symbols,
            ),
            Err(model) => result matches Err(error) && error@ == module_error(path@, model),
        },
{
    match parse_module(path, source) {
        Ok(module) => Ok(analyze_module(source, &module.tree, &module.symbols)),
        Err(SyntaxError::Unsupported(text)) => Err(MigrationError::new(ErrorKind::UnsupportedSource, text)),
        Err(SyntaxError::Parse(_)) => {
            let mut message = "Failed to parse ".to_owned();
            message.append(path);
            Err(MigrationError::new(ErrorKind::SourceParse, message))
        },
        Err(SyntaxError::Analyze(_)) => {
            let mut message = "Failed to analyze ".to_owned();
            message.append(path);
            Err(MigrationError::new(ErrorKind::SourceAnalysis, message))
        },
    }
}

} // verus!
