//! Parsed modules: a syntax tree together with what its names are bound to.
use crate::errors::{unsound, ErrorKind, ErrorModel, MigrationError};
use crate::path::{extension, has_extension};
use crate::text::same;
use crate::tree::{fields_model, lemma_fields_model, list_model, read_tree, tree_model, tree_read, Tree, TreeModel};
use oxc_allocator::Allocator;
use oxc_estree::{CompactSerializer, ESTree};
use oxc_parser::Parser;
use oxc_semantic::SemanticBuilder;
use oxc_span::SourceType;
use vstd::prelude::*;

verus! {

// ---------------------------------------------------------------------------
// Parsing
// ---------------------------------------------------------------------------

/// Why a module was not read.
#[derive(Debug)]
pub enum SyntaxError {
    /// The path has no extension of a JavaScript or TypeScript file.
    Unsupported(String),
    /// The text does not parse.
    Parse(String),
    /// The text parses, but its bindings are in error.
    Analyze(String),
}

/// The model of a [`SyntaxError`].
pub enum SyntaxErrorModel {
    Unsupported(Seq<char>),
    Parse(Seq<char>),
    Analyze(Seq<char>),
}

impl View for SyntaxError {
    type V = SyntaxErrorModel;

    open spec fn view(&self) -> SyntaxErrorModel {
        match self {
            SyntaxError::Unsupported(text) => SyntaxErrorModel::Unsupported(text@),
            SyntaxError::Parse(text) => SyntaxErrorModel::Parse(text@),
            SyntaxError::Analyze(text) => SyntaxErrorModel::Analyze(text@),
        }
    }
}

/// A result whose value is a text, by its model.
pub open spec fn text_result(result: Result<String, SyntaxError>) -> Result<Seq<char>, SyntaxErrorModel> {
    match result {
        Ok(text) => Ok(text@),
        Err(error) => Err(error@),
    }
}

/// An identifier's place in the text: where it starts, the symbol it is bound
/// to, and whether it is a reference rather than a declaration.
pub type Occurrence = (usize, usize, bool);

pub open spec fn list_result(result: Result<Vec<(usize, usize)>, SyntaxError>) -> Result<
    Seq<(usize, usize)>,
    SyntaxErrorModel,
> {
    match result {
        Ok(list) => Ok(list@),
        Err(error) => Err(error@),
    }
}

/// What [`parse_json`] returns for a path, a source text and whether JSX is
/// read in every kind of file.
pub uninterp spec fn module_json(path: Seq<char>, source: Seq<char>, jsx: bool) -> Result<Seq<char>, SyntaxErrorModel>;

/// `oxc_parser::Parser::parse`, with the source type of
/// `oxc_span::SourceType::from_path`, and `oxc_ast::ast::Program::to_estree_json`.
/// The claim is only that the serialised tree, or the diagnostics where there
/// are any, depend on the arguments alone. It is made of paths with `/` between
/// their segments: a build for Windows reads a backslash as another `/`.
#[verifier::external_body]
fn parse_json(path: &str, source: &str, jsx: bool) -> (result: Result<String, SyntaxError>)
    ensures
        text_result(result) == module_json(path@, source@, jsx),
{
    let allocator = Allocator::default();
    let source_type = SourceType::from_path(path).map_err(|error| SyntaxError::Unsupported(error.to_string()))?;
    let parsed = Parser::new(&allocator, source, source_type.with_jsx(jsx)).parse();
    if !parsed.diagnostics.is_empty() {
        return Err(SyntaxError::Parse(format!("{:?}", parsed.diagnostics)));
    }
    Ok(parsed.program.to_estree_json(true, false))
}

/// What [`parse_expression_json`] returns for a path, an expression's text and
/// whether JSX is read in every kind of file.
pub uninterp spec fn expression_json(path: Seq<char>, source: Seq<char>, jsx: bool) -> Result<
    Seq<char>,
    SyntaxErrorModel,
>;

/// `oxc_parser::Parser::parse_expression`, with the source type of
/// `oxc_span::SourceType::from_path`, and the tree's serialised form in
/// `oxc_estree::CompactSerializer`. The claim is only that the serialised
/// tree, or the diagnostics where there are any, depend on the arguments
/// alone, of paths as [`parse_json`] takes them.
#[verifier::external_body]
fn parse_expression_json(path: &str, source: &str, jsx: bool) -> (result: Result<String, SyntaxError>)
    ensures
        text_result(result) == expression_json(path@, source@, jsx),
{
    let allocator = Allocator::default();
    let source_type = SourceType::from_path(path).map_err(|error| SyntaxError::Unsupported(error.to_string()))?;
    let expression = Parser::new(&allocator, source, source_type.with_jsx(jsx)).parse_expression()
        .map_err(|found| SyntaxError::Parse(format!("{:?}", found)))?;
    let mut writer = CompactSerializer::new(true, false);
    expression.serialize(&mut writer);
    Ok(writer.into_string())
}

/// What [`bind_declarations`] returns.
pub uninterp spec fn module_declarations(path: Seq<char>, source: Seq<char>, jsx: bool) -> Result<
    Seq<(usize, usize)>,
    SyntaxErrorModel,
>;

/// `oxc_semantic::SemanticBuilder::build` on the parsed module: where the
/// identifiers that declare each symbol start, each with the symbol's index.
/// The claim is only that the list, or the diagnostics where there are any,
/// depend on the arguments alone, of paths as [`parse_json`] takes them.
#[verifier::external_body]
fn bind_declarations(path: &str, source: &str, jsx: bool) -> (result: Result<Vec<(usize, usize)>, SyntaxError>)
    ensures
        list_result(result) == module_declarations(path@, source@, jsx),
{
    let allocator = Allocator::default();
    let kind = SourceType::from_path(path).map_err(|error| SyntaxError::Unsupported(error.to_string()))?;
    let parsed = Parser::new(&allocator, source, kind.with_jsx(jsx)).parse();
    let built = SemanticBuilder::new_compiler().build(&parsed.program);
    if !built.diagnostics.is_empty() {
        return Err(SyntaxError::Analyze(format!("{:?}", built.diagnostics)));
    }
    let names = built.semantic.scoping();
    Ok(names.symbol_ids().flat_map(|id|
        names.symbol_redeclarations(id).iter().map(|it| it.span).chain([names.symbol_span(id)])
            .map(move |at| (at.start as usize, id.index()))
    ).collect())
}

/// What [`bind_references`] returns.
pub uninterp spec fn module_references(path: Seq<char>, source: Seq<char>, jsx: bool) -> Result<
    Seq<(usize, usize)>,
    SyntaxErrorModel,
>;

/// `oxc_semantic::SemanticBuilder::build` on the parsed module: where the
/// identifiers that refer to each symbol start, each with the symbol's index.
/// The claim is only that the list, or the diagnostics where there are any,
/// depend on the arguments alone, of paths as [`parse_json`] takes them.
#[verifier::external_body]
fn bind_references(path: &str, source: &str, jsx: bool) -> (result: Result<Vec<(usize, usize)>, SyntaxError>)
    ensures
        list_result(result) == module_references(path@, source@, jsx),
{
    let allocator = Allocator::default();
    let kind = SourceType::from_path(path).map_err(|error| SyntaxError::Unsupported(error.to_string()))?;
    let parsed = Parser::new(&allocator, source, kind.with_jsx(jsx)).parse();
    let built = SemanticBuilder::new_compiler().with_build_nodes(true).build(&parsed.program);
    if !built.diagnostics.is_empty() {
        return Err(SyntaxError::Analyze(format!("{:?}", built.diagnostics)));
    }
    let names = built.semantic.scoping();
    let spans = |id| names.get_resolved_references(id).map(|used| built.semantic.reference_span(used));
    Ok(names.symbol_ids().flat_map(|id| spans(id).map(move |at| (at.start as usize, id.index()))).collect())
}

/// The places of a list as occurrences.
pub open spec fn occurrences(list: Seq<(usize, usize)>, reference: bool) -> Seq<Occurrence> {
    list.map_values(|place: (usize, usize)| (place.0, place.1, reference))
}

fn push_occurrences(list: &Vec<(usize, usize)>, reference: bool, symbols: &mut Vec<Occurrence>)
    ensures
        final(symbols)@ == old(symbols)@ + occurrences(list@, reference),
{
    let ghost start = symbols@;
    let ghost added = occurrences(list@, reference);
    let mut i: usize = 0;
    assert(start + added.take(0) =~= start);
    while i < list.len()
        invariant
            i <= list@.len(),
            added == occurrences(list@, reference),
            symbols@ == start + added.take(i as int),
        decreases list.len() - i,
    {
        symbols.push((list[i].0, list[i].1, reference));
        i += 1;
        assert(symbols@ =~= start + added.take(i as int));
    }
    assert(added.take(i as int) =~= added);
}

/// A module that was read.
#[derive(Debug)]
pub struct Module {
    pub tree: Tree,
    pub symbols: Vec<Occurrence>,
}

/// The model of a [`Module`].
pub struct ModuleModel {
    pub tree: TreeModel,
    pub symbols: Seq<Occurrence>,
}

impl View for Module {
    type V = ModuleModel;

    open spec fn view(&self) -> ModuleModel {
        ModuleModel { tree: self.tree@, symbols: self.symbols@ }
    }
}

/// JSX is read in `.js` files too.
pub open spec fn reads_jsx(path: Seq<char>) -> bool {
    extension(path) == Some("js"@)
}

/// The module that the tree's serialised form and the places of its
/// identifiers make.
pub open spec fn module_from(
    json: Result<Seq<char>, SyntaxErrorModel>,
    declarations: Result<Seq<(usize, usize)>, SyntaxErrorModel>,
    references: Result<Seq<(usize, usize)>, SyntaxErrorModel>,
) -> Result<ModuleModel, SyntaxErrorModel> {
    match json {
        Err(error) => Err(error),
        Ok(text) => match tree_read(text) {
            None => Err(SyntaxErrorModel::Parse("The syntax tree could not be read"@)),
            Some(tree) => match (declarations, references) {
                (Err(error), _) => Err(error),
                (_, Err(error)) => Err(error),
                (Ok(declared), Ok(used)) => Ok(
                    ModuleModel { tree, symbols: occurrences(declared, false) + occurrences(used, true) },
                ),
            },
        },
    }
}

/// The module at `path`.
pub open spec fn module_at(path: Seq<char>, source: Seq<char>) -> Result<ModuleModel, SyntaxErrorModel> {
    let jsx = reads_jsx(path);
    module_from(
        module_json(path, source, jsx),
        module_declarations(path, source, jsx),
        module_references(path, source, jsx),
    )
}

/// Puts a module together from its parts.
pub fn assemble_module(
    json: Result<String, SyntaxError>,
    declarations: Result<Vec<(usize, usize)>, SyntaxError>,
    references: Result<Vec<(usize, usize)>, SyntaxError>,
) -> (result: Result<Module, SyntaxError>)
    ensures
        match module_from(text_result(json), list_result(declarations), list_result(references)) {
            Ok(model) => result matches Ok(module) && module@ == model,
            Err(model) => result matches Err(error) && error@ == model,
        },
{
    let text = match json {
        Err(error) => {
            return Err(error);
        },
        Ok(text) => text,
    };
    let tree = match read_tree(text.as_str()) {
        None => {
            return Err(SyntaxError::Parse("The syntax tree could not be read".to_owned()));
        },
        Some(tree) => tree,
    };
    match (declarations, references) {
        (Err(error), _) => Err(error),
        (_, Err(error)) => Err(error),
        (Ok(declared), Ok(used)) => {
            let mut symbols: Vec<Occurrence> = Vec::new();
            push_occurrences(&declared, false, &mut symbols);
            push_occurrences(&used, true, &mut symbols);
            assert(symbols@ =~= occurrences(declared@, false) + occurrences(used@, true));
            Ok(Module { tree, symbols })
        },
    }
}

/// Reads the module at `path`.
pub fn parse_module(path: &str, source: &str) -> (result: Result<Module, SyntaxError>)
    ensures
        match module_at(path@, source@) {
            Ok(model) => result matches Ok(module) && module@ == model,
            Err(model) => result matches Err(error) && error@ == model,
        },
{
    let jsx = has_extension(path, "js");
    match parse_json(path, source, jsx) {
        Err(error) => Err(error),
        Ok(text) => assemble_module(
            Ok(text),
            bind_declarations(path, source, jsx),
            bind_references(path, source, jsx),
        ),
    }
}

/// The expression that its tree's serialised form describes.
pub open spec fn expression_from(json: Result<Seq<char>, SyntaxErrorModel>) -> Result<TreeModel, SyntaxErrorModel> {
    match json {
        Err(error) => Err(error),
        Ok(text) => match tree_read(text) {
            None => Err(SyntaxErrorModel::Parse("The syntax tree could not be read"@)),
            Some(tree) => Ok(tree),
        },
    }
}

/// Reads an expression from its tree's serialised form.
pub fn assemble_expression(json: Result<String, SyntaxError>) -> (result: Result<Tree, SyntaxError>)
    ensures
        match expression_from(text_result(json)) {
            Ok(model) => result matches Ok(tree) && tree@ == model,
            Err(model) => result matches Err(error) && error@ == model,
        },
{
    match json {
        Err(error) => Err(error),
        Ok(text) => match read_tree(text.as_str()) {
            None => Err(SyntaxError::Parse("The syntax tree could not be read".to_owned())),
            Some(tree) => Ok(tree),
        },
    }
}

/// Reads an expression of the file at `path`.
pub fn parse_expression(path: &str, source: &str) -> (result: Result<Tree, SyntaxError>)
    ensures
        match expression_from(expression_json(path@, source@, reads_jsx(path@))) {
            Ok(model) => result matches Ok(tree) && tree@ == model,
            Err(model) => result matches Err(error) && error@ == model,
        },
{
    assemble_expression(parse_expression_json(path, source, has_extension(path, "js")))
}

/// Whether an edited source still parses.
pub fn validate_js(path: &str, source: &str) -> (result: Result<(), MigrationError>)
    ensures
        match module_json(path@, source@, reads_jsx(path@)) {
            Ok(_) => result is Ok,
            Err(SyntaxErrorModel::Unsupported(text)) => result matches Err(error) && error@ == (ErrorModel {
                kind: ErrorKind::UnsupportedSource,
                message: "Unsupported source file "@ + path@ + ": "@ + text,
            }),
            Err(_) => result matches Err(error) && error@ == unsound("Edited source no longer parses: "@ + path@),
        },
{
    match parse_json(path, source, has_extension(path, "js")) {
        Ok(_) => Ok(()),
        Err(SyntaxError::Unsupported(text)) => {
            let mut message = "Unsupported source file ".to_owned();
            message.append(path);
            message.append(": ");
            message.append(text.as_str());
            Err(MigrationError::new(ErrorKind::UnsupportedSource, message))
        },
        Err(_) => {
            let mut message = "Edited source no longer parses: ".to_owned();
            message.append(path);
            Err(MigrationError::new(ErrorKind::Planning, message))
        },
    }
}

// ---------------------------------------------------------------------------
// Reading a tree
// ---------------------------------------------------------------------------

/// The first field named `name` from `i` on.
pub open spec fn field_from(fields: Seq<(Seq<char>, TreeModel)>, name: Seq<char>, i: int) -> TreeModel
    decreases fields.len() - i,
{
    if i < 0 || i >= fields.len() {
        TreeModel::Null
    } else if fields[i].0 == name {
        fields[i].1
    } else {
        field_from(fields, name, i + 1)
    }
}

/// The field named `name`; `Null` where there is none.
pub open spec fn field(tree: TreeModel, name: Seq<char>) -> TreeModel {
    match tree {
        TreeModel::Node(fields) => field_from(fields, name, 0),
        _ => TreeModel::Null,
    }
}

pub open spec fn optional(tree: Option<&Tree>) -> TreeModel {
    match tree {
        Some(tree) => tree@,
        None => TreeModel::Null,
    }
}

/// The field named `name`.
pub fn get<'a>(tree: &'a Tree, name: &str) -> (result: Option<&'a Tree>)
    ensures
        optional(result) == field(tree@, name@),
        result matches Some(found) ==> decreases_to!(*tree => *found),
{
    match tree {
        Tree::Node(fields) => {
            proof {
                lemma_fields_model(fields@, fields@.len());
            }
            let ghost models = fields_model(fields@, fields@.len());
            let mut i: usize = 0;
            while i < fields.len()
                invariant
                    i <= fields@.len(),
                    models.len() == fields@.len(),
                    forall|k: int|
                        0 <= k < fields@.len() ==> #[trigger] models[k] == (fields@[k].0@, tree_model(fields@[k].1)),
                    *tree == Tree::Node(*fields),
                    field_from(models, name@, i as int) == field(tree@, name@),
                decreases fields.len() - i,
            {
                if same(fields[i].0.as_str(), name) {
                    assert(models[i as int] == (fields@[i as int].0@, tree_model(fields@[i as int].1)));
                    assert(decreases_to!(fields@ => fields@[i as int]));
                    assert(decreases_to!(fields@[i as int] => fields@[i as int].1));
                    return Some(&fields[i].1);
                }
                assert(models[i as int].0 != name@);
                i += 1;
            }
            None
        },
        _ => None,
    }
}

/// The node lies inside the other.
pub open spec fn lies_in(owner: TreeModel, node: TreeModel) -> bool {
    decreases_to!(owner => node)
}

/// A field is smaller than the tree that holds it.
pub proof fn lemma_field_smaller(tree: TreeModel, name: Seq<char>)
    ensures
        field(tree, name) != TreeModel::Null ==> decreases_to!(tree => field(tree, name)),
{
    if let TreeModel::Node(fields) = tree {
        lemma_field_from_smaller(fields, name, 0);
    }
}

proof fn lemma_field_from_smaller(fields: Seq<(Seq<char>, TreeModel)>, name: Seq<char>, i: int)
    ensures
        field_from(fields, name, i) != TreeModel::Null ==> decreases_to!(fields => field_from(fields, name, i)),
    decreases fields.len() - i,
{
    if 0 <= i < fields.len() {
        if fields[i].0 == name {
            assert(decreases_to!(fields => fields[i]));
            assert(decreases_to!(fields[i] => fields[i].1));
        } else {
            lemma_field_from_smaller(fields, name, i + 1);
        }
    }
}

/// The text of a value, if it is one.
pub open spec fn as_text(tree: TreeModel) -> Option<Seq<char>> {
    match tree {
        TreeModel::Text(text) => Some(text),
        _ => None,
    }
}

/// The text in the field named `name`, if it holds one.
pub open spec fn text_field(tree: TreeModel, name: Seq<char>) -> Option<Seq<char>> {
    as_text(field(tree, name))
}

pub open spec fn optional_text(text: Option<&String>) -> Option<Seq<char>> {
    match text {
        Some(text) => Some(text@),
        None => None,
    }
}

/// The text in the field named `name`.
pub fn get_text<'a>(tree: &'a Tree, name: &str) -> (result: Option<&'a String>)
    ensures
        optional_text(result) == text_field(tree@, name@),
{
    match get(tree, name) {
        Some(Tree::Text(text)) => Some(text),
        _ => None,
    }
}

/// The kind of a node; empty for anything else.
pub open spec fn kind(tree: TreeModel) -> Seq<char> {
    match text_field(tree, "type"@) {
        Some(text) => text,
        None => seq![],
    }
}

/// Whether the tree is a node of this kind.
pub open spec fn of_kind(tree: TreeModel, name: Seq<char>) -> bool {
    text_field(tree, "type"@) == Some(name)
}

/// Whether the tree is a node of this kind.
pub fn is_kind(tree: &Tree, name: &str) -> (result: bool)
    ensures
        result == of_kind(tree@, name@),
{
    match get_text(tree, "type") {
        Some(text) => same(text.as_str(), name),
        None => false,
    }
}

/// The items in the field named `name`; none where it holds no list.
pub open spec fn items(tree: TreeModel, name: Seq<char>) -> Seq<TreeModel> {
    match field(tree, name) {
        TreeModel::List(list) => list,
        _ => seq![],
    }
}

pub open spec fn optional_list(list: Option<&Vec<Tree>>) -> Seq<TreeModel> {
    match list {
        Some(list) => list_model(list@, list@.len()),
        None => seq![],
    }
}

/// The items in the field named `name`.
pub fn get_items<'a>(tree: &'a Tree, name: &str) -> (result: Option<&'a Vec<Tree>>)
    ensures
        optional_list(result) == items(tree@, name@),
        result matches Some(list) ==> decreases_to!(*tree => list@),
{
    match get(tree, name) {
        Some(Tree::List(list)) => Some(list),
        _ => None,
    }
}

/// Whether the field named `name` holds `true`.
pub open spec fn flag(tree: TreeModel, name: Seq<char>) -> bool {
    field(tree, name) == TreeModel::Flag(true)
}

pub fn get_flag(tree: &Tree, name: &str) -> (result: bool)
    ensures
        result == flag(tree@, name@),
{
    match get(tree, name) {
        Some(Tree::Flag(flag)) => *flag,
        _ => false,
    }
}

/// The number in the field named `name`; zero where it holds none.
pub open spec fn number(tree: TreeModel, name: Seq<char>) -> usize {
    match field(tree, name) {
        TreeModel::Number(Some(value)) => if value <= usize::MAX {
            value as usize
        } else {
            0
        },
        _ => 0,
    }
}

pub fn get_number(tree: &Tree, name: &str) -> (result: usize)
    ensures
        result == number(tree@, name@),
{
    match get(tree, name) {
        Some(Tree::Number(Some(value))) => if *value <= usize::MAX as u64 {
            *value as usize
        } else {
            0
        },
        _ => 0,
    }
}

/// The byte offset where a node starts.
pub open spec fn start_of(tree: TreeModel) -> usize {
    number(tree, "start"@)
}

/// The byte offsets between which a node stands.
pub open spec fn span_of(tree: TreeModel) -> (usize, usize) {
    (number(tree, "start"@), number(tree, "end"@))
}

pub fn get_span(tree: &Tree) -> (result: (usize, usize))
    ensures
        result == span_of(tree@),
{
    (get_number(tree, "start"), get_number(tree, "end"))
}

/// Whether the node only wraps an expression: parentheses or a type assertion.
pub open spec fn wraps(tree: TreeModel) -> bool {
    ||| of_kind(tree, "ParenthesizedExpression"@)
    ||| of_kind(tree, "TSAsExpression"@)
    ||| of_kind(tree, "TSSatisfiesExpression"@)
    ||| of_kind(tree, "TSInstantiationExpression"@)
    ||| of_kind(tree, "TSNonNullExpression"@)
    ||| of_kind(tree, "TSTypeAssertion"@)
}

fn is_wrapper(tree: &Tree) -> (result: bool)
    ensures
        result == wraps(tree@),
{
    is_kind(tree, "ParenthesizedExpression") || is_kind(tree, "TSAsExpression") || is_kind(
        tree,
        "TSSatisfiesExpression",
    ) || is_kind(tree, "TSInstantiationExpression") || is_kind(tree, "TSNonNullExpression") || is_kind(
        tree,
        "TSTypeAssertion",
    )
}

/// The expression inside parentheses and type assertions.
pub open spec fn inner(tree: TreeModel) -> TreeModel
    decreases tree,
{
    if wraps(tree) {
        let inside = field(tree, "expression"@);
        proof {
            lemma_field_smaller(tree, "expression"@);
        }
        if inside == TreeModel::Null {
            tree
        } else {
            inner(inside)
        }
    } else {
        tree
    }
}

/// The expression inside parentheses and type assertions.
pub fn get_inner<'a>(tree: &'a Tree) -> (result: &'a Tree)
    ensures
        result@ == inner(tree@),
        *result == *tree || decreases_to!(*tree => *result),
    decreases tree,
{
    if is_wrapper(tree) {
        match get(tree, "expression") {
            Some(inside) => {
                if let Tree::Null = inside {
                    return tree;
                }
                get_inner(inside)
            },
            None => tree,
        }
    } else {
        tree
    }
}

pub proof fn lemma_inner_smaller(tree: TreeModel)
    ensures
        inner(tree) == tree || lies_in(tree, inner(tree)),
    decreases tree,
{
    if wraps(tree) {
        let inside = field(tree, "expression"@);
        lemma_field_smaller(tree, "expression"@);
        if inside != TreeModel::Null {
            lemma_inner_smaller(inside);
        }
    }
}

// ---------------------------------------------------------------------------
// Results of expressions
// ---------------------------------------------------------------------------

/// The expression picks its result from several.
pub open spec fn branches(tree: TreeModel) -> bool {
    of_kind(inner(tree), "ConditionalExpression"@) || of_kind(inner(tree), "LogicalExpression"@)
}

/// Whether the expression picks its result from several.
pub fn does_branch(tree: &Tree) -> (result: bool)
    ensures
        result == branches(tree@),
{
    let expression = get_inner(tree);
    is_kind(expression, "ConditionalExpression") || is_kind(expression, "LogicalExpression")
}

/// The expressions that the result may be: both branches of a conditional, and
/// the right operand of a logical expression. Conditions and left operands are
/// opaque.
pub open spec fn result_leaves(tree: TreeModel) -> Seq<TreeModel>
    decreases tree,
{
    let expression = inner(tree);
    if of_kind(expression, "ConditionalExpression"@) {
        let first = field(expression, "consequent"@);
        let second = field(expression, "alternate"@);
        let left = if first != TreeModel::Null && lies_in(tree, first) {
            result_leaves(first)
        } else {
            seq![]
        };
        let right = if second != TreeModel::Null && lies_in(tree, second) {
            result_leaves(second)
        } else {
            seq![]
        };
        left + right
    } else if of_kind(expression, "LogicalExpression"@) {
        let last = field(expression, "right"@);
        if last != TreeModel::Null && lies_in(tree, last) {
            result_leaves(last)
        } else {
            seq![]
        }
    } else {
        seq![expression]
    }
}

pub open spec fn tree_views(list: Seq<&Tree>) -> Seq<TreeModel> {
    list.map_values(|tree: &Tree| tree@)
}

fn collect_branch<'a>(tree: &'a Tree, expression: &'a Tree, name: &str, list: &mut Vec<&'a Tree>)
    requires
        expression@ == inner(tree@),
        *expression == *tree || decreases_to!(*tree => *expression),
    ensures
        ({
            let branch = field(inner(tree@), name@);
            tree_views(final(list)@) == tree_views(old(list)@) + (if branch != TreeModel::Null && lies_in(
                tree@,
                branch,
            ) {
                result_leaves(branch)
            } else {
                seq![]
            })
        }),
    decreases tree, 0nat,
{
    proof {
        lemma_inner_smaller(tree@);
        lemma_field_smaller(expression@, name@);
    }
    assert(tree_views(list@) + Seq::<TreeModel>::empty() =~= tree_views(list@));
    if let Some(branch) = get(expression, name) {
        if let Tree::Null = branch {
            return;
        }
        collect_result_leaves(branch, list);
    }
}

/// Collects the expressions that the result may be.
pub fn collect_result_leaves<'a>(tree: &'a Tree, list: &mut Vec<&'a Tree>)
    ensures
        tree_views(final(list)@) == tree_views(old(list)@) + result_leaves(tree@),
    decreases tree, 1nat,
{
    let expression = get_inner(tree);
    let ghost start = tree_views(list@);
    if is_kind(expression, "ConditionalExpression") {
        collect_branch(tree, expression, "consequent", list);
        collect_branch(tree, expression, "alternate", list);
        assert(tree_views(list@) =~= start + result_leaves(tree@));
    } else if is_kind(expression, "LogicalExpression") {
        collect_branch(tree, expression, "right", list);
    } else {
        let ghost before = list@;
        list.push(expression);
        assert(tree_views(list@) =~= start + seq![expression@]);
    }
}

/// `object.name`, neither computed nor private.
pub open spec fn static_member(tree: TreeModel) -> bool {
    &&& of_kind(tree, "MemberExpression"@)
    &&& !flag(tree, "computed"@)
    &&& of_kind(field(tree, "property"@), "Identifier"@)
}

pub fn is_static_member(tree: &Tree) -> (result: bool)
    ensures
        result == static_member(tree@),
{
    is_kind(tree, "MemberExpression") && !get_flag(tree, "computed") && has_kind(get(tree, "property"), "Identifier")
}

/// Whether there is a tree, and it is a node of this kind.
pub fn has_kind(tree: Option<&Tree>, name: &str) -> (result: bool)
    ensures
        result == of_kind(optional(tree), name@),
{
    match tree {
        Some(tree) => is_kind(tree, name),
        None => false,
    }
}

/// The text in the field named `name` of a tree that may be missing.
pub fn optional_get_text<'a>(tree: Option<&'a Tree>, name: &str) -> (result: Option<&'a String>)
    ensures
        optional_text(result) == text_field(optional(tree), name@),
{
    match tree {
        Some(tree) => get_text(tree, name),
        None => None,
    }
}

/// The symbol of the first occurrence at `position`, from `i` on.
pub open spec fn symbol_from(symbols: Seq<Occurrence>, position: usize, reference: bool, i: int) -> Option<usize>
    decreases symbols.len() - i,
{
    if i < 0 || i >= symbols.len() {
        None
    } else if symbols[i].0 == position && symbols[i].2 == reference {
        Some(symbols[i].1)
    } else {
        symbol_from(symbols, position, reference, i + 1)
    }
}

/// The symbol that the identifier refers to.
pub open spec fn referenced(symbols: Seq<Occurrence>, identifier: TreeModel) -> Option<usize> {
    symbol_from(symbols, start_of(identifier), true, 0)
}

/// The symbol that the identifier declares.
pub open spec fn declared(symbols: Seq<Occurrence>, identifier: TreeModel) -> Option<usize> {
    symbol_from(symbols, start_of(identifier), false, 0)
}

fn find_symbol(symbols: &Vec<Occurrence>, position: usize, reference: bool) -> (result: Option<usize>)
    ensures
        result == symbol_from(symbols@, position, reference, 0),
{
    let mut i: usize = 0;
    while i < symbols.len()
        invariant
            i <= symbols@.len(),
            symbol_from(symbols@, position, reference, i as int) == symbol_from(symbols@, position, reference, 0),
        decreases symbols.len() - i,
    {
        if symbols[i].0 == position && symbols[i].2 == reference {
            return Some(symbols[i].1);
        }
        i += 1;
    }
    None
}

pub fn find_referenced(symbols: &Vec<Occurrence>, identifier: &Tree) -> (result: Option<usize>)
    ensures
        result == referenced(symbols@, identifier@),
{
    find_symbol(symbols, get_number(identifier, "start"), true)
}

pub fn find_declared(symbols: &Vec<Occurrence>, identifier: &Tree) -> (result: Option<usize>)
    ensures
        result == declared(symbols@, identifier@),
{
    find_symbol(symbols, get_number(identifier, "start"), false)
}

/// The property name of a static member on the binding `target`.
pub open spec fn member_on(symbols: Seq<Occurrence>, target: Option<usize>, member: TreeModel) -> Option<Seq<char>> {
    let object = field(member, "object"@);
    if target is Some && static_member(member) && of_kind(object, "Identifier"@) && referenced(symbols, object)
        == target {
        text_field(field(member, "property"@), "name"@)
    } else {
        None
    }
}

/// Property name of `member` when its object is exactly the binding `target`.
pub fn get_member_on<'a>(symbols: &Vec<Occurrence>, target: Option<usize>, member: &'a Tree) -> (result: Option<
    &'a String,
>)
    ensures
        optional_text(result) == member_on(symbols@, target, member@),
{
    let target = match target {
        None => {
            return None;
        },
        Some(target) => target,
    };
    if !is_static_member(member) {
        return None;
    }
    match get(member, "object") {
        Some(object) => {
            if !is_kind(object, "Identifier") {
                return None;
            }
            match find_referenced(symbols, object) {
                Some(symbol) => {
                    if symbol != target {
                        return None;
                    }
                },
                None => {
                    return None;
                },
            }
            optional_get_text(get(member, "property"), "name")
        },
        None => {
            assert(!of_kind(TreeModel::Null, "Identifier"@));
            None
        },
    }
}

/// Whether the tree is an identifier that refers to the binding `target`.
pub open spec fn names(symbols: Seq<Occurrence>, target: Option<usize>, tree: TreeModel) -> bool {
    target is Some && of_kind(tree, "Identifier"@) && referenced(symbols, tree) == target
}

pub fn is_named(symbols: &Vec<Occurrence>, target: Option<usize>, tree: &Tree) -> (result: bool)
    ensures
        result == names(symbols@, target, tree@),
{
    match target {
        None => false,
        Some(target) => is_kind(tree, "Identifier") && match find_referenced(symbols, tree) {
            Some(symbol) => symbol == target,
            None => false,
        },
    }
}

/// The value of a string literal.
pub open spec fn string_value(tree: TreeModel) -> Option<Seq<char>> {
    if of_kind(tree, "Literal"@) {
        text_field(tree, "value"@)
    } else {
        None
    }
}

pub fn get_string<'a>(tree: &'a Tree) -> (result: Option<&'a String>)
    ensures
        optional_text(result) == string_value(tree@),
{
    if is_kind(tree, "Literal") {
        get_text(tree, "value")
    } else {
        None
    }
}

pub fn optional_string<'a>(tree: Option<&'a Tree>) -> (result: Option<&'a String>)
    ensures
        optional_text(result) == string_value(optional(tree)),
{
    match tree {
        Some(tree) => get_string(tree),
        None => None,
    }
}

} // verus!
