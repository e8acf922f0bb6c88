//! Parsed stylesheets.
//!
//! The caller parses stylesheets and hands their trees over, in the shape that
//! `oxc_css_parser` serialises them. The library works on texts whose trees it
//! was given, and asks for the others: see [`Halt`].
use crate::edit::{applied, apply_edits, Edit, EditModel};
use crate::errors::{unsound, ErrorKind, ErrorModel, MigrationError};
use crate::html_attribute::byte_len;
use crate::number::{entry_of, find_entry, pairs_of};
use crate::syntax::{
    field, get, get_items, get_number, get_text, is_kind, items, number, of_kind, optional, optional_list,
    optional_text, text_field,
};
use crate::text::{copy, same, texts, views};
use crate::tree::{lemma_list_model, list_model, tree_model, Tree, TreeModel};
use vstd::prelude::*;

verus! {

// ---------------------------------------------------------------------------
// Texts and trees
// ---------------------------------------------------------------------------

/// The language of a stylesheet.
#[derive(Clone, Copy, PartialEq, Eq, Structural, Debug)]
pub enum StylesheetSyntax {
    Css,
    Scss,
    Sass,
    Less,
}

/// What the parser made of a text: its tree, or why there is none.
#[derive(Debug)]
pub struct Parse {
    pub text: String,
    pub syntax: StylesheetSyntax,
    pub outcome: Result<Tree, String>,
}

/// The model of a [`Parse`].
pub struct ParseModel {
    pub text: Seq<char>,
    pub syntax: StylesheetSyntax,
    pub outcome: Result<TreeModel, Seq<char>>,
}

impl View for Parse {
    type V = ParseModel;

    open spec fn view(&self) -> ParseModel {
        ParseModel {
            text: self.text@,
            syntax: self.syntax,
            outcome: match self.outcome {
                Ok(tree) => Ok(tree@),
                Err(error) => Err(error@),
            },
        }
    }
}

/// Why planning stopped.
#[derive(Debug)]
pub enum Halt {
    /// It failed.
    Failed(MigrationError),
    /// It needs the tree of this text first.
    Unparsed(String, StylesheetSyntax),
    /// It needs to know first what this text becomes when these at-rules are
    /// appended to it.
    Unappended(String, Vec<String>),
}

/// The model of a [`Halt`].
pub enum HaltModel {
    Failed(ErrorModel),
    Unparsed(Seq<char>, StylesheetSyntax),
    Unappended(Seq<char>, Seq<Seq<char>>),
}

impl View for Halt {
    type V = HaltModel;

    open spec fn view(&self) -> HaltModel {
        match self {
            Halt::Failed(error) => HaltModel::Failed(error@),
            Halt::Unparsed(text, syntax) => HaltModel::Unparsed(text@, *syntax),
            Halt::Unappended(text, at_rules) => HaltModel::Unappended(text@, texts(at_rules@)),
        }
    }
}

/// Planning itself failed.
pub open spec fn failed(message: Seq<char>) -> HaltModel {
    HaltModel::Failed(unsound(message))
}

/// Planning itself failed.
pub fn fail(message: String) -> (result: Halt)
    ensures
        result@ == failed(message@),
{
    Halt::Failed(MigrationError::new(ErrorKind::Planning, message))
}

/// What the parses from `i` on say of a text.
pub open spec fn parse_from(parses: Seq<ParseModel>, text: Seq<char>, syntax: StylesheetSyntax, i: int) -> Option<
    Result<TreeModel, Seq<char>>,
>
    decreases parses.len() - i,
{
    if i < 0 || i >= parses.len() {
        None
    } else if parses[i].text == text && parses[i].syntax == syntax {
        Some(parses[i].outcome)
    } else {
        parse_from(parses, text, syntax, i + 1)
    }
}

/// The tree of a text; `kind` is that of a failure, and `blame` introduces the
/// parser's complaint.
pub open spec fn read_css(
    parses: Seq<ParseModel>,
    text: Seq<char>,
    syntax: StylesheetSyntax,
    kind: ErrorKind,
    blame: Seq<char>,
) -> Result<TreeModel, HaltModel> {
    match parse_from(parses, text, syntax, 0) {
        None => Err(HaltModel::Unparsed(text, syntax)),
        Some(Ok(tree)) => Ok(tree),
        Some(Err(error)) => Err(HaltModel::Failed(ErrorModel { kind, message: blame + error })),
    }
}

/// The tree of a text; `kind` is that of a failure, and `blame` introduces the
/// parser's complaint.
pub fn parse_css<'a>(
    parses: &'a Vec<Parse>,
    text: &str,
    syntax: StylesheetSyntax,
    kind: ErrorKind,
    blame: &str,
) -> (result: Result<&'a Tree, Halt>)
    ensures
        match read_css(views(parses@), text@, syntax, kind, blame@) {
            Ok(model) => result matches Ok(tree) && tree@ == model,
            Err(model) => result matches Err(halt) && halt@ == model,
        },
{
    let mut i: usize = 0;
    while i < parses.len()
        invariant
            i <= parses@.len(),
            parse_from(views(parses@), text@, syntax, i as int) == parse_from(views(parses@), text@, syntax, 0),
        decreases parses.len() - i,
    {
        let parse = &parses[i];
        assert(views(parses@)[i as int] == parse@);
        if same(parse.text.as_str(), text) && parse.syntax == syntax {
            return match &parse.outcome {
                Ok(tree) => Ok(tree),
                Err(error) => {
                    let mut message = copy(blame);
                    message.append(error.as_str());
                    Err(Halt::Failed(MigrationError::new(kind, message)))
                },
            };
        }
        i += 1;
    }
    Err(Halt::Unparsed(copy(text), syntax))
}

/// The text parses.
pub open spec fn validated(parses: Seq<ParseModel>, text: Seq<char>, syntax: StylesheetSyntax) -> Result<
    (),
    HaltModel,
> {
    match read_css(parses, text, syntax, ErrorKind::Planning, "Edited stylesheet no longer parses: "@) {
        Ok(_) => Ok(()),
        Err(halt) => Err(halt),
    }
}

/// Whether an edited stylesheet still parses.
pub fn validate_stylesheet(parses: &Vec<Parse>, text: &str, syntax: StylesheetSyntax) -> (result: Result<(), Halt>)
    ensures
        match validated(views(parses@), text@, syntax) {
            Ok(_) => result is Ok,
            Err(model) => result matches Err(halt) && halt@ == model,
        },
{
    match parse_css(parses, text, syntax, ErrorKind::Planning, "Edited stylesheet no longer parses: ") {
        Ok(_) => Ok(()),
        Err(halt) => Err(halt),
    }
}

/// Whether an edited plain stylesheet still parses.
pub fn validate_css(parses: &Vec<Parse>, text: &str) -> (result: Result<(), Halt>)
    ensures
        match validated(views(parses@), text@, StylesheetSyntax::Css) {
            Ok(_) => result is Ok,
            Err(model) => result matches Err(halt) && halt@ == model,
        },
{
    validate_stylesheet(parses, text, StylesheetSyntax::Css)
}

// ---------------------------------------------------------------------------
// Nodes
// ---------------------------------------------------------------------------

/// The span in the field `name` of a node.
pub open spec fn span_in(tree: TreeModel, name: Seq<char>) -> (usize, usize) {
    (number(field(tree, name), "start"@), number(field(tree, name), "end"@))
}

pub fn get_span_in(tree: &Tree, name: &str) -> (result: (usize, usize))
    ensures
        result == span_in(tree@, name@),
{
    match get(tree, name) {
        Some(span) => (get_number(span, "start"), get_number(span, "end")),
        None => {
            assert(number(TreeModel::Null, "start"@) == 0);
            (0, 0)
        },
    }
}

/// The node's span.
pub open spec fn css_span(tree: TreeModel) -> (usize, usize) {
    span_in(tree, "span"@)
}

pub fn get_css_span(tree: &Tree) -> (result: (usize, usize))
    ensures
        result == css_span(tree@),
{
    get_span_in(tree, "span")
}

/// The span of a node that may be missing.
pub fn optional_css_span(tree: Option<&Tree>) -> (result: (usize, usize))
    ensures
        result == css_span(optional(tree)),
{
    match tree {
        Some(tree) => get_css_span(tree),
        None => {
            assert(field(TreeModel::Null, "span"@) == TreeModel::Null);
            assert(number(TreeModel::Null, "start"@) == 0);
            (0, 0)
        },
    }
}

/// The name of an identifier without interpolation.
pub open spec fn ident_name(tree: TreeModel) -> Option<Seq<char>> {
    if of_kind(tree, "Ident"@) {
        text_field(tree, "name"@)
    } else {
        None
    }
}

pub fn literal_ident<'a>(tree: Option<&'a Tree>) -> (result: Option<&'a String>)
    ensures
        optional_text(result) == ident_name(optional(tree)),
{
    match tree {
        Some(tree) => if is_kind(tree, "Ident") {
            get_text(tree, "name")
        } else {
            None
        },
        None => None,
    }
}

/// The value of a string without interpolation.
pub open spec fn str_value(tree: TreeModel) -> Option<Seq<char>> {
    if of_kind(tree, "Str"@) {
        text_field(tree, "value"@)
    } else {
        None
    }
}

pub fn literal_str<'a>(tree: Option<&'a Tree>) -> (result: Option<&'a String>)
    ensures
        optional_text(result) == str_value(optional(tree)),
{
    match tree {
        Some(tree) => if is_kind(tree, "Str") {
            get_text(tree, "value")
        } else {
            None
        },
        None => None,
    }
}

/// The node is there.
pub open spec fn present(tree: TreeModel) -> bool {
    tree != TreeModel::Null
}

pub fn is_present(tree: Option<&Tree>) -> (result: bool)
    ensures
        result == present(optional(tree)),
{
    match tree {
        None => false,
        Some(Tree::Null) => false,
        Some(_) => true,
    }
}

/// The at-rule's name.
pub open spec fn at_name(at_rule: TreeModel) -> Option<Seq<char>> {
    text_field(field(at_rule, "name"@), "name"@)
}

pub fn get_at_name<'a>(at_rule: &'a Tree) -> (result: Option<&'a String>)
    ensures
        optional_text(result) == at_name(at_rule@),
{
    match get(at_rule, "name") {
        Some(name) => get_text(name, "name"),
        None => {
            assert(text_field(TreeModel::Null, "name"@) is None);
            None
        },
    }
}

/// The statements of a node's block.
pub open spec fn block_statements(tree: TreeModel) -> Seq<TreeModel> {
    items(field(tree, "block"@), "statements"@)
}

pub fn get_block_statements<'a>(tree: &'a Tree) -> (result: Option<&'a Vec<Tree>>)
    ensures
        optional_list(result) == block_statements(tree@),
        result matches Some(list) ==> decreases_to!(*tree => list@),
{
    match get(tree, "block") {
        Some(block) => get_items(block, "statements"),
        None => {
            assert(items(TreeModel::Null, "statements"@) =~= Seq::empty());
            None
        },
    }
}

/// The node has a block.
pub open spec fn has_block(tree: TreeModel) -> bool {
    present(field(tree, "block"@))
}

// ---------------------------------------------------------------------------
// Spans of rules
// ---------------------------------------------------------------------------

/// The spans of a rule and of its selector.
pub type RuleSpans = ((usize, usize), (usize, usize));

/// The spans of every style rule among the first `n` statements, a rule
/// before the rules in its block.
pub open spec fn rule_spans(statements: Seq<TreeModel>, n: nat) -> Seq<RuleSpans>
    decreases statements, n,
{
    if n == 0 || n > statements.len() {
        seq![]
    } else {
        let statement = statements[n - 1];
        let inside = if in_block(statements, statement) {
            rule_spans(block_statements(statement), block_statements(statement).len())
        } else {
            seq![]
        };
        rule_spans(statements, (n - 1) as nat) + if of_kind(statement, "QualifiedRule"@) {
            seq![(css_span(statement), css_span(field(statement, "selector"@)))] + inside
        } else if of_kind(statement, "AtRule"@) {
            inside
        } else {
            seq![]
        }
    }
}

/// The statement's block lies inside the list.
pub open spec fn in_block(statements: Seq<TreeModel>, statement: TreeModel) -> bool {
    decreases_to!(statements => block_statements(statement))
}

/// A statement's block lies inside the list that the statement is in, unless
/// it is empty.
pub proof fn lemma_block_inside(statements: Seq<TreeModel>, i: int)
    requires
        0 <= i < statements.len(),
    ensures
        block_statements(statements[i]).len() > 0 ==> in_block(statements, statements[i]),
{
    let statement = statements[i];
    assert(decreases_to!(statements => statements[i]));
    crate::syntax::lemma_field_smaller(statement, "block"@);
    let block = field(statement, "block"@);
    crate::syntax::lemma_field_smaller(block, "statements"@);
    if block_statements(statement).len() > 0 {
        let list = field(block, "statements"@);
        assert(list is List);
        assert(decreases_to!(list => list->List_0));
        assert(block != TreeModel::Null) by {
            assert(field(TreeModel::Null, "statements"@) == TreeModel::Null);
        }
    }
}

/// The spans of every style rule, a rule before the rules in its block.
pub fn collect_qualified_rule_spans(statements: &Vec<Tree>, spans: &mut Vec<RuleSpans>)
    ensures
        final(spans)@ == old(spans)@ + rule_spans(list_model(statements@, statements@.len()), statements@.len()),
    decreases statements@,
{
    proof {
        lemma_list_model(statements@, statements@.len());
    }
    let ghost models = list_model(statements@, statements@.len());
    let ghost start = spans@;
    assert(start + rule_spans(models, 0) =~= start);
    let mut n: usize = 0;
    while n < statements.len()
        invariant
            n <= statements@.len(),
            models.len() == statements@.len(),
            forall|k: int| 0 <= k < statements@.len() ==> #[trigger] models[k] == tree_model(statements@[k]),
            spans@ == start + rule_spans(models, n as nat),
        decreases statements.len() - n,
    {
        assert(models[n as int] == tree_model(statements@[n as int]));
        let statement = &statements[n];
        assert(decreases_to!(statements@ => statements@[n as int]));
        proof {
            lemma_block_inside(models, n as int);
        }
        let ghost before = spans@;
        let ghost mine = block_statements(models[n as int]);
        let ghost inside = if in_block(models, models[n as int]) {
            rule_spans(mine, mine.len())
        } else {
            seq![]
        };
        assert(mine.len() == 0 ==> inside =~= Seq::empty());
        if is_kind(statement, "QualifiedRule") {
            let own = (get_css_span(statement), optional_css_span(get(statement, "selector")));
            spans.push(own);
            if let Some(block) = get_block_statements(statement) {
                proof {
                    lemma_list_model(block@, block@.len());
                }
                collect_qualified_rule_spans(block, spans);
            }
            assert(spans@ =~= before + (seq![own] + inside));
        } else if is_kind(statement, "AtRule") {
            if let Some(block) = get_block_statements(statement) {
                proof {
                    lemma_list_model(block@, block@.len());
                }
                collect_qualified_rule_spans(block, spans);
            }
            assert(spans@ =~= before + inside);
        } else {
            assert(spans@ =~= before + Seq::empty());
        }
        n += 1;
        assert(spans@ =~= start + rule_spans(models, n as nat));
    }
}

// ---------------------------------------------------------------------------
// Conditional at-rules
// ---------------------------------------------------------------------------

/// The at-rules that apply their blocks under a condition, each with the
/// warning for a condition that no variant expresses.
pub type Conditionals = Vec<(String, String)>;

/// The models of [`Conditionals`].
pub type ConditionalModels = Seq<(Seq<char>, Seq<char>)>;

/// The warning for a conditional at-rule; there is none for others.
pub open spec fn condition_warning(conditionals: ConditionalModels, at_rule: TreeModel) -> Option<Seq<char>> {
    match at_name(at_rule) {
        Some(name) => entry_of(conditionals, name),
        None => None,
    }
}

/// The warning for a conditional at-rule; there is none for others.
pub fn find_condition<'a>(conditionals: &'a Conditionals, at_rule: &Tree) -> (result: Option<&'a String>)
    ensures
        optional_text(result) == condition_warning(pairs_of(conditionals@), at_rule@),
{
    match get_at_name(at_rule) {
        Some(name) => find_entry(conditionals, name.as_str()),
        None => None,
    }
}

/// Deletes a node.
pub open spec fn removal_of(tree: TreeModel) -> EditModel {
    EditModel { start: css_span(tree).0 as int, end: css_span(tree).1 as int, replacement: seq![] }
}

/// The edits that delete the conditional at-rules with an empty block among
/// the first `n` statements.
pub open spec fn emptied(conditionals: ConditionalModels, statements: Seq<TreeModel>, n: nat) -> Seq<EditModel>
    decreases statements, n,
{
    if n == 0 || n > statements.len() {
        seq![]
    } else {
        let statement = statements[n - 1];
        let mine = block_statements(statement);
        emptied(conditionals, statements, (n - 1) as nat) + if !of_kind(statement, "AtRule"@) || !has_block(statement) {
            seq![]
        } else if condition_warning(conditionals, statement) is Some && mine.len() == 0 {
            seq![removal_of(statement)]
        } else if in_block(statements, statement) {
            emptied(conditionals, mine, mine.len())
        } else {
            seq![]
        }
    }
}

/// The edits that delete conditional at-rules with an empty block.
pub fn collect_empty_conditionals(conditionals: &Conditionals, statements: &Vec<Tree>, edits: &mut Vec<Edit>)
    ensures
        views(final(edits)@) == views(old(edits)@) + emptied(
            pairs_of(conditionals@),
            list_model(statements@, statements@.len()),
            statements@.len(),
        ),
    decreases statements@,
{
    proof {
        lemma_list_model(statements@, statements@.len());
    }
    let ghost models = list_model(statements@, statements@.len());
    let ghost names = pairs_of(conditionals@);
    let ghost start = views(edits@);
    assert(start + emptied(names, models, 0) =~= start);
    let mut n: usize = 0;
    while n < statements.len()
        invariant
            n <= statements@.len(),
            names == pairs_of(conditionals@),
            models.len() == statements@.len(),
            forall|k: int| 0 <= k < statements@.len() ==> #[trigger] models[k] == tree_model(statements@[k]),
            views(edits@) == start + emptied(names, models, n as nat),
        decreases statements.len() - n,
    {
        assert(models[n as int] == tree_model(statements@[n as int]));
        let statement = &statements[n];
        assert(decreases_to!(statements@ => statements@[n as int]));
        proof {
            lemma_block_inside(models, n as int);
        }
        let ghost before = edits@;
        let ghost mine = block_statements(models[n as int]);
        let ghost added = if in_block(models, models[n as int]) {
            emptied(names, mine, mine.len())
        } else {
            seq![]
        };
        assert(mine.len() == 0 ==> added =~= Seq::empty());
        if is_kind(statement, "AtRule") && is_present(get(statement, "block")) {
            let conditional = find_condition(conditionals, statement).is_some();
            let empty = match get_block_statements(statement) {
                Some(block) => {
                    proof {
                        lemma_list_model(block@, block@.len());
                    }
                    if !(conditional && block.len() == 0) {
                        collect_empty_conditionals(conditionals, block, edits);
                    }
                    block.len() == 0
                },
                None => true,
            };
            if conditional && empty {
                let span = get_css_span(statement);
                edits.push(Edit::removal(span.0, span.1));
                assert(views(edits@) =~= views(before) + seq![removal_of(models[n as int])]);
            } else {
                assert(views(edits@) =~= views(before) + added);
            }
        } else {
            assert(views(edits@) =~= views(before) + Seq::empty());
        }
        n += 1;
        assert(views(edits@) =~= start + emptied(names, models, n as nat));
    }
}

/// The edits that delete the empty conditional at-rules of a stylesheet.
pub open spec fn sheet_emptied(conditionals: ConditionalModels, tree: TreeModel) -> Seq<EditModel> {
    let statements = items(tree, "statements"@);
    emptied(conditionals, statements, statements.len())
}

/// The edits that delete the empty conditional at-rules of a stylesheet.
pub fn find_empty_conditionals(conditionals: &Conditionals, tree: &Tree) -> (result: Vec<Edit>)
    ensures
        views(result@) == sheet_emptied(pairs_of(conditionals@), tree@),
{
    let mut edits: Vec<Edit> = Vec::new();
    assert(views(edits@) =~= Seq::empty());
    match get_items(tree, "statements") {
        Some(statements) => {
            proof {
                lemma_list_model(statements@, statements@.len());
            }
            collect_empty_conditionals(conditionals, statements, &mut edits);
            assert(views(edits@) =~= sheet_emptied(pairs_of(conditionals@), tree@));
        },
        None => {},
    }
    edits
}

/// The text without conditional at-rules that are empty, or become empty by
/// this. Deleting ends when it deletes nothing more.
pub open spec fn without_empty(
    parses: Seq<ParseModel>,
    conditionals: ConditionalModels,
    source: Seq<char>,
    syntax: StylesheetSyntax,
) -> Result<Seq<char>, HaltModel>
    decreases byte_len(source),
{
    match read_css(parses, source, syntax, ErrorKind::Planning, "Failed to parse edited CSS: "@) {
        Err(halt) => Err(halt),
        Ok(tree) => {
            let edits = sheet_emptied(conditionals, tree);
            if edits.len() == 0 {
                Ok(source)
            } else {
                match applied(source, edits) {
                    Err(message) => Err(failed(message)),
                    Ok(next) => if byte_len(next) < byte_len(source) {
                        without_empty(parses, conditionals, next, syntax)
                    } else {
                        Ok(next)
                    },
                }
            }
        },
    }
}

/// The text without conditional at-rules that are empty, or become empty by
/// this.
pub fn remove_empty_conditionals(
    parses: &Vec<Parse>,
    conditionals: &Conditionals,
    source: String,
    syntax: StylesheetSyntax,
) -> (result: Result<String, Halt>)
    ensures
        match without_empty(views(parses@), pairs_of(conditionals@), source@, syntax) {
            Ok(model) => result matches Ok(text) && text@ == model,
            Err(model) => result matches Err(halt) && halt@ == model,
        },
    decreases byte_len(source@),
{
    let tree = match parse_css(parses, source.as_str(), syntax, ErrorKind::Planning, "Failed to parse edited CSS: ") {
        Ok(tree) => tree,
        Err(halt) => {
            return Err(halt);
        },
    };
    let edits = find_empty_conditionals(conditionals, tree);
    if edits.len() == 0 {
        return Ok(source);
    }
    match apply_edits(source.as_str(), &edits) {
        Err(message) => Err(fail(message)),
        Ok(next) => if next.as_str().as_bytes().len() < source.as_str().as_bytes().len() {
            remove_empty_conditionals(parses, conditionals, next, syntax)
        } else {
            Ok(next)
        },
    }
}

} // verus!
