//! Top-level at-rule directives of a stylesheet.
//!
//! Tailwind honors `@source` and `@import` only at the top level, so
//! directive-shaped text inside rule blocks or string values never counts.
use crate::css::{
    at_name, css_span, get_at_name, get_css_span, has_block, ident_name, is_present, literal_str, optional_css_span,
    parse_css, read_css, str_value, Halt, HaltModel, Parse, ParseModel, StylesheetSyntax,
};
use crate::css_plan::{copy_part, part};
use crate::errors::ErrorKind;
use crate::stylesheet::{get_import_href, import_href, is_named};
use crate::syntax::{field, get, get_items, is_kind, items, of_kind, optional_list, text_field};
use crate::text::{
    begins, copy, is_separator, maybe, same, separates, starts_with, strip_prefix, strip_suffix, texts, to_chars, trim,
    trimmed, views, without_prefix, without_suffix, Separator,
};
use crate::tree::{lemma_list_model, list_model, tree_model, Tree, TreeModel};
use vstd::prelude::*;

verus! {

/// A top-level directive.
#[derive(Debug)]
pub enum CssDirective {
    /// A top-level `@import`, read from the parser's structured prelude.
    Import {
        /// The import target; there is none when it cannot be read statically.
        specifier: Option<String>,
        /// The target is the tailwindcss package or a subpath.
        tailwind: bool,
        /// The `source(...)` modifier: "none" or a literal path.
        source: Option<String>,
        /// A `source(...)` modifier exists but cannot be read.
        source_unreadable: bool,
    },
    /// A top-level `@source` directive, by Tailwind's own grammar.
    Source {
        not: bool,
        inline: bool,
        scope: Option<String>,
        /// The prelude does not match the supported grammar.
        unreadable: bool,
    },
    Other { name: String },
}

/// The model of a [`CssDirective`].
pub enum DirectiveModel {
    Import { specifier: Option<Seq<char>>, tailwind: bool, source: Option<Seq<char>>, source_unreadable: bool },
    Source { not: bool, inline: bool, scope: Option<Seq<char>>, unreadable: bool },
    Other { name: Seq<char> },
}

impl View for CssDirective {
    type V = DirectiveModel;

    open spec fn view(&self) -> DirectiveModel {
        match self {
            CssDirective::Import { specifier, tailwind, source, source_unreadable } => DirectiveModel::Import {
                specifier: maybe(*specifier),
                tailwind: *tailwind,
                source: maybe(*source),
                source_unreadable: *source_unreadable,
            },
            CssDirective::Source { not, inline, scope, unreadable } => DirectiveModel::Source {
                not: *not,
                inline: *inline,
                scope: maybe(*scope),
                unreadable: *unreadable,
            },
            CssDirective::Other { name } => DirectiveModel::Other { name: name@ },
        }
    }
}

// ---------------------------------------------------------------------------
// `source(...)`
// ---------------------------------------------------------------------------

/// What `source(...)` says: its value, and whether one cannot be read.
pub type SourceModel = (Option<Seq<char>>, bool);

/// What is known once a function of an import is read.
pub open spec fn with_function(known: SourceModel, function: TreeModel) -> SourceModel {
    let args = items(function, "args"@);
    if ident_name(field(function, "name"@)) != Some("source"@) {
        known
    } else if args.len() == 1 && ident_name(args[0]) == Some("none"@) {
        (Some("none"@), known.1)
    } else if args.len() == 1 && str_value(args[0]) is Some {
        (str_value(args[0]), known.1)
    } else {
        (known.0, true)
    }
}

fn read_source_function(function: &Tree, source: &mut Option<String>, unreadable: &mut bool)
    ensures
        (maybe(*final(source)), *final(unreadable)) == with_function((maybe(*old(source)), *old(unreadable)), function@),
{
    if !is_named(get(function, "name"), "source") {
        return;
    }
    if let Some(args) = get_items(function, "args") {
        proof {
            lemma_list_model(args@, args@.len());
        }
        if args.len() == 1 {
            assert(items(function@, "args"@)[0] == tree_model(args@[0]));
            if is_named(Some(&args[0]), "none") {
                *source = Some("none".to_owned());
                return;
            }
            if let Some(path) = literal_str(Some(&args[0])) {
                *source = Some(copy(path.as_str()));
                return;
            }
        }
    }
    *unreadable = true;
}

/// What is known once the functions among the first `n` nodes are read.
pub open spec fn with_functions(known: SourceModel, nodes: Seq<TreeModel>, n: int) -> SourceModel
    decreases n,
{
    if n <= 0 {
        known
    } else if of_kind(nodes[n - 1], "Function"@) {
        with_function(with_functions(known, nodes, n - 1), nodes[n - 1])
    } else {
        with_functions(known, nodes, n - 1)
    }
}

/// Some of the nodes is a function.
pub open spec fn any_function(nodes: Seq<TreeModel>) -> bool {
    exists|i: int| 0 <= i < nodes.len() && of_kind(#[trigger] nodes[i], "Function"@)
}

fn read_functions(nodes: &Vec<Tree>, source: &mut Option<String>, unreadable: &mut bool) -> (result: bool)
    ensures
        (maybe(*final(source)), *final(unreadable)) == with_functions(
            (maybe(*old(source)), *old(unreadable)),
            list_model(nodes@, nodes@.len()),
            nodes@.len() as int,
        ),
        result == any_function(list_model(nodes@, nodes@.len())),
{
    let ghost models = list_model(nodes@, nodes@.len());
    let ghost start = (maybe(*source), *unreadable);
    proof {
        lemma_list_model(nodes@, nodes@.len());
    }
    let mut found = false;
    let mut n: usize = 0;
    while n < nodes.len()
        invariant
            n <= nodes@.len(),
            models == list_model(nodes@, nodes@.len()),
            models.len() == nodes@.len(),
            forall|k: int| 0 <= k < nodes@.len() ==> #[trigger] models[k] == tree_model(nodes@[k]),
            (maybe(*source), *unreadable) == with_functions(start, models, n as int),
            found ==> any_function(models),
            !found ==> forall|k: int| 0 <= k < n ==> !of_kind(#[trigger] models[k], "Function"@),
        decreases nodes.len() - n,
    {
        assert(models[n as int] == tree_model(nodes@[n as int]));
        if is_kind(&nodes[n], "Function") {
            assert(of_kind(models[n as int], "Function"@));
            found = true;
            read_source_function(&nodes[n], source, unreadable);
        }
        n += 1;
    }
    found
}

/// The texts of the tokens among the first `n` nodes.
pub open spec fn token_texts(text: Seq<char>, nodes: Seq<TreeModel>, n: int) -> Seq<Seq<char>>
    decreases n,
{
    if n <= 0 {
        seq![]
    } else if of_kind(nodes[n - 1], "TokenWithSpan"@) {
        let span = css_span(nodes[n - 1]);
        token_texts(text, nodes, n - 1).push(part(text, span.0 as int, span.1 as int))
    } else {
        token_texts(text, nodes, n - 1)
    }
}

fn collect_token_texts(text: &str, nodes: &Vec<Tree>) -> (result: Vec<String>)
    ensures
        texts(result@) == token_texts(text@, list_model(nodes@, nodes@.len()), nodes@.len() as int),
{
    let ghost models = list_model(nodes@, nodes@.len());
    proof {
        lemma_list_model(nodes@, nodes@.len());
    }
    let mut result: Vec<String> = Vec::new();
    assert(texts(result@) =~= Seq::empty());
    let mut n: usize = 0;
    while n < nodes.len()
        invariant
            n <= nodes@.len(),
            models == list_model(nodes@, nodes@.len()),
            models.len() == nodes@.len(),
            forall|k: int| 0 <= k < nodes@.len() ==> #[trigger] models[k] == tree_model(nodes@[k]),
            texts(result@) == token_texts(text@, models, n as int),
        decreases nodes.len() - n,
    {
        assert(models[n as int] == tree_model(nodes@[n as int]));
        if is_kind(&nodes[n], "TokenWithSpan") {
            let span = get_css_span(&nodes[n]);
            let ghost before = result@;
            let piece = copy_part(text, span.0, span.1);
            let ghost model = piece@;
            result.push(piece);
            assert(texts(result@) =~= texts(before).push(model));
        }
        n += 1;
    }
    result
}

/// The token is a quoted string.
pub open spec fn quoted(token: Seq<char>) -> bool {
    token.len() > 0 && separates(Separator::Quote, token[0])
}

fn is_quoted(token: &str) -> (result: bool)
    ensures
        result == quoted(token@),
{
    let chars = to_chars(token);
    chars.len() > 0 && is_separator(Separator::Quote, chars[0])
}

/// What `source` at token `i` says: a parenthesis has to follow, then either
/// `none` or a quoted path.
pub open spec fn with_token(known: SourceModel, tokens: Seq<Seq<char>>, i: int) -> SourceModel {
    let wrapped = i + 3 < tokens.len() && tokens[i + 1] == "("@ && tokens[i + 3] == ")"@;
    if wrapped && tokens[i + 2] == "none"@ {
        (Some("none"@), known.1)
    } else if wrapped && quoted(tokens[i + 2]) {
        (Some(trimmed(tokens[i + 2], Separator::Quote)), known.1)
    } else {
        (known.0, true)
    }
}

/// What is known once every `source` among the first `n` tokens is read.
pub open spec fn with_tokens(known: SourceModel, tokens: Seq<Seq<char>>, n: int) -> SourceModel
    decreases n,
{
    if n <= 0 {
        known
    } else {
        let before = with_tokens(known, tokens, n - 1);
        if tokens[n - 1] == "source"@ {
            with_token(before, tokens, n - 1)
        } else {
            before
        }
    }
}

fn read_source_token(tokens: &Vec<String>, i: usize, source: &mut Option<String>, unreadable: &mut bool)
    requires
        i < tokens@.len(),
    ensures
        (maybe(*final(source)), *final(unreadable)) == with_token(
            (maybe(*old(source)), *old(unreadable)),
            texts(tokens@),
            i as int,
        ),
{
    assert(texts(tokens@).len() == tokens@.len());
    if tokens.len() - i > 3 && same(tokens[i + 1].as_str(), "(") && same(tokens[i + 3].as_str(), ")") {
        if same(tokens[i + 2].as_str(), "none") {
            *source = Some("none".to_owned());
            return;
        }
        if is_quoted(tokens[i + 2].as_str()) {
            *source = Some(trim(tokens[i + 2].as_str(), Separator::Quote));
            return;
        }
    }
    *unreadable = true;
}

/// Reads `source(...)` from a raw modifier token sequence.
fn read_source_tokens(text: &str, nodes: &Vec<Tree>, source: &mut Option<String>, unreadable: &mut bool)
    ensures
        ({
            let tokens = token_texts(text@, list_model(nodes@, nodes@.len()), nodes@.len() as int);
            (maybe(*final(source)), *final(unreadable)) == with_tokens(
                (maybe(*old(source)), *old(unreadable)),
                tokens,
                tokens.len() as int,
            )
        }),
{
    let ghost start = (maybe(*source), *unreadable);
    let tokens = collect_token_texts(text, nodes);
    assert(texts(tokens@).len() == tokens@.len());
    let mut n: usize = 0;
    while n < tokens.len()
        invariant
            n <= tokens@.len(),
            (maybe(*source), *unreadable) == with_tokens(start, texts(tokens@), n as int),
        decreases tokens.len() - n,
    {
        assert(texts(tokens@)[n as int] == tokens@[n as int]@);
        if same(tokens[n].as_str(), "source") {
            read_source_token(&tokens, n, source, unreadable);
        }
        n += 1;
    }
}

/// What the modifiers of an import say of its source. A lone `source(...)`
/// stands in the media-query list as a structured function; mixed with other
/// modifiers the whole tail is a raw token sequence. Both positions are read.
pub open spec fn import_source(text: Seq<char>, prelude: TreeModel) -> SourceModel {
    let queries = items(field(prelude, "media"@), "queries"@);
    let values = items(field(prelude, "modifiers"@), "values"@);
    let first = with_functions((None, false), queries, queries.len() as int);
    let second = with_functions(first, values, values.len() as int);
    if any_function(values) {
        second
    } else {
        let tokens = token_texts(text, values, values.len() as int);
        with_tokens(second, tokens, tokens.len() as int)
    }
}

fn get_items_of<'a>(tree: &'a Tree, name: &str, list: &str) -> (result: Option<&'a Vec<Tree>>)
    ensures
        optional_list(result) == items(field(tree@, name@), list@),
{
    match get(tree, name) {
        Some(inside) => get_items(inside, list),
        None => {
            assert(field(TreeModel::Null, list@) == TreeModel::Null);
            None
        },
    }
}

fn read_import_source(text: &str, prelude: &Tree) -> (result: (Option<String>, bool))
    ensures
        (maybe(result.0), result.1) == import_source(text@, prelude@),
{
    let mut source: Option<String> = None;
    let mut unreadable = false;
    if let Some(queries) = get_items_of(prelude, "media", "queries") {
        proof {
            lemma_list_model(queries@, queries@.len());
        }
        read_functions(queries, &mut source, &mut unreadable);
    }
    if let Some(values) = get_items_of(prelude, "modifiers", "values") {
        proof {
            lemma_list_model(values@, values@.len());
        }
        let structured = read_functions(values, &mut source, &mut unreadable);
        if !structured {
            read_source_tokens(text, values, &mut source, &mut unreadable);
        }
    }
    (source, unreadable)
}

/// The target is the tailwindcss package or a subpath.
pub open spec fn names_tailwind(specifier: Option<Seq<char>>) -> bool {
    match specifier {
        Some(text) => text == "tailwindcss"@ || begins(text, "tailwindcss/"@),
        None => false,
    }
}

/// What an `@import` says.
pub open spec fn import_directive_of(text: Seq<char>, at_rule: TreeModel) -> DirectiveModel {
    let prelude = field(at_rule, "prelude"@);
    if of_kind(prelude, "ImportPrelude"@) {
        let specifier = import_href(field(prelude, "href"@));
        let read = import_source(text, prelude);
        DirectiveModel::Import {
            specifier,
            tailwind: names_tailwind(specifier),
            source: read.0,
            source_unreadable: read.1,
        }
    } else {
        DirectiveModel::Import { specifier: None, tailwind: false, source: None, source_unreadable: false }
    }
}

fn import_directive(text: &str, at_rule: &Tree) -> (result: CssDirective)
    ensures
        result@ == import_directive_of(text@, at_rule@),
{
    let prelude = match get(at_rule, "prelude") {
        Some(prelude) => if is_kind(prelude, "ImportPrelude") {
            Some(prelude)
        } else {
            None
        },
        None => {
            assert(text_field(TreeModel::Null, "type"@) is None);
            None
        },
    };
    match prelude {
        None => CssDirective::Import { specifier: None, tailwind: false, source: None, source_unreadable: false },
        Some(prelude) => {
            let specifier = match get_import_href(get(prelude, "href")) {
                Some(href) => Some(copy(href.as_str())),
                None => None,
            };
            let tailwind = match &specifier {
                Some(text) => same(text.as_str(), "tailwindcss") || starts_with(text.as_str(), "tailwindcss/"),
                None => false,
            };
            let (source, source_unreadable) = read_import_source(text, prelude);
            CssDirective::Import { specifier, tailwind, source, source_unreadable }
        },
    }
}

// ---------------------------------------------------------------------------
// `@source`
// ---------------------------------------------------------------------------

/// Whether the text is negated, and what follows an optional `not`.
pub open spec fn negated(text: Seq<char>) -> (bool, Seq<char>) {
    match without_prefix(text, "not"@) {
        Some(rest) => if rest.len() > 0 && separates(Separator::Whitespace, rest[0]) {
            (true, trimmed(rest, Separator::Whitespace))
        } else {
            (false, text)
        },
        None => (false, text),
    }
}

fn read_negated(text: String) -> (result: (bool, String))
    ensures
        (result.0, result.1@) == negated(text@),
{
    if let Some(rest) = strip_prefix(text.as_str(), "not") {
        let chars = to_chars(rest.as_str());
        if chars.len() > 0 && is_separator(Separator::Whitespace, chars[0]) {
            return (true, trim(rest.as_str(), Separator::Whitespace));
        }
    }
    (false, text)
}

/// The text between a pair of these quotes.
pub open spec fn between(text: Seq<char>, quote: Seq<char>) -> Option<Seq<char>> {
    match without_prefix(text, quote) {
        Some(inner) => without_suffix(inner, quote),
        None => None,
    }
}

fn strip_between(text: &str, quote: &str) -> (result: Option<String>)
    ensures
        maybe(result) == between(text@, quote@),
{
    match strip_prefix(text, quote) {
        Some(inner) => strip_suffix(inner.as_str(), quote),
        None => None,
    }
}

/// The text between double or single quotes.
pub open spec fn unquoted(text: Seq<char>) -> Option<Seq<char>> {
    match between(text, "\""@) {
        Some(inner) => Some(inner),
        None => between(text, "'"@),
    }
}

/// What the prelude of `@source` says: an optional `not`, then a quoted scope
/// or an `inline(...)` list. A prelude that is neither, an empty one among
/// them, cannot be read.
pub open spec fn source_directive_of(prelude: Seq<char>) -> DirectiveModel {
    let (not, rest) = negated(trimmed(prelude, Separator::Whitespace));
    if begins(rest, "inline("@) {
        DirectiveModel::Source { not, inline: true, scope: None, unreadable: false }
    } else {
        match unquoted(rest) {
            Some(scope) => if scope.len() > 0 {
                DirectiveModel::Source { not, inline: false, scope: Some(scope), unreadable: false }
            } else {
                DirectiveModel::Source { not, inline: false, scope: None, unreadable: true }
            },
            None => DirectiveModel::Source { not, inline: false, scope: None, unreadable: true },
        }
    }
}

/// What the prelude of `@source` says.
pub fn source_directive(prelude: &str) -> (result: CssDirective)
    ensures
        result@ == source_directive_of(prelude@),
{
    let (not, rest) = read_negated(trim(prelude, Separator::Whitespace));
    if starts_with(rest.as_str(), "inline(") {
        return CssDirective::Source { not, inline: true, scope: None, unreadable: false };
    }
    let scope = match strip_between(rest.as_str(), "\"") {
        Some(inner) => Some(inner),
        None => strip_between(rest.as_str(), "'"),
    };
    if let Some(scope) = scope {
        if to_chars(scope.as_str()).len() > 0 {
            return CssDirective::Source { not, inline: false, scope: Some(scope), unreadable: false };
        }
    }
    CssDirective::Source { not, inline: false, scope: None, unreadable: true }
}

/// The text without the prefix, however often it stands there.
pub open spec fn without_prefixes(text: Seq<char>, prefix: Seq<char>) -> Seq<char>
    decreases text.len(),
{
    match without_prefix(text, prefix) {
        Some(rest) => if rest.len() < text.len() {
            without_prefixes(rest, prefix)
        } else {
            text
        },
        None => text,
    }
}

fn strip_source(text: String) -> (result: String)
    ensures
        result@ == without_prefixes(text@, "@source"@),
{
    let ghost start = text@;
    proof {
        reveal_strlit("@source");
    }
    let mut rest = text;
    let mut next = strip_prefix(rest.as_str(), "@source");
    while next.is_some()
        invariant
            "@source"@.len() > 0,
            without_prefixes(rest@, "@source"@) == without_prefixes(start, "@source"@),
            maybe(next) == without_prefix(rest@, "@source"@),
        decreases rest@.len(),
    {
        if let Some(shorter) = next {
            rest = shorter;
        }
        next = strip_prefix(rest.as_str(), "@source");
    }
    rest
}

/// The text of an at-rule before its block.
pub open spec fn at_text(text: Seq<char>, at_rule: TreeModel) -> Seq<char> {
    let end = if has_block(at_rule) {
        css_span(field(at_rule, "block"@)).0
    } else {
        css_span(at_rule).1
    };
    part(text, css_span(at_rule).0 as int, end as int)
}

// ---------------------------------------------------------------------------
// Statements
// ---------------------------------------------------------------------------

/// What an at-rule directs.
pub open spec fn directive_of(text: Seq<char>, at_rule: TreeModel, name: Seq<char>) -> DirectiveModel {
    if name == "import"@ {
        import_directive_of(text, at_rule)
    } else if name == "source"@ {
        source_directive_of(
            without_prefixes(trimmed(at_text(text, at_rule), Separator::Whitespace), "@source"@),
        )
    } else {
        DirectiveModel::Other { name }
    }
}

fn read_directive(text: &str, at_rule: &Tree, name: &str) -> (result: CssDirective)
    ensures
        result@ == directive_of(text@, at_rule@, name@),
{
    if same(name, "import") {
        import_directive(text, at_rule)
    } else if same(name, "source") {
        let block = get(at_rule, "block");
        let span = get_css_span(at_rule);
        let end = if is_present(block) {
            optional_css_span(block).0
        } else {
            span.1
        };
        let written = trim(copy_part(text, span.0, end).as_str(), Separator::Whitespace);
        source_directive(strip_source(written).as_str())
    } else {
        CssDirective::Other { name: copy(name) }
    }
}

/// The directives among the first `n` statements.
pub open spec fn directives(text: Seq<char>, statements: Seq<TreeModel>, n: int) -> Seq<DirectiveModel>
    decreases n,
{
    if n <= 0 {
        seq![]
    } else {
        let before = directives(text, statements, n - 1);
        let statement = statements[n - 1];
        match at_name(statement) {
            Some(name) => if of_kind(statement, "AtRule"@) {
                before.push(directive_of(text, statement, name))
            } else {
                before
            },
            None => before,
        }
    }
}

fn collect_directives(text: &str, statements: &Vec<Tree>) -> (result: Vec<CssDirective>)
    ensures
        views(result@) == directives(
            text@,
            list_model(statements@, statements@.len()),
            statements@.len() as int,
        ),
{
    let ghost models = list_model(statements@, statements@.len());
    proof {
        lemma_list_model(statements@, statements@.len());
    }
    let mut result: Vec<CssDirective> = Vec::new();
    assert(views(result@) =~= Seq::empty());
    let mut n: usize = 0;
    while n < statements.len()
        invariant
            n <= statements@.len(),
            models == list_model(statements@, statements@.len()),
            models.len() == statements@.len(),
            forall|k: int| 0 <= k < statements@.len() ==> #[trigger] models[k] == tree_model(statements@[k]),
            views(result@) == directives(text@, models, n as int),
        decreases statements.len() - n,
    {
        let statement = &statements[n];
        assert(models[n as int] == tree_model(statements@[n as int]));
        if is_kind(statement, "AtRule") {
            if let Some(name) = get_at_name(statement) {
                let directive = read_directive(text, statement, name.as_str());
                let ghost before = result@;
                let ghost model = directive@;
                result.push(directive);
                assert(views(result@) =~= views(before).push(model));
            }
        }
        n += 1;
    }
    result
}

/// The directives of a stylesheet.
pub open spec fn css_directives(parses: Seq<ParseModel>, source: Seq<char>) -> Result<Seq<DirectiveModel>, HaltModel> {
    match read_css(parses, source, StylesheetSyntax::Css, ErrorKind::AuthoredStylesheetParse, "Failed to parse stylesheet: "@) {
        Err(halt) => Err(halt),
        Ok(tree) => Ok(
            directives(source, items(tree, "statements"@), items(tree, "statements"@).len() as int),
        ),
    }
}

/// The top-level directives of a stylesheet.
pub fn collect_css_directives(parses: &Vec<Parse>, source: &str) -> (result: Result<Vec<CssDirective>, Halt>)
    ensures
        match css_directives(views(parses@), source@) {
            Ok(model) => result matches Ok(list) && views(list@) == model,
            Err(model) => result matches Err(halt) && halt@ == model,
        },
{
    match parse_css(parses, source, StylesheetSyntax::Css, ErrorKind::AuthoredStylesheetParse, "Failed to parse stylesheet: ") {
        Err(halt) => Err(halt),
        Ok(tree) => match get_items(tree, "statements") {
            Some(statements) => {
                proof {
                    lemma_list_model(statements@, statements@.len());
                }
                Ok(collect_directives(source, statements))
            },
            None => {
                let none: Vec<CssDirective> = Vec::new();
                assert(views(none@) =~= Seq::empty());
                Ok(none)
            },
        },
    }
}

} // verus!
