//! Planning batches end to end, over small stylesheets whose trees are built
//! here.
use tw_migrate::batch::plan_batch;
use tw_migrate::css::{Halt, Parse, StylesheetSyntax};
use tw_migrate::css_plan::{Converter, Declared, MovableAtRule, Spaced, Spacing};
use tw_migrate::edit::{apply_edits, Edit};
use tw_migrate::errors::{is_recoverable_input_error, native_error_reason, ErrorKind, MigrationError};
use tw_migrate::html_rewrite::plan_vue_module_file;
use tw_migrate::media_gate::{CandidateParts, Utilities};
use tw_migrate::plan::{Candidates, Conflicts};
use tw_migrate::planner::PlanResponse;
use tw_migrate::request::{BatchPlanRequest, BatchStylesheet, Settings, SourceMapping, VueBlock};
use tw_migrate::request_rules::{Appended, Knowledge};
use tw_migrate::rules::RuleId;
use tw_migrate::selector::SelectorKey;
use tw_migrate::shadow::{Shadow, ShadowEntry};
use tw_migrate::source::{HtmlAttribute, HtmlElement, HtmlStylesheet, ModuleBinding, SourceFile};
use tw_migrate::tree::Tree;

// ---------------------------------------------------------------------------
// Trees of small stylesheets
// ---------------------------------------------------------------------------

fn span(start: usize, end: usize) -> Tree {
    Tree::Node(vec![
        ("start".to_string(), Tree::Number(Some(start as u64))),
        ("end".to_string(), Tree::Number(Some(end as u64))),
    ])
}

fn node(kind: &str, start: usize, end: usize, fields: Vec<(&str, Tree)>) -> Tree {
    let mut all = vec![("type".to_string(), Tree::Text(kind.to_string())), ("span".to_string(), span(start, end))];
    for (name, value) in fields {
        all.push((name.to_string(), value));
    }
    Tree::Node(all)
}

fn text(value: &str) -> Tree {
    Tree::Text(value.to_string())
}

struct Css<'a> {
    source: &'a str,
    syntax: StylesheetSyntax,
    at: usize,
}

fn is_name(c: u8) -> bool {
    c.is_ascii_alphanumeric() || c == b'-' || c == b'_'
}

impl<'a> Css<'a> {
    fn byte(&self) -> Option<u8> {
        self.source.as_bytes().get(self.at).copied()
    }

    fn starts(&self, part: &str) -> bool {
        self.source[self.at..].starts_with(part)
    }

    fn skip(&mut self) {
        loop {
            if self.byte().is_some_and(|c| c.is_ascii_whitespace()) {
                self.at += 1;
            } else if self.starts("/*") {
                self.at = self.source[self.at..].find("*/").map_or(self.source.len(), |end| self.at + end + 2);
            } else {
                break;
            }
        }
    }

    /// The first of the stops outside strings, parentheses and interpolations.
    fn find(&self, from: usize, end: usize, stops: &[u8]) -> usize {
        let bytes = self.source.as_bytes();
        let mut depth = 0;
        let mut at = from;
        while at < end {
            let c = bytes[at];
            if c == b'"' || c == b'\'' {
                at += 1;
                while at < end && bytes[at] != c {
                    if bytes[at] == b'\\' {
                        at += 1;
                    }
                    at += 1;
                }
            } else if c == b'#' && at + 1 < end && bytes[at + 1] == b'{' {
                while at < end && bytes[at] != b'}' {
                    at += 1;
                }
            } else if depth == 0 && stops.contains(&c) {
                return at;
            } else if c == b'(' {
                depth += 1;
            } else if c == b')' {
                depth -= 1;
            }
            at += 1;
        }
        end
    }

    fn trimmed(&self, mut start: usize, mut end: usize) -> (usize, usize) {
        let bytes = self.source.as_bytes();
        while start < end && bytes[start].is_ascii_whitespace() {
            start += 1;
        }
        while start < end && bytes[end - 1].is_ascii_whitespace() {
            end -= 1;
        }
        (start, end)
    }

    fn ident(&self, start: usize, end: usize) -> Tree {
        let name = &self.source[start..end];
        if name.contains("#{") {
            node("SassInterpolatedIdent", start, end, vec![])
        } else {
            node("Ident", start, end, vec![("name", text(name)), ("raw", text(name))])
        }
    }

    fn string(&self, start: usize, end: usize) -> Tree {
        let value = &self.source[start + 1..end - 1];
        if value.contains("#{") {
            node("SassInterpolatedStr", start, end, vec![])
        } else {
            node("Str", start, end, vec![("value", text(value)), ("raw", text(&self.source[start..end]))])
        }
    }

    fn value(&self, start: usize, end: usize) -> Tree {
        let bytes = self.source.as_bytes();
        if bytes[start] == b'"' || bytes[start] == b'\'' {
            self.string(start, end)
        } else if bytes[start..end].iter().all(|c| is_name(*c)) {
            self.ident(start, end)
        } else if let Some(open) = self.source[start..end].find('(') {
            let args = self.values(start + open + 1, end - 1);
            node("Function", start, end, vec![("name", self.ident(start, start + open)), ("args", Tree::List(args))])
        } else {
            node("Other", start, end, vec![])
        }
    }

    fn values(&self, start: usize, end: usize) -> Vec<Tree> {
        let mut list = Vec::new();
        let mut at = start;
        while at < end {
            let stop = self.find(at, end, b" \t\n,");
            if stop > at {
                list.push(self.value(at, stop));
            }
            at = stop + 1;
        }
        list
    }

    fn selector(&self, start: usize, end: usize) -> Tree {
        let bytes = self.source.as_bytes();
        let mut children = Vec::new();
        let mut at = start;
        while at < end {
            let gap = at;
            while at < end && bytes[at].is_ascii_whitespace() {
                at += 1;
            }
            let mark = at;
            let mut kind = "Descendant";
            if self.source[at..end].starts_with("/deep/") {
                kind = "Deep";
                at += "/deep/".len();
            } else if bytes[at] == b'>' {
                kind = "Child";
                at += 1;
            } else if bytes[at] == b'+' {
                kind = "NextSibling";
                at += 1;
            } else if bytes[at] == b'~' {
                kind = "LaterSibling";
                at += 1;
            }
            while at < end && bytes[at].is_ascii_whitespace() {
                at += 1;
            }
            if at > gap {
                children.push(node("Combinator", mark, at, vec![("kind", text(kind))]));
            }
            let compound = at;
            let mut simples = Vec::new();
            while at < end && !bytes[at].is_ascii_whitespace() && !b">+~/".contains(&bytes[at]) {
                let first = at;
                if bytes[at] == b'.' || bytes[at] == b'#' {
                    let kind = if bytes[at] == b'.' { "ClassSelector" } else { "IdSelector" };
                    at += 1;
                    let name = at;
                    at = self.name_end(at, end);
                    simples.push(node(kind, first, at, vec![("name", self.ident(name, at))]));
                } else if bytes[at] == b':' {
                    let kind = if bytes[at + 1] == b':' { "PseudoElementSelector" } else { "PseudoClassSelector" };
                    while bytes[at] == b':' {
                        at += 1;
                    }
                    let name = at;
                    at = self.name_end(at, end);
                    let name = self.ident(name, at);
                    let mut arg = Tree::Null;
                    if at < end && bytes[at] == b'(' {
                        let close = self.find(at + 1, end, b")");
                        arg = node(
                            "PseudoClassSelectorArg",
                            at,
                            close + 1,
                            vec![
                                ("kind", self.selectors(at + 1, close)),
                                ("lParen", span(at, at + 1)),
                                ("rParen", span(close, close + 1)),
                            ],
                        );
                        at = close + 1;
                    }
                    simples.push(node(kind, first, at, vec![("name", name), ("arg", arg)]));
                } else if bytes[at] == b'*' {
                    at += 1;
                    simples.push(node("UniversalSelector", first, at, vec![]));
                } else if bytes[at] == b'&' {
                    at = self.name_end(at + 1, end);
                    let suffix = if at > first + 1 { self.ident(first + 1, at) } else { Tree::Null };
                    simples.push(node("NestingSelector", first, at, vec![("suffix", suffix)]));
                } else {
                    at = self.name_end(at, end).max(at + 1);
                    let name = node("WqName", first, at, vec![("name", self.ident(first, at))]);
                    simples.push(node("TagNameSelector", first, at, vec![("name", name)]));
                }
            }
            children.push(node("CompoundSelector", compound, at, vec![("children", Tree::List(simples))]));
        }
        node("ComplexSelector", start, end, vec![("children", Tree::List(children))])
    }

    fn name_end(&self, start: usize, end: usize) -> usize {
        let bytes = self.source.as_bytes();
        let mut at = start;
        while at < end {
            if is_name(bytes[at]) {
                at += 1;
            } else if self.source[at..end].starts_with("#{") {
                at += self.source[at..end].find('}').unwrap() + 1;
            } else {
                break;
            }
        }
        at
    }

    fn selectors(&self, start: usize, end: usize) -> Tree {
        let mut list = Vec::new();
        let mut at = start;
        while at <= end {
            let stop = self.find(at, end, b",");
            let (from, to) = self.trimmed(at, stop);
            if from < to {
                list.push(self.selector(from, to));
            }
            at = stop + 1;
        }
        node("SelectorList", start, end, vec![("selectors", Tree::List(list))])
    }

    fn block(&mut self) -> Result<Tree, String> {
        let start = self.at;
        self.at += 1;
        let statements = self.statements(true)?;
        self.at += 1;
        Ok(node("SimpleBlock", start, self.at, vec![("statements", Tree::List(statements))]))
    }

    fn declaration(&mut self, end: usize) -> Tree {
        let start = self.at;
        let colon = start + self.source[start..end].find(':').unwrap();
        let (from, to) = self.trimmed(colon + 1, end);
        let important = if self.source[from..to].ends_with("!important") {
            node("ImportantAnnotation", to - "!important".len(), to, vec![])
        } else {
            Tree::Null
        };
        self.at = end;
        node(
            "Declaration",
            start,
            to,
            vec![
                ("name", self.ident(start, self.trimmed(start, colon).1)),
                ("colonSpan", span(colon, colon + 1)),
                ("value", Tree::List(self.values(from, to))),
                ("important", important),
            ],
        )
    }

    fn href(&self, start: usize, end: usize) -> (Tree, usize) {
        if self.source[start..end].starts_with("url(") {
            let close = self.find(start + 4, end, b")");
            let value = if self.source.as_bytes()[start + 4] == b'"' {
                self.string(start + 4, close)
            } else {
                node("UrlRaw", start + 4, close, vec![("value", text(&self.source[start + 4..close]))])
            };
            (node("Url", start, close + 1, vec![("value", value)]), close + 1)
        } else {
            let close = start + 1 + self.source[start + 1..end].find('"').unwrap() + 1;
            (self.string(start, close), close)
        }
    }

    fn tokens(&self, start: usize, end: usize) -> Vec<Tree> {
        let bytes = self.source.as_bytes();
        let mut list = Vec::new();
        let mut at = start;
        while at < end {
            let first = at;
            if bytes[at].is_ascii_whitespace() {
                at += 1;
                continue;
            }
            if bytes[at] == b'"' {
                at += self.source[at + 1..end].find('"').unwrap() + 2;
            } else if is_name(bytes[at]) {
                at = self.name_end(at, end);
            } else {
                at += 1;
            }
            list.push(node("TokenWithSpan", first, at, vec![]));
        }
        list
    }

    fn prelude(&self, name: &str, start: usize, end: usize) -> Tree {
        if start >= end {
            return Tree::Null;
        }
        let sass = self.syntax == StylesheetSyntax::Scss || self.syntax == StylesheetSyntax::Sass;
        match name {
            "import" if sass => {
                node("SassImportPrelude", start, end, vec![("paths", Tree::List(vec![self.string(start, end)]))])
            }
            "import" if self.syntax == StylesheetSyntax::Less => {
                let at = start + self.source[start..end].find('"').unwrap();
                node("LessImportPrelude", start, end, vec![("href", self.href(at, end).0)])
            }
            "import" => {
                let (href, at) = self.href(start, end);
                let (from, to) = self.trimmed(at, end);
                let rest = &self.source[from..to];
                let mut fields = vec![("href", href)];
                if rest.matches('(').count() > 1 {
                    let values = Tree::List(self.tokens(from, to));
                    fields.push(("modifiers", node("ComponentValues", from, to, vec![("values", values)])));
                } else if !rest.is_empty() {
                    let queries = if rest.contains('(') { vec![self.value(from, to)] } else { vec![] };
                    let queries = Tree::List(queries);
                    fields.push(("media", node("MediaQueryList", from, to, vec![("queries", queries)])));
                }
                node("ImportPrelude", start, end, fields)
            }
            "use" => node("SassUse", start, end, vec![("path", self.string(start, end))]),
            "forward" => node("SassForward", start, end, vec![("path", self.string(start, end))]),
            "keyframes" | "property" => {
                let from = self.source[start..end].rfind(' ').map_or(start, |space| start + space + 1);
                self.ident(from, end)
            }
            _ => node("UnknownAtRulePrelude", start, end, vec![]),
        }
    }

    fn at_rule(&mut self) -> Result<Tree, String> {
        let start = self.at;
        self.at += 1;
        let name_start = self.at;
        self.at = self.name_end(self.at, self.source.len());
        let name_end = self.at;
        let name = self.source[name_start..name_end].to_string();
        let stop = self.find(self.at, self.source.len(), b";{}");
        let (from, to) = self.trimmed(self.at, stop);
        if self.source[from..to].contains('\u{b}') {
            return Err("unexpected token".to_string());
        }
        let prelude = self.prelude(&name, from, to);
        self.at = stop;
        let mut block = Tree::Null;
        let mut end = to.max(name_end);
        if self.byte() == Some(b'{') {
            block = self.block()?;
            end = self.at;
            if name == "keyframes" {
                block = rename_rules(block);
            }
        }
        let label = node("Ident", name_start, name_end, vec![("name", text(&name))]);
        Ok(node("AtRule", start, end, vec![("name", label), ("prelude", prelude), ("block", block)]))
    }

    fn statements(&mut self, nested: bool) -> Result<Vec<Tree>, String> {
        let mut list = Vec::new();
        loop {
            self.skip();
            match self.byte() {
                None if nested => return Err("unclosed block".to_string()),
                None => return Ok(list),
                Some(b'}') if nested => return Ok(list),
                Some(b';') => self.at += 1,
                Some(b'@') => list.push(self.at_rule()?),
                Some(first) => {
                    let stop = self.find(self.at, self.source.len(), b"{};");
                    if stop < self.source.len() && self.source.as_bytes()[stop] == b'{' {
                        let start = self.at;
                        let to = self.trimmed(start, stop).1;
                        let selector = self.selectors(start, to);
                        self.at = stop;
                        let block = self.block()?;
                        let fields = vec![("selector", selector), ("block", block)];
                        list.push(node("QualifiedRule", start, self.at, fields));
                    } else if first == b'$' && self.syntax != StylesheetSyntax::Css {
                        list.push(node("SassVariableDeclaration", self.at, stop, vec![]));
                        self.at = stop;
                    } else if nested {
                        list.push(self.declaration(stop));
                    } else {
                        return Err("unexpected token".to_string());
                    }
                }
            }
        }
    }

    /// The statements of the indented syntax: rules of one line each, with
    /// their declarations indented below.
    fn indented(&mut self) -> Vec<Tree> {
        let mut list = Vec::new();
        while self.at < self.source.len() {
            let start = self.at;
            let end = self.source[start..].find('\n').map_or(self.source.len(), |line| start + line);
            if self.starts("@") {
                self.at = self.name_end(start + 1, end);
                let name = self.source[start + 1..self.at].to_string();
                let prelude = self.prelude(&name, self.at + 1, end);
                let label = node("Ident", start + 1, self.at, vec![("name", text(&name))]);
                list.push(node("AtRule", start, end, vec![("name", label), ("prelude", prelude)]));
                self.at = end + 1;
            } else {
                let selector = self.selectors(start, end);
                self.at = end + 1;
                let mut statements = Vec::new();
                while self.starts("  ") {
                    self.at += 2;
                    let stop = self.source[self.at..].find('\n').map_or(self.source.len(), |line| self.at + line);
                    statements.push(self.declaration(stop));
                    self.at += 1;
                }
                let block = node("SimpleBlock", end, self.at, vec![("statements", Tree::List(statements))]);
                list.push(node("QualifiedRule", start, self.at, vec![("selector", selector), ("block", block)]));
            }
        }
        list
    }
}

/// The blocks of keyframes are no style rules.
fn rename_rules(tree: Tree) -> Tree {
    match tree {
        Tree::Node(fields) => Tree::Node(
            fields
                .into_iter()
                .map(|(name, value)| {
                    let value = if name == "statements" {
                        match value {
                            Tree::List(items) => Tree::List(items.into_iter().map(rename_rules).collect()),
                            other => other,
                        }
                    } else if name == "type" && matches!(&value, Tree::Text(kind) if kind == "QualifiedRule") {
                        text("KeyframeBlock")
                    } else {
                        value
                    };
                    (name, value)
                })
                .collect(),
        ),
        other => other,
    }
}

fn parse(source: &str, syntax: StylesheetSyntax) -> Parse {
    let mut css = Css { source, syntax, at: 0 };
    let statements =
        if syntax == StylesheetSyntax::Sass { Ok(css.indented()) } else { css.statements(false) };
    Parse {
        text: source.to_string(),
        syntax,
        outcome: statements.map(|list| node("Stylesheet", 0, source.len(), vec![("statements", Tree::List(list))])),
    }
}

// ---------------------------------------------------------------------------
// Requests
// ---------------------------------------------------------------------------

fn texts(list: &[&str]) -> Vec<String> {
    list.iter().map(|item| item.to_string()).collect()
}

fn pairs(list: &[(&str, &str)]) -> Vec<(String, String)> {
    list.iter().map(|(a, b)| (a.to_string(), b.to_string())).collect()
}

fn declared(property: &str, value: &str, outcome: Result<&str, &str>) -> Declared {
    Declared {
        property: property.to_string(),
        value: value.to_string(),
        outcome: outcome.map(str::to_string).map_err(str::to_string),
    }
}

fn shadow(css: &str, module: bool, classes: &[&str], types: &[&str], unverifiable: bool) -> ShadowEntry {
    ShadowEntry {
        css: css.to_string(),
        module,
        shadow: Shadow { classes: texts(classes), types: texts(types), ids: Vec::new(), unverifiable },
    }
}

fn knowledge() -> Knowledge {
    let conflicts = [("p-[13px]", "p-2"), ("p-[13px]", "p-[8px]"), ("p-[8px]", "p-[13px]")];
    Knowledge {
        parses: Vec::new(),
        converter: Converter {
            conditionals: pairs(&[("media", "unsupported-media"), ("supports", "unsupported-supports")]),
            variants: pairs(&[("@media print", "print")]),
            declarations: vec![
                declared("padding", "13px", Ok("p-[13px]")),
                declared("padding", "8px", Ok("p-[8px]")),
                declared("padding", "4px", Ok("p-[4px]")),
                declared("margin", "7px", Ok("m-[7px]")),
                declared("margin", "3px", Ok("m-[3px]")),
                declared("color", "red", Ok("text-[red]")),
                declared("color", "v-bind(theme)", Err("unsupported-value")),
                declared("height", "100vh", Ok("h-[100vh]")),
                declared("display", "grid", Ok("grid")),
                declared("content", "\"\\\"\"", Ok("[content:\"\\\"\"]")),
                declared("content", "'x'", Ok("[content:'x']")),
                declared("font-family", "\"My Font\", sans-serif", Ok("font-[\"My_Font\",sans-serif]")),
                declared("font-family", "\"My Font\"", Ok("font-[\"My_Font\"]")),
                declared("font-family", "Arial", Ok("font-[Arial]")),
            ],
            spacings: Vec::new(),
            movable: Vec::new(),
        },
        utilities: Utilities {
            conflicts: Conflicts { pairs: pairs(&conflicts) },
            property_conflicts: Conflicts { pairs: pairs(&[("padding", "padding"), ("margin", "margin")]) },
            same_variants: Conflicts { pairs: Vec::new() },
            parts: Vec::new(),
            bounds: Vec::new(),
        },
        shadows: vec![
            shadow(".card {}", false, &["card"], &[], false),
            shadow(".card { padding: 20px; }", false, &["card"], &[], false),
            shadow(".card { padding: 20px; }", true, &[], &[], false),
            shadow("p { padding: 20px; }", false, &[], &["p"], false),
            shadow("p { padding: 20px; }", true, &[], &["p"], false),
            shadow("article { padding: 20px; }", false, &[], &["article"], false),
            shadow("div.card { padding: 20px; } .cardio { top: 0; }", false, &["card", "cardio"], &["div"], false),
            shadow(".cardio { top: 0; }", false, &["cardio"], &[], false),
            shadow(".foo { padding: 20px; }", false, &["foo"], &[], false),
            shadow(".legacy {}", false, &["legacy"], &[], false),
            shadow(".bad {}", false, &["bad"], &[], false),
            shadow(".ancestor > * {}", false, &["ancestor"], &[], true),
            shadow(":global(.unrelated) { padding: 20px; }", true, &["unrelated"], &[], false),
            shadow(":global(.card) { padding: 20px; }", true, &["card"], &[], false),
            shadow(":global .card { padding: 20px; }", true, &[], &[], true),
        ],
        appended: Vec::new(),
    }
}

fn settings() -> Settings {
    Settings {
        tailwind_path: None,
        tailwind_source: None,
        utility_prefix: None,
        theme_tokens: Vec::new(),
        media_names: None,
        entry_writable: true,
        global_at_rule_moves: true,
    }
}

fn sheet(path: &str, source: &str) -> BatchStylesheet {
    BatchStylesheet {
        global_at_rule_moves: None,
        css_path: path.to_string(),
        css_source: source.to_string(),
        analysis_source: None,
        source_mappings: Vec::new(),
        syntax: StylesheetSyntax::Css,
        is_module: None,
        is_partial: false,
        css_module_id: None,
        css_dependents: Vec::new(),
        vue_blocks: Vec::new(),
        vue_module: false,
        vue_retention: None,
        vue_unscoped: false,
        vue_shadow_css: Vec::new(),
        vue_shadow_module_css: Vec::new(),
        vue_shadow_unverifiable: false,
        blocked_rules: Vec::new(),
    }
}

fn file(path: &str, source: &str) -> SourceFile {
    SourceFile {
        path: path.to_string(),
        source: source.to_string(),
        writable: true,
        html_elements: Vec::new(),
        html_stylesheets: Vec::new(),
        html_references_safe: true,
        html_script_text: String::new(),
        prior_edits: Vec::new(),
    }
}

/// Plans a batch, answering what planning asks for.
fn answer(know: &mut Knowledge, request: &BatchPlanRequest) -> Result<PlanResponse, MigrationError> {
    for _ in 0..500 {
        match plan_batch(know, request) {
            Ok(response) => return Ok(response),
            Err(Halt::Failed(error)) => return Err(error),
            Err(Halt::Unparsed(text, syntax)) => know.parses.push(parse(&text, syntax)),
            Err(Halt::Unappended(source, at_rules)) => {
                let outcome = Ok(format!("{source}\n{}\n", at_rules.join("\n")));
                know.appended.push(Appended { source, at_rules, outcome });
            }
        }
    }
    panic!("planning asks for ever");
}

fn batch(stylesheets: Vec<BatchStylesheet>, files: Vec<SourceFile>) -> PlanResponse {
    let request = BatchPlanRequest { stylesheets, settings: settings(), files };
    answer(&mut knowledge(), &request).unwrap()
}

fn plan(path: &str, css: &str, file_path: &str, source: &str) -> PlanResponse {
    batch(vec![sheet(path, css)], vec![file(file_path, source)])
}

fn codes(response: &PlanResponse) -> Vec<&str> {
    response.warnings.iter().map(|warning| warning.code.as_str()).collect()
}

fn count(response: &PlanResponse, code: &str) -> usize {
    codes(response).iter().filter(|found| **found == code).count()
}

fn source_of<'a>(response: &'a PlanResponse, path: &str) -> &'a str {
    &response.files.iter().find(|file| file.path == path).unwrap().source
}

// ---------------------------------------------------------------------------
// Expressions
// ---------------------------------------------------------------------------

const CARD: &str = ".card { padding: 13px; }\n";

#[test]
fn appends_a_global_class_and_retains_the_rule() {
    let response = plan(
        "/project/global.css",
        CARD,
        "/project/Card.tsx",
        "export const Card = () => <div className='card' />;\n",
    );
    assert_eq!(response.candidates, texts(&["p-[13px]"]));
    assert_eq!(response.converted_rules, 0);
    assert_eq!(response.retained_rules, 1);
    assert_eq!(response.files[0].source, "export const Card = () => <div className=\"card p-[13px]\" />;\n");
    assert_eq!(response.warnings[0].code, "retained-global-rule");
}

#[test]
fn ignores_side_effect_imports_for_global_css() {
    let response = plan(
        "/project/global.css",
        CARD,
        "/project/Card.tsx",
        "import './global.css';\nexport const Card = () => <div className='card' />;\n",
    );
    assert!(codes(&response).iter().all(|code| *code == "retained-global-rule"));
}

#[test]
fn does_not_duplicate_a_dynamic_global_class_name() {
    let response = plan(
        "/project/global.css",
        "#hero { height: 100vh; }\n",
        "/project/Hero.tsx",
        "export const Hero = () => <main id=\"hero\" className={getClass()} />;\n",
    );
    assert!(response.files.is_empty());
    assert_eq!(codes(&response), vec!["dynamic-class-name", "retained-global-rule"]);
}

#[test]
fn does_not_flag_module_members_as_dynamic_for_global_css() {
    let response = plan(
        "/project/global.css",
        CARD,
        "/project/Card.tsx",
        "import styles from './Card.module.css';\nexport const Card = () => <div className={styles.card} />;\n",
    );
    assert_eq!(codes(&response), vec!["retained-global-rule"]);
}

#[test]
fn migrates_a_global_expression_string_literal_class_name() {
    let response = plan(
        "/project/global.css",
        CARD,
        "/project/Card.tsx",
        "export const Card = () => <div className={'card'} />;\n",
    );
    assert_eq!(response.files[0].source, "export const Card = () => <div className=\"card p-[13px]\" />;\n");
    assert_eq!(response.warnings[0].code, "retained-global-rule");
}

#[test]
fn migrates_a_global_static_template_class_name() {
    let response = plan(
        "/project/global.css",
        ".card { padding: 13px; }\n.featured { margin: 7px; }\n",
        "/project/Card.tsx",
        "export const Card = () => <div className={`card featured`} />;\n",
    );
    assert_eq!(
        response.files[0].source,
        "export const Card = () => <div className=\"card featured p-[13px] m-[7px]\" />;\n"
    );
}

#[test]
fn migrates_both_branches_of_a_global_conditional_class_name() {
    let response = plan(
        "/project/global.css",
        ".a { padding: 13px; }\n.b { margin: 7px; }\n",
        "/project/Card.tsx",
        "export const Card = ({ maybe }) => <div className={maybe ? 'a' : 'b'} />;\n",
    );
    assert_eq!(
        response.files[0].source,
        "export const Card = ({ maybe }) => <div className={maybe ? 'a p-[13px]' : 'b m-[7px]'} />;\n"
    );
    assert_eq!(count(&response, "dynamic-class-name"), 0);
}

#[test]
fn migrates_the_right_operand_of_global_logical_expressions() {
    let response = plan(
        "/project/global.css",
        CARD,
        "/project/Card.tsx",
        "export const Card = ({ active, preferred, chosen }) => <div>\n<span className={active && 'card'} />\n<span className={preferred || 'card'} />\n<span className={chosen ?? 'card'} />\n</div>;\n",
    );
    assert_eq!(
        response.files[0].source,
        "export const Card = ({ active, preferred, chosen }) => <div>\n<span className={active && 'card p-[13px]'} />\n<span className={preferred || 'card p-[13px]'} />\n<span className={chosen ?? 'card p-[13px]'} />\n</div>;\n"
    );
    assert_eq!(count(&response, "dynamic-class-name"), 0);
}

#[test]
fn warns_on_an_unsupported_identifier_result_leaf() {
    let response = plan(
        "/project/global.css",
        CARD,
        "/project/Card.tsx",
        "export const Card = ({ active }) => <div className={active ? 'card' : active} />;\n",
    );
    assert_eq!(
        response.files[0].source,
        "export const Card = ({ active }) => <div className={active ? 'card p-[13px]' : active} />;\n"
    );
    let dynamic = response.warnings.iter().find(|warning| warning.code == "dynamic-class-name").unwrap();
    assert_eq!(dynamic.file, "/project/Card.tsx");
}

#[test]
fn keeps_a_logical_left_operand_opaque() {
    let response = plan(
        "/project/Card.module.css",
        ".active { color: red; }\n",
        "/project/Card.tsx",
        "import styles from './Card.module.css';\nexport const Card = () => <div className={styles.active && 'card'} />;\n",
    );
    assert_eq!(response.converted_rules, 0);
    assert_eq!(response.retained_rules, 1);
    assert!(response.deleted_files.is_empty());
    assert!(response.files.is_empty());
    assert_eq!(count(&response, "dynamic-class-name"), 0);
}

#[test]
fn converts_only_the_final_operand_of_chained_logicals() {
    let response = plan(
        "/project/global.css",
        ".legacy { padding: 13px; }\n.base { margin: 7px; }\n",
        "/project/Card.tsx",
        "export const Card = ({ variant }) => <div className={variant || 'legacy' || 'base'} />;\n",
    );
    assert_eq!(
        response.files[0].source,
        "export const Card = ({ variant }) => <div className={variant || 'legacy' || 'base m-[7px]'} />;\n"
    );
}

#[test]
fn migrates_a_static_template_result_leaf() {
    let response = plan(
        "/project/global.css",
        CARD,
        "/project/Card.tsx",
        "export const Card = ({ ready }) => <div className={ready ? `card` : ''} />;\n",
    );
    assert_eq!(
        response.files[0].source,
        "export const Card = ({ ready }) => <div className={ready ? \"card p-[13px]\" : ''} />;\n"
    );
    assert_eq!(count(&response, "dynamic-class-name"), 0);
}

#[test]
fn warns_on_a_shadowed_undefined_result_leaf() {
    let response = plan(
        "/project/global.css",
        CARD,
        "/project/Card.tsx",
        "export const Card = (maybe, undefined) => <div className={maybe ? 'card' : undefined} />;\n",
    );
    // A local binding named `undefined` can hold a runtime class value, so
    // only the unbound global counts as a warning-free no-op leaf.
    assert_eq!(
        response.files[0].source,
        "export const Card = (maybe, undefined) => <div className={maybe ? 'card p-[13px]' : undefined} />;\n"
    );
    let dynamic = response.warnings.iter().find(|warning| warning.code == "dynamic-class-name").unwrap();
    assert_eq!(dynamic.file, "/project/Card.tsx");
}

#[test]
fn keeps_an_emptied_module_and_import_for_a_dangling_member_leaf() {
    let response = plan(
        "/project/Card.module.css",
        CARD,
        "/project/Card.tsx",
        "import styles from './Card.module.css';\nexport const Card = ({ maybe }) => <div className={maybe ? styles.card : styles.missing} />;\n",
    );
    // `styles.missing` has no rule, so nothing retains the stylesheet, but
    // deleting it would leave the source importing a missing file.
    assert_eq!(response.converted_rules, 1);
    assert!(response.deleted_files.is_empty());
    let migrated = source_of(&response, "/project/Card.tsx");
    assert!(migrated.contains("import styles from './Card.module.css';"));
    assert!(migrated.contains("className={maybe ? \"p-[13px]\" : styles.missing}"));
    assert!(source_of(&response, "/project/Card.module.css").trim().is_empty());
}

#[test]
fn keeps_an_emptied_module_and_import_for_a_dangling_static_member() {
    let response = plan(
        "/project/Card.module.css",
        CARD,
        "/project/Card.tsx",
        "import styles from './Card.module.css';\nexport const Card = () => <><div className={styles.card} /><span className={styles.missing} /></>;\n",
    );
    assert_eq!(response.converted_rules, 1);
    assert!(response.deleted_files.is_empty());
    let migrated = source_of(&response, "/project/Card.tsx");
    assert!(migrated.contains("import styles from './Card.module.css';"));
    assert!(migrated.contains("className={styles.missing}"));
}

#[test]
fn warns_once_on_a_foreign_member_leaf_beside_a_module_branch() {
    let response = batch(
        vec![
            sheet("/project/Card.module.css", CARD),
            sheet("/project/global.css", ".base { margin: 7px; }\n"),
        ],
        vec![file(
            "/project/App.tsx",
            "import styles from './Card.module.css';\nexport const App = ({ maybe, ...rest }) => <div className={maybe ? styles.card : rest.className} />;\n",
        )],
    );
    // The module pass keeps foreign members silent so another module's
    // binding never draws a spurious warning from this stylesheet's plan; the
    // global pass owns the dynamic-class-name diagnostic for the opaque
    // member leaf.
    assert_eq!(response.converted_rules, 1);
    let migrated = source_of(&response, "/project/App.tsx");
    assert!(migrated.contains("className={maybe ? \"p-[13px]\" : rest.className}"));
    assert_eq!(count(&response, "dynamic-class-name"), 1);
}

#[test]
fn treats_nullish_leaves_as_warning_free_noops() {
    let response = plan(
        "/project/global.css",
        CARD,
        "/project/Card.tsx",
        "export const Card = ({ a, b, c, d }) => <div>\n<span className={a ? 'card' : null} />\n<span className={b ? 'card' : undefined} />\n<span className={c ? 'card' : false} />\n<span className={d ? 'card' : ''} />\n</div>;\n",
    );
    assert_eq!(
        response.files[0].source,
        "export const Card = ({ a, b, c, d }) => <div>\n<span className={a ? 'card p-[13px]' : null} />\n<span className={b ? 'card p-[13px]' : undefined} />\n<span className={c ? 'card p-[13px]' : false} />\n<span className={d ? 'card p-[13px]' : ''} />\n</div>;\n"
    );
    assert!(codes(&response).iter().all(|code| *code == "retained-global-rule"));
}

#[test]
fn migrates_nested_and_wrapped_expression_results() {
    let response = plan(
        "/project/global.css",
        ".a { padding: 13px; }\n.b { margin: 7px; }\n",
        "/project/Card.tsx",
        "export const Card = ({ maybe, ready }: { maybe: boolean, ready: boolean }) => <div className={(maybe ? ('a' as string) : (ready && 'b'))} />;\n",
    );
    assert_eq!(
        response.files[0].source,
        "export const Card = ({ maybe, ready }: { maybe: boolean, ready: boolean }) => <div className={(maybe ? ('a p-[13px]' as string) : (ready && 'b m-[7px]'))} />;\n"
    );
    assert_eq!(count(&response, "dynamic-class-name"), 0);
}

#[test]
fn a_second_run_over_a_migrated_conditional_expression_is_a_no_op() {
    let response = plan(
        "/project/global.css",
        ".a { padding: 13px; }\n",
        "/project/Card.tsx",
        "export const Card = ({ maybe }) => <div className={maybe ? 'a p-[13px]' : 'b'} />;\n",
    );
    assert!(response.files.is_empty());
}

#[test]
fn migrates_conditional_css_module_branches() {
    let response = plan(
        "/project/Card.module.css",
        ".a { padding: 13px; }\n.b { margin: 7px; }\n",
        "/project/Card.tsx",
        "import styles from './Card.module.css';\nexport const Card = ({ maybe }) => <div className={maybe ? styles.a : styles.b} />;\n",
    );
    assert_eq!(response.converted_rules, 2);
    assert_eq!(response.deleted_files, texts(&["/project/Card.module.css"]));
    assert_eq!(
        response.files[0].source,
        "export const Card = ({ maybe }) => <div className={maybe ? \"p-[13px]\" : \"m-[7px]\"} />;\n"
    );
}

#[test]
fn allows_overlapping_utilities_in_opposite_conditional_branches() {
    let response = plan(
        "/project/Card.module.css",
        ".a { padding: 8px; }\n.b { padding: 4px; }\n",
        "/project/Card.tsx",
        "import styles from './Card.module.css';\nexport const Card = ({ maybe }) => <div className={maybe ? styles.a : styles.b} />;\n",
    );
    assert_eq!(response.converted_rules, 2);
    assert_eq!(response.deleted_files, texts(&["/project/Card.module.css"]));
    assert_eq!(count(&response, "module-utilities-conflict"), 0);
}

#[test]
fn keeps_an_opaque_module_condition_and_its_rule() {
    let response = plan(
        "/project/Card.module.css",
        ".enabled { color: red; }\n.a { padding: 13px; }\n",
        "/project/Card.tsx",
        "import styles from './Card.module.css';\nexport const Card = () => <div className={styles.enabled ? styles.a : null} />;\n",
    );
    assert_eq!(response.converted_rules, 1);
    assert_eq!(response.retained_rules, 1);
    assert!(response.deleted_files.is_empty());
    let source = source_of(&response, "/project/Card.tsx");
    assert!(source.contains("import styles from './Card.module.css';"));
    assert!(source.contains("className={styles.enabled ? \"p-[13px]\" : null}"));
    assert_eq!(count(&response, "dynamic-class-name"), 0);
}

#[test]
fn permits_partial_conversion_beside_an_unsupported_branch() {
    let response = plan(
        "/project/Card.module.css",
        ".a { padding: 13px; }\n",
        "/project/Card.tsx",
        "import styles from './Card.module.css';\nexport const Card = ({ maybe }) => <div className={maybe ? styles.a : getClass()} />;\n",
    );
    assert_eq!(response.converted_rules, 1);
    assert_eq!(response.deleted_files, texts(&["/project/Card.module.css"]));
    assert_eq!(
        response.files[0].source,
        "export const Card = ({ maybe }) => <div className={maybe ? \"p-[13px]\" : getClass()} />;\n"
    );
    let dynamic = response.warnings.iter().find(|warning| warning.code == "dynamic-class-name").unwrap();
    assert_eq!(dynamic.file, "/project/Card.tsx");
}

#[test]
fn warns_when_a_conditional_leaf_utility_conflicts_with_its_own_classes() {
    let response = plan(
        "/project/Card.module.css",
        CARD,
        "/project/Card.tsx",
        "import styles from './Card.module.css';\nexport const Card = ({ maybe }) => <div className={maybe ? `${styles.card} p-2` : null} />;\n",
    );
    assert_eq!(response.converted_rules, 1);
    assert_eq!(response.warnings[0].code, "existing-tailwind-conflict");
    let source = source_of(&response, "/project/Card.tsx");
    assert!(source.contains("className={maybe ? \"p-[13px] p-2\" : null}"));
}

#[test]
fn keeps_a_preserved_module_member_inside_its_conditional_branch() {
    let css = ".a { padding: 8px; }\n.a:hover { color: red; }\n";
    let blocked = RuleId { start: 0, end: ".a { padding: 8px; }".len() };
    let source = "import styles from './A.module.css';\nexport const App = ({ maybe }) => <div className={maybe ? styles.a : null} />;\n";
    let mut first = sheet("/project/A.module.css", css);
    first.blocked_rules = vec![blocked];
    let response = batch(vec![first], vec![file("/project/App.tsx", source)]);
    assert_eq!(response.converted_rules, 1);
    assert_eq!(response.retained_rules, 1);
    let migrated = source_of(&response, "/project/App.tsx");
    // The candidate joins the member inside the branch; hoisting it to a
    // static class attribute would apply it unconditionally.
    assert!(migrated.contains("className={maybe ? `${styles.a}${\" hover:text-[red]\"}` : null}"));

    let mut second = sheet("/project/A.module.css", ".a { padding: 8px; }\n");
    second.blocked_rules = vec![blocked];
    let response = batch(vec![second], vec![file("/project/App.tsx", migrated)]);
    assert!(response.files.is_empty());
}

#[test]
fn a_second_run_over_a_partially_migrated_module_expression_is_a_no_op() {
    let response = plan(
        "/project/Card.module.css",
        ".enabled { color: red; }\n",
        "/project/Card.tsx",
        "import styles from './Card.module.css';\nexport const Card = () => <div className={styles.enabled ? \"p-[13px]\" : null} />;\n",
    );
    assert!(response.files.is_empty());
    assert!(response.deleted_files.is_empty());
}

#[test]
fn retains_unsupported_result_forms_in_expressions() {
    let response = plan(
        "/project/global.css",
        CARD,
        "/project/Card.tsx",
        "export const Card = ({ a, b, c, d }) => <div>\n<span className={a ? ['card'] : 'card'} />\n<span className={b ? { card: true } : 'card'} />\n<span className={c ? clsx('card') : 'card'} />\n<span className={d ? `card-${d}` : 'card'} />\n</div>;\n",
    );
    assert_eq!(count(&response, "dynamic-class-name"), 4);
    assert_eq!(
        response.files[0].source,
        "export const Card = ({ a, b, c, d }) => <div>\n<span className={a ? ['card'] : 'card p-[13px]'} />\n<span className={b ? { card: true } : 'card p-[13px]'} />\n<span className={c ? clsx('card') : 'card p-[13px]'} />\n<span className={d ? `card-${d}` : 'card p-[13px]'} />\n</div>;\n"
    );
}

#[test]
fn quotes_a_global_candidate_containing_double_quotes() {
    let response = plan(
        "/project/global.css",
        "#hero { content: \"\\\"\"; }\n",
        "/project/Hero.tsx",
        "export const Hero = () => <main id=\"hero\" />;\n",
    );
    assert_eq!(
        response.files[0].source,
        "export const Hero = () => <main id=\"hero\" className='[content:\"\\\"\"]' />;\n"
    );
}

#[test]
fn a_second_run_over_a_migrated_global_expression_literal_is_a_no_op() {
    let response = plan(
        "/project/global.css",
        CARD,
        "/project/Card.tsx",
        "export const Card = () => <div className=\"card p-[13px]\" />;\n",
    );
    assert!(response.files.is_empty());
}

#[test]
fn keeps_a_module_reference_when_a_sibling_rule_is_unsupported() {
    let response = plan(
        "/project/Card.module.css",
        ".card { padding: 13px; }\n.card::before { content: 'x'; }\n",
        "/project/Card.tsx",
        "import styles from './Card.module.css';\nexport const Card = () => <div className={styles.card} />;\n",
    );
    assert!(response.files.is_empty());
    assert_eq!(response.converted_rules, 0);
    assert_eq!(response.retained_rules, 2);
}

#[test]
fn keeps_a_module_import_when_any_rule_is_retained() {
    let response = plan(
        "/project/Card.module.css",
        ".card { padding: 13px; }\n.other { display: grid; }\n",
        "/project/Card.tsx",
        "import styles from './Card.module.css';\nexport const Card = () => <div className={styles.card} />;\n",
    );
    let source = source_of(&response, "/project/Card.tsx");
    assert!(source.contains("import styles from './Card.module.css'"));
    assert!(source.contains("className=\"p-[13px]\""));
    assert_eq!(response.converted_rules, 1);
    assert_eq!(response.retained_rules, 1);
    assert!(response.deleted_files.is_empty());
}

// ---------------------------------------------------------------------------
// Vue components
// ---------------------------------------------------------------------------

const VUE: &str = "/project/Card.vue";

#[test]
fn the_last_of_duplicate_declarations_wins() {
    let source = "import styles from './Button.module.css';\nexport const Button = () => <button className={styles.button}>Save</button>;\n";
    let path = "/project/Button.module.css";
    let both = plan(path, ".button { font-family: Arial; font-family: \"My Font\"; color: red; }\n", "/project/Button.tsx", source);
    let last = plan(path, ".button { font-family: \"My Font\"; color: red; }\n", "/project/Button.tsx", source);
    assert_eq!(both.candidates, texts(&["font-[\"My_Font\"]", "text-[red]"]));
    assert_eq!(both.candidates, last.candidates);
    assert_eq!(both.files[0].source, last.files[0].source);
    assert_eq!(codes(&both), codes(&last));
}

#[test]
fn plans_a_direct_css_module_padding_migration() {
    let response = plan(
        "/project/Button.module.css",
        ".button { padding: 13px; }\n",
        "/project/Button.tsx",
        "import styles from './Button.module.css';\nexport const Button = () => <button className={styles.button}>Save</button>;\n",
    );
    assert_eq!(response.candidates, texts(&["p-[13px]"]));
    assert_eq!(response.converted_rules, 1);
    assert_eq!(response.retained_rules, 0);
    assert_eq!(
        response.files[0].source,
        "export const Button = () => <button className=\"p-[13px]\">Save</button>;\n"
    );
    assert_eq!(response.deleted_files, texts(&["/project/Button.module.css"]));
}

fn block(source: &str, tag: &str) -> VueBlock {
    let outer_start = source.find(tag).unwrap();
    let content_end = source.find("</style>").unwrap();
    VueBlock {
        outer_start,
        outer_end: content_end + "</style>".len(),
        content_start: outer_start + tag.len(),
        content_end,
        syntax: StylesheetSyntax::Css,
        analysis_source: None,
        source_path: None,
        source_mappings: Vec::new(),
    }
}

fn element() -> HtmlElement {
    HtmlElement {
        class_attribute: None,
        id_attribute: None,
        node_start: None,
        match_classes: None,
        write_classes: None,
        match_ids: None,
        match_tag: None,
        tag: Some("p".to_string()),
        css_paths: Vec::new(),
        class_opaque: false,
        module_binding: None,
    }
}

fn class_site(value: &str, start: usize) -> HtmlElement {
    HtmlElement {
        class_attribute: Some(HtmlAttribute {
            value: value.to_string(),
            start,
            end: start + value.len(),
            synthetic: false,
            writable: true,
            raw_value: None,
            js_quote: None,
            html_quote: None,
            quote_key: false,
            object_shorthand: false,
        }),
        ..element()
    }
}

fn component(source: &str, elements: Vec<HtmlElement>) -> SourceFile {
    SourceFile {
        html_elements: elements,
        html_stylesheets: vec![HtmlStylesheet {
            css_path: VUE.to_string(),
            variants: Vec::new(),
            direct: true,
            analyzable: true,
        }],
        html_references_safe: true,
        ..file(VUE, source)
    }
}

fn scoped(source: &str) -> BatchStylesheet {
    BatchStylesheet {
        is_module: Some(true),
        vue_blocks: vec![block(source, "<style scoped>")],
        ..sheet(VUE, source)
    }
}

fn class_sites(source: &str) -> Vec<HtmlElement> {
    ["card", "note"]
        .iter()
        .filter_map(|class| {
            let start = source.find(&format!("class=\"{class}\""))? + "class=\"".len();
            Some(class_site(class, start))
        })
        .collect()
}

fn plan_scoped(sheet: BatchStylesheet, source: &str) -> PlanResponse {
    batch(vec![sheet], vec![component(source, class_sites(source))])
}

const SFC: &str = "<template>\n  <p class=\"card\">A</p>\n  <p class=\"note\">B</p>\n</template>\n<style scoped>\n.card { padding: 13px; }\n</style>\n";

const MODULE_SFC: &str = "<template>\n  <p :class=\"$style.card\">A</p>\n</template>\n<style module>\n.card { padding: 13px; }\n</style>\n";

/// A component whose one binding is `$style.card`.
fn module_request(source: &str) -> (BatchStylesheet, SourceFile) {
    let binding = ":class=\"$style.card\"";
    let start = source.find(binding).unwrap();
    let site = HtmlElement {
        module_binding: Some(ModuleBinding {
            name: "card".to_string(),
            start: start - 1,
            end: start + binding.len(),
        }),
        ..element()
    };
    let stylesheet = BatchStylesheet {
        is_module: Some(true),
        vue_module: true,
        vue_blocks: vec![block(source, "<style module>")],
        ..sheet(VUE, source)
    };
    (stylesheet, component(source, vec![site]))
}

#[test]
fn vue_module_bindings_rewrite_and_delete_the_emptied_block() {
    let (stylesheet, component) = module_request(MODULE_SFC);
    let response = batch(vec![stylesheet], vec![component]);
    assert_eq!(response.converted_rules, 1);
    assert_eq!(response.files[0].source, "<template>\n  <p class=\"p-[13px]\">A</p>\n</template>\n");
}

#[test]
fn vue_module_rules_ignore_same_named_corpus_classes_but_respect_site_tags() {
    // A corpus `.card` cannot match the hashed runtime class.
    let (mut hashed, component) = module_request(MODULE_SFC);
    hashed.vue_shadow_css = texts(&[".card { padding: 20px; }"]);
    let response = batch(vec![hashed], vec![component]);
    assert_eq!(response.converted_rules, 1);

    // A corpus type selector still reaches the binding's element.
    let (mut typed, component) = module_request(MODULE_SFC);
    typed.vue_shadow_css = texts(&["p { padding: 20px; }"]);
    let response = batch(vec![typed], vec![component]);
    assert_eq!(response.converted_rules, 0);
    assert_eq!(response.warnings[0].code, "shadowed-scoped-rule");
}

#[test]
fn vue_module_rewrites_withhold_quote_bearing_candidates() {
    let source = "<template>\n  <p :class=\"$style.card\">A</p>\n</template>\n<style module>\n.card { font-family: \"My Font\", sans-serif; }\n</style>\n";
    let (stylesheet, component) = module_request(source);
    // The double-quoted rewritten attribute cannot hold the candidate.
    let response = batch(vec![stylesheet], vec![component]);
    assert_eq!(response.converted_rules, 0);
    assert_eq!(response.retained_rules, 1);
    assert!(response.files.is_empty());
}

#[test]
fn vue_closed_sfc_migrates_template_and_removes_the_emptied_scoped_block() {
    let response = plan_scoped(scoped(SFC), SFC);
    assert_eq!(response.candidates, texts(&["p-[13px]"]));
    assert_eq!(response.converted_rules, 1);
    assert_eq!(response.retained_rules, 0);
    assert!(response.deleted_files.is_empty());
    assert!(response.unlinked_files.is_empty());
    assert_eq!(response.files.len(), 1);
    assert_eq!(response.files[0].path, VUE);
    assert_eq!(
        response.files[0].source,
        "<template>\n  <p class=\"card p-[13px]\">A</p>\n  <p class=\"note\">B</p>\n</template>\n"
    );
}

#[test]
fn vue_shadowed_scoped_rule_is_retained_without_template_edits() {
    let mut stylesheet = scoped(SFC);
    stylesheet.vue_shadow_css = texts(&["div.card { padding: 20px; } .cardio { top: 0; }"]);
    let response = plan_scoped(stylesheet, SFC);
    assert_eq!(response.converted_rules, 0);
    assert_eq!(response.retained_rules, 1);
    assert!(response.files.is_empty());
    assert_eq!(response.warnings[0].code, "shadowed-scoped-rule");
    assert_eq!(response.warnings[0].file, VUE);

    // A different class like `.cardio` must not shadow `.card`.
    let mut clear = scoped(SFC);
    clear.vue_shadow_css = texts(&[".cardio { top: 0; }"]);
    assert_eq!(plan_scoped(clear, SFC).converted_rules, 1);
}

#[test]
fn vue_cooccurring_site_class_shadow_retains_the_rule() {
    let source = "<template>\n  <p class=\"card foo\">A</p>\n  <p class=\"note\">B</p>\n</template>\n<style scoped>\n.card { padding: 13px; }\n</style>\n";
    let mut stylesheet = scoped(source);
    stylesheet.vue_shadow_css = texts(&[".foo { padding: 20px; }"]);
    let sites = vec![class_site("card foo", source.find("card foo").unwrap())];
    let response = batch(vec![stylesheet], vec![component(source, sites)]);
    assert_eq!(response.converted_rules, 0);
    assert_eq!(response.warnings[0].code, "shadowed-scoped-rule");
}

#[test]
fn vue_retained_sibling_rule_shadows_cooccurring_site_classes() {
    let source = "<template>\n  <p class=\"card legacy\">A</p>\n  <p class=\"note\">B</p>\n</template>\n<style scoped>\n.legacy { padding: 20px !important; }\n.card { padding: 13px; }\n.note { margin: 3px; }\n</style>\n";
    let sites = vec![
        class_site("card legacy", source.find("card legacy").unwrap()),
        class_site("note", source.find("\"note\"").unwrap() + 1),
    ];
    let response = batch(vec![scoped(source)], vec![component(source, sites)]);
    // `.legacy` retains on `!important`; deleting `.card` would expose it on
    // the shared element, so `.card` retains as shadowed while the unrelated
    // `.note` still converts.
    assert_eq!(response.converted_rules, 1);
    assert_eq!(response.retained_rules, 2);
    assert!(codes(&response).contains(&"shadowed-scoped-rule"));
    assert!(codes(&response).contains(&"unsupported-important"));
}

#[test]
fn vue_quote_blocked_rule_shadows_cooccurring_sibling() {
    let source = "<template>\n  <p class=\"bad good\">A</p>\n  <p class=\"note\">B</p>\n</template>\n<style scoped>\n.bad { font-family: \"My Font\"; }\n.good { font-family: Arial; }\n</style>\n";
    let sites = vec![class_site("bad good", source.find("bad good").unwrap())];
    let response = batch(vec![scoped(source)], vec![component(source, sites)]);
    assert_eq!(response.converted_rules, 0);
    assert_eq!(response.retained_rules, 2);
    assert!(response.files.is_empty());
    assert!(codes(&response).contains(&"shadowed-scoped-rule"));
}

#[test]
fn vue_retained_unbounded_target_shadows_sibling_rules() {
    let source = "<template>\n  <div class=\"ancestor\"><p class=\"card\">A</p></div>\n  <p class=\"note\">B</p>\n</template>\n<style scoped>\n.ancestor > * { padding: 20px !important; }\n.card { padding: 13px; }\n</style>\n";
    let response = plan_scoped(scoped(source), source);
    assert_eq!(response.converted_rules, 0);
    assert_eq!(response.retained_rules, 2);
    assert!(codes(&response).contains(&"shadowed-scoped-rule"));
}

#[test]
fn vue_retained_conditional_with_unbounded_target_shadows_sibling_rules() {
    let source = "<template>\n  <div class=\"ancestor\"><p class=\"card\">A</p></div>\n  <p class=\"note\">B</p>\n</template>\n<style scoped>\n@supports (content: \"x\") { .ancestor > * { padding: 20px; } }\n.card { padding: 13px; }\n</style>\n";
    let response = plan_scoped(scoped(source), source);
    assert_eq!(response.converted_rules, 0);
    assert!(codes(&response).contains(&"shadowed-scoped-rule"));
}

#[test]
fn vue_module_shadow_indexes_only_global_selectors() {
    // A localized module class cannot match template elements.
    let mut localized = scoped(SFC);
    localized.vue_shadow_module_css = texts(&[".card { padding: 20px; }"]);
    assert_eq!(plan_scoped(localized, SFC).converted_rules, 1);

    // A bare type selector in a module stays global and shadows the site.
    let mut typed = scoped(SFC);
    typed.vue_shadow_module_css = texts(&["p { padding: 20px; }"]);
    let response = plan_scoped(typed, SFC);
    assert_eq!(response.converted_rules, 0);
    assert_eq!(response.warnings[0].code, "shadowed-scoped-rule");
}

#[test]
fn vue_retained_keyframes_do_not_shadow_sibling_rules() {
    let source = "<template>\n  <p class=\"card\">A</p>\n  <p class=\"note\">B</p>\n</template>\n<style scoped>\n@keyframes spin { from { opacity: 0; } to { opacity: 1; } }\n.card { padding: 13px; }\n</style>\n";
    let response = plan_scoped(scoped(source), source);
    assert_eq!(response.converted_rules, 1);
    assert_eq!(response.retained_rules, 1);
}

#[test]
fn vue_retained_definition_at_rules_do_not_shadow_sibling_rules() {
    let source = "<template>\n  <p class=\"card\">A</p>\n  <p class=\"note\">B</p>\n</template>\n<style scoped>\n@property --accent { syntax: \"<color>\"; inherits: false; initial-value: red; }\n.card { padding: 13px; }\n</style>\n";
    let response = plan_scoped(scoped(source), source);
    assert_eq!(response.converted_rules, 1);
    assert_eq!(response.retained_rules, 1);
}

#[test]
fn vue_module_global_escapes_are_indexed_or_retained_conservatively() {
    // An unrelated `:global` escape must not disable the whole index.
    let mut unrelated = scoped(SFC);
    unrelated.vue_shadow_module_css = texts(&[":global(.unrelated) { padding: 20px; }"]);
    assert_eq!(plan_scoped(unrelated, SFC).converted_rules, 1);

    // A matching `:global` escape shadows precisely.
    let mut matching = scoped(SFC);
    matching.vue_shadow_module_css = texts(&[":global(.card) { padding: 20px; }"]);
    let response = plan_scoped(matching, SFC);
    assert_eq!(response.converted_rules, 0);
    assert_eq!(response.warnings[0].code, "shadowed-scoped-rule");

    // Selector-mode `:global` is not represented by a pseudo-class argument,
    // so conservatively retain rather than treating `.card` as a localized
    // module class.
    let mut selector_mode = scoped(SFC);
    selector_mode.vue_shadow_module_css = texts(&[":global .card { padding: 20px; }"]);
    let response = plan_scoped(selector_mode, SFC);
    assert_eq!(response.converted_rules, 0);
    assert_eq!(response.warnings[0].code, "shadowed-scoped-rule");
}

#[test]
fn vue_v_bind_declarations_are_never_converted() {
    let source = "<template>\n  <p class=\"card\">A</p>\n  <p class=\"note\">B</p>\n</template>\n<style scoped>\n.card { color: v-bind(theme); }\n</style>\n";
    let response = plan_scoped(scoped(source), source);
    assert_eq!(response.converted_rules, 0);
    assert_eq!(response.retained_rules, 1);
    assert_eq!(response.warnings[0].code, "unsupported-value");
}

#[test]
fn vue_type_selector_shadow_matches_by_site_tag() {
    // A type selector for another tag cannot match the `p` sites.
    let mut clear = scoped(SFC);
    clear.vue_shadow_css = texts(&["article { padding: 20px; }"]);
    assert_eq!(plan_scoped(clear, SFC).converted_rules, 1);

    // A `p` type selector reaches the rule's site, so the rule retains.
    let mut shadowed = scoped(SFC);
    shadowed.vue_shadow_css = texts(&["p { padding: 20px; }"]);
    let response = plan_scoped(shadowed, SFC);
    assert_eq!(response.converted_rules, 0);
    assert_eq!(response.warnings[0].code, "shadowed-scoped-rule");

    // An unparseable piece is unverifiable and retains everything.
    let mut opaque = scoped(SFC);
    opaque.vue_shadow_css = texts(&["$name: card;"]);
    assert_eq!(plan_scoped(opaque, SFC).converted_rules, 0);
}

#[test]
fn vue_unverifiable_shadow_corpus_retains_every_closed_rule() {
    let mut stylesheet = scoped(SFC);
    stylesheet.vue_shadow_unverifiable = true;
    let response = plan_scoped(stylesheet, SFC);
    assert_eq!(response.converted_rules, 0);
    assert_eq!(response.retained_rules, 1);
    assert_eq!(response.warnings[0].code, "shadowed-scoped-rule");
}

#[test]
fn vue_preserves_conditionals_that_were_already_empty() {
    let source = "<template>\n  <p class=\"card\">A</p>\n  <p class=\"note\">B</p>\n</template>\n<style scoped>\n@media print {\n}\n.card { padding: 13px; }\n</style>\n";
    let response = plan_scoped(scoped(source), source);
    assert_eq!(response.converted_rules, 1);
    let migrated = &response.files[0].source;
    assert!(migrated.contains("@media print {"));
    assert!(migrated.contains("<style scoped>"));
    assert!(!migrated.contains(".card {"));
}

#[test]
fn vue_open_sfc_appends_utilities_and_retains_the_scoped_rule() {
    let source = "<template>\n  <p class=\"card\">A</p>\n</template>\n<style scoped>\n.card { padding: 13px; }\n</style>\n";
    let mut stylesheet = scoped(source);
    stylesheet.is_module = Some(false);
    stylesheet.vue_retention = Some("open-root-fallthrough".to_string());
    let response = plan_scoped(stylesheet, source);
    assert_eq!(response.converted_rules, 0);
    assert_eq!(response.retained_rules, 1);
    assert!(response.deleted_files.is_empty());
    assert_eq!(
        response.files[0].source,
        "<template>\n  <p class=\"card p-[13px]\">A</p>\n</template>\n<style scoped>\n.card { padding: 13px; }\n</style>\n"
    );
    let warning = response.warnings.iter().find(|warning| warning.code == "open-root-fallthrough").unwrap();
    assert_eq!(warning.file, VUE);
    assert_eq!(warning.start, source.find(".card {").unwrap());
}

// ---------------------------------------------------------------------------
// Batches
// ---------------------------------------------------------------------------

fn fails(stylesheets: Vec<BatchStylesheet>, files: Vec<SourceFile>) -> MigrationError {
    let request = BatchPlanRequest { stylesheets, settings: settings(), files };
    match answer(&mut knowledge(), &request) {
        Ok(_) => panic!("the batch was planned"),
        Err(error) => error,
    }
}

#[test]
fn a_batch_needs_a_stylesheet() {
    let error = fails(vec![], vec![]);
    assert_eq!(error.message, "Batch migration requires at least one stylesheet");
    assert_eq!(error.kind, ErrorKind::InvalidRequest);
    assert_eq!(native_error_reason(&error, true), error.message);
}

#[test]
fn recoverable_failures_are_marked_for_plans_only() {
    let error = fails(vec![sheet("app.css", "@media \u{b}screen {}")], vec![]);
    assert_eq!(error.kind, ErrorKind::AuthoredStylesheetParse);
    assert!(error.is_recoverable());
    assert_eq!(error.message, "Failed to parse app.css: unexpected token");
    assert_eq!(
        native_error_reason(&error, true),
        "TW_MIGRATE_RECOVERABLE_INPUT:Failed to parse app.css: unexpected token"
    );
    assert_eq!(native_error_reason(&error, false), error.message);
    for (kind, recoverable) in [
        (ErrorKind::SourceParse, true),
        (ErrorKind::SourceAnalysis, true),
        (ErrorKind::UnsupportedSource, true),
        (ErrorKind::SourceMap, false),
        (ErrorKind::InvalidRequest, false),
        (ErrorKind::Serialization, false),
        (ErrorKind::Planning, false),
    ] {
        let error = MigrationError::new(kind, "x".to_string());
        let expected = if recoverable { "TW_MIGRATE_RECOVERABLE_INPUT:x" } else { "x" };
        assert_eq!(native_error_reason(&error, true), expected, "{kind:?}");
        assert_eq!(native_error_reason(&error, false), "x", "{kind:?}");
    }
}

#[test]
fn the_kind_of_a_failure_decides_and_not_its_words() {
    let error = fails(vec![sheet("edited CSS.css", "@media \u{b}screen {}")], vec![]);
    assert_eq!(error.message, "Failed to parse edited CSS.css: unexpected token");
    assert!(error.is_recoverable());
    assert!(native_error_reason(&error, true).starts_with("TW_MIGRATE_RECOVERABLE_INPUT:"));
    assert!(!is_recoverable_input_error(&error.message));
    let source = "import './card.css';\nconst = ;\n";
    let error = fails(vec![sheet("/project/card.css", CARD)], vec![file("/project/Card.tsx", source)]);
    assert_eq!(error.kind, ErrorKind::SourceParse);
    assert!(error.message.starts_with("Failed to parse /project/Card.tsx: "), "{error:?}");
    let error = fails(vec![sheet("/project/card.css", CARD)], vec![file("/project/Card.txt", "")]);
    assert_eq!(error.kind, ErrorKind::UnsupportedSource);
    assert!(is_recoverable_input_error(&error.message));
    assert!(is_recoverable_input_error("Failed to analyze a.ts"));
    assert!(!is_recoverable_input_error("Invalid source edit span"));
}

#[test]
fn conflicting_stylesheets_keep_their_rules() {
    let source = "export const Card = () => <div className='a b' />;\n";
    let response = batch(
        vec![
            sheet("/project/one.css", ".a { padding: 13px; }\n"),
            sheet("/project/two.css", ".b { padding: 8px; }\n"),
        ],
        vec![file("/project/Card.tsx", source)],
    );
    assert!(response.files.is_empty());
    assert_eq!(response.retained_rules, 2);
    assert_eq!(codes(&response), vec!["batch-stylesheet-conflict", "batch-stylesheet-conflict"]);
    assert_eq!(
        response.warnings[0].message,
        "Generated utilities `p-[13px]` and `p-[8px]` conflict on the same source element, so the contributing rule is retained."
    );
    // On different elements the two go together.
    let apart = "export const Card = () => <div className='a'><p className='b' /></div>;\n";
    let response = batch(
        vec![
            sheet("/project/one.css", ".a { padding: 13px; }\n"),
            sheet("/project/two.css", ".b { padding: 8px; }\n"),
        ],
        vec![file("/project/Card.tsx", apart)],
    );
    assert_eq!(
        response.files[0].source,
        "export const Card = () => <div className=\"a p-[13px]\"><p className=\"b p-[8px]\" /></div>;\n"
    );
}

#[test]
fn stylesheets_are_planned_by_path_and_reported_by_index() {
    let source = "import b from './b.module.css';\nimport a from './a.module.css';\nexport const Card = () => <div><i className={a.one} /><i className={b.two} /></div>;\n";
    let response = batch(
        vec![
            sheet("/project/b.module.css", ".two { margin: 7px; }\n"),
            sheet("/project/a.module.css", ".one { padding: 13px; }\n"),
        ],
        vec![file("/project/Card.tsx", source)],
    );
    assert_eq!(response.rules.iter().map(|rule| rule.stylesheet).collect::<Vec<_>>(), vec![1, 0]);
    assert_eq!(response.deleted_files, texts(&["/project/a.module.css", "/project/b.module.css"]));
    assert_eq!(response.files.len(), 1);
    assert_eq!(
        response.files[0].source,
        "export const Card = () => <div><i className=\"p-[13px]\" /><i className=\"m-[7px]\" /></div>;\n"
    );
    assert_eq!(response.candidates, texts(&["m-[7px]", "p-[13px]"]));
    let rounds = response.applied_edits.iter().find(|entry| entry.0 == "/project/Card.tsx").unwrap();
    assert_eq!(rounds.1.len(), 2);
    // What is written is not deleted.
    assert!(response.files.iter().all(|file| !response.deleted_files.contains(&file.path)));
}

#[test]
fn blocked_rules_are_attributed_by_the_caller() {
    let mut stylesheet = sheet("/project/Card.module.css", CARD);
    stylesheet.blocked_rules = vec![RuleId { start: 0, end: CARD.len() - 1 }];
    let source = "import styles from './Card.module.css';\nexport const Card = () => <div className={styles.card} />;\n";
    let response = batch(vec![stylesheet], vec![file("/project/Card.tsx", source)]);
    assert_eq!(response.retained_rules, 1);
    assert!(response.files.is_empty());
    assert!(response.warnings.is_empty());
}

#[test]
fn conditions_become_variants() {
    let source = "import styles from './Card.module.css';\nexport const Card = () => <div className={styles.card} />;\n";
    let response = plan(
        "/project/Card.module.css",
        "@media print { .card { padding: 13px; } }\n",
        "/project/Card.tsx",
        source,
    );
    assert_eq!(response.candidates, texts(&["print:p-[13px]"]));
    assert_eq!(response.deleted_files, texts(&["/project/Card.module.css"]));
    let kept = plan(
        "/project/Card.module.css",
        "@media (orientation: landscape) { .card { padding: 13px; } }\n",
        "/project/Card.tsx",
        source,
    );
    assert_eq!(kept.converted_rules, 0);
    assert_eq!(codes(&kept), vec!["unsupported-media"]);
}

#[test]
fn margins_and_paddings_are_summed_up_by_block() {
    let css = ".card { padding: 1px; padding-left: 2px; }\n";
    let source = "import styles from './Card.module.css';\nexport const Card = () => <div className={styles.card} />;\n";
    let request = BatchPlanRequest {
        stylesheets: vec![sheet("/project/Card.module.css", css)],
        settings: settings(),
        files: vec![file("/project/Card.tsx", source)],
    };
    let mut know = knowledge();
    know.converter.spacings.push(Spacing {
        css: "{ padding: 1px; padding-left: 2px; }".to_string(),
        results: vec![Spaced::Taken, Spaced::Taken],
        margin: Some(Vec::new()),
        padding: Some(texts(&["p-px", "pl-[2px]"])),
    });
    let response = answer(&mut know, &request).unwrap();
    assert_eq!(response.files[0].source, "export const Card = () => <div className=\"p-px pl-[2px]\" />;\n");

    let mut overlapping = knowledge();
    overlapping.converter.spacings.push(Spacing {
        css: "{ padding: 1px; padding-left: 2px; }".to_string(),
        results: vec![Spaced::Taken, Spaced::Overlaps],
        margin: Some(Vec::new()),
        padding: Some(texts(&["p-px"])),
    });
    let response = answer(&mut overlapping, &request).unwrap();
    assert_eq!(codes(&response), vec!["unsupported-overlap"]);
}

/// The FNV-1a hash that names moved keyframes.
fn hash(value: &str) -> u64 {
    value
        .bytes()
        .fold(0xcbf29ce484222325, |hash, byte| (hash ^ u64::from(byte)).wrapping_mul(0x100000001b3))
}

#[test]
fn keyframes_move_with_their_animations() {
    let css = ".card { animation: spin 1s; }\n@keyframes spin { from { opacity: 0; } to { opacity: 1; } }\n";
    let source = "import styles from './Card.module.css';\nexport const Card = () => <div className={styles.card} />;\n";
    let request = BatchPlanRequest {
        stylesheets: vec![sheet("/project/Card.module.css", css)],
        settings: Settings {
            tailwind_path: Some("/project/app.css".to_string()),
            tailwind_source: Some("@import \"tailwindcss\";\n".to_string()),
            ..settings()
        },
        files: vec![file("/project/Card.tsx", source)],
    };
    let response = answer(&mut knowledge(), &request).unwrap();
    let name = format!("tw-migrate-{:x}-spin", hash("/project/Card.module.css"));
    assert_eq!(response.candidates, vec![format!("[animation:{name}_1s]")]);
    assert_eq!(
        source_of(&response, "/project/app.css"),
        format!("@import \"tailwindcss\";\n\n@keyframes {name} {{ from {{ opacity: 0; }} to {{ opacity: 1; }} }}\n")
    );
    assert_eq!(response.deleted_files, texts(&["/project/Card.module.css"]));
    // An entry that must not be edited keeps both where they are.
    let fixed = BatchPlanRequest {
        settings: Settings { entry_writable: false, ..request.settings },
        stylesheets: request.stylesheets,
        files: request.files,
    };
    let response = answer(&mut knowledge(), &fixed).unwrap();
    assert!(response.files.is_empty());
    assert!(codes(&response).contains(&"unsupported-animation"));
}

#[test]
fn global_at_rules_move_to_the_entry() {
    let face = "@font-face { font-family: Brand; }";
    let css = format!("{face}\n.card {{ padding: 13px; }}\n");
    let source = "import styles from './Card.module.css';\nexport const Card = () => <div className={styles.card} />;\n";
    let request = BatchPlanRequest {
        stylesheets: vec![sheet("/project/Card.module.css", &css)],
        settings: Settings {
            tailwind_path: Some("/project/app.css".to_string()),
            tailwind_source: Some("@import \"tailwindcss\";\n".to_string()),
            ..settings()
        },
        files: vec![file("/project/Card.tsx", source)],
    };
    let mut know = knowledge();
    know.converter.movable.push(MovableAtRule { css: face.to_string(), stable_urls_only: true });
    let response = answer(&mut know, &request).unwrap();
    assert_eq!(
        source_of(&response, "/project/app.css"),
        format!("@import \"tailwindcss\";\n\n{face}\n")
    );
    assert_eq!(response.deleted_files, texts(&["/project/Card.module.css"]));
    // Beside an entry in another directory its URLs would change.
    let mut know = knowledge();
    know.converter.movable.push(MovableAtRule { css: face.to_string(), stable_urls_only: true });
    let elsewhere = BatchPlanRequest {
        settings: Settings { tailwind_path: Some("/app.css".to_string()), ..request.settings },
        stylesheets: request.stylesheets,
        files: request.files,
    };
    let response = answer(&mut know, &elsewhere).unwrap();
    assert!(codes(&response).contains(&"unsupported-at-rule"));
    assert!(response.deleted_files.is_empty());
}

#[test]
fn compiled_rules_are_edited_where_they_are_authored() {
    let authored = "$gap: 13px;\n.card { padding: $gap; }\n.note { margin: 7px; }\n";
    let compiled = ".card { padding: 13px; }\n.note { margin: 7px; }\n";
    let mapping = |line: usize, column: usize| SourceMapping {
        generated_line: line,
        generated_column: column,
        source_path: "/project/Card.module.scss".to_string(),
        original_line: line + 1,
        original_column: column,
    };
    let mut stylesheet = sheet("/project/Card.module.scss", authored);
    stylesheet.syntax = StylesheetSyntax::Scss;
    stylesheet.analysis_source = Some(compiled.to_string());
    stylesheet.source_mappings = vec![mapping(0, 0), mapping(0, 8), mapping(1, 0), mapping(1, 8)];
    let source = "import styles from './Card.module.scss';\nexport const Card = () => <div className={styles.card} />;\n";
    let response = batch(vec![stylesheet], vec![file("/project/Card.tsx", source)]);
    assert_eq!(source_of(&response, "/project/Card.tsx"), "import styles from './Card.module.scss';\nexport const Card = () => <div className=\"p-[13px]\" />;\n");
    let left = source_of(&response, "/project/Card.module.scss");
    assert!(left.contains("$gap: 13px;"));
    assert!(left.contains(".note { margin: 7px; }"));
    assert!(!left.contains(".card"));
}

#[test]
fn rules_without_a_mapping_stay() {
    let compiled = ".card { padding: 13px; }\n";
    let mut stylesheet = sheet("/project/Card.module.scss", ".card { padding: 13px; }\n");
    stylesheet.syntax = StylesheetSyntax::Scss;
    stylesheet.analysis_source = Some(compiled.to_string());
    let source = "import styles from './Card.module.scss';\nexport const Card = () => <div className={styles.card} />;\n";
    let response = batch(vec![stylesheet], vec![file("/project/Card.tsx", source)]);
    assert_eq!(codes(&response), vec!["unproven-source-map"]);
    assert!(response.files.is_empty());
}

#[test]
fn candidates_take_the_utility_prefix() {
    let source = "import styles from './Card.module.css';\nexport const Card = () => <div className={styles.card} />;\n";
    let request = BatchPlanRequest {
        stylesheets: vec![sheet("/project/Card.module.css", CARD)],
        settings: Settings { utility_prefix: Some("tw".to_string()), ..settings() },
        files: vec![file("/project/Card.tsx", source)],
    };
    let response = answer(&mut knowledge(), &request).unwrap();
    assert_eq!(response.files[0].source, "export const Card = () => <div className=\"tw:p-[13px]\" />;\n");
}

#[test]
fn read_only_files_keep_their_references() {
    let source = "import styles from './Card.module.css';\nexport const Card = () => <div className={styles.card} />;\n";
    let locked = SourceFile { writable: false, ..file("/project/Card.tsx", source) };
    let response = batch(vec![sheet("/project/Card.module.css", CARD)], vec![locked]);
    assert!(response.files.is_empty());
    assert!(response.deleted_files.is_empty());
    assert_eq!(response.retained_rules, 1);
}

#[test]
fn a_retained_sibling_block_shadows_the_module_block() {
    let source = "<template>\n  <p :class=\"$style.card\">A</p>\n</template>\n<style module>\n.card { padding: 13px; }\n</style>\n<style scoped>\np { padding: 20px !important; }\n</style>\n";
    let plain = |source: &str| {
        let start = source.find("<style scoped>").unwrap();
        let end = source.rfind("</style>").unwrap();
        BatchStylesheet {
            is_module: Some(true),
            vue_blocks: vec![VueBlock {
                outer_start: start,
                outer_end: end + "</style>".len(),
                content_start: start + "<style scoped>".len(),
                content_end: end,
                ..block(source, "<style scoped>")
            }],
            ..sheet(VUE, source)
        }
    };
    let (module, component) = module_request(source);
    let request = BatchPlanRequest {
        stylesheets: vec![module, plain(source)],
        settings: settings(),
        files: vec![component],
    };
    let mut know = knowledge();
    know.shadows.push(shadow("p {}", false, &[], &["p"], false));
    let response = answer(&mut know, &request).unwrap();
    assert_eq!(response.converted_rules, 0);
    assert_eq!(response.retained_rules, 2);
    assert!(codes(&response).contains(&"shadowed-scoped-rule"));
    assert!(response.files.is_empty());
}

#[test]
fn bindings_without_a_rule_keep_the_module_block() {
    let (module, mut component) = module_request(MODULE_SFC);
    component.html_elements[0].module_binding.as_mut().unwrap().name = "missing".to_string();
    let response = batch(vec![module], vec![component]);
    assert!(response.files.is_empty());
    assert_eq!(response.converted_rules, 0);
}

#[test]
fn elements_with_a_class_keep_their_binding() {
    let source = MODULE_SFC.replace("<p :class", "<p class=\"a\" :class");
    let (module, mut component) = module_request(&source);
    component.html_elements[0].class_attribute =
        class_site("a", source.find("class=\"a\"").unwrap() + "class=\"".len()).class_attribute;
    let response = batch(vec![module], vec![component]);
    assert!(response.files.is_empty());
    assert_eq!(response.retained_rules, 1);
}

#[test]
fn a_blocked_module_rule_exposes_its_siblings() {
    let source = MODULE_SFC.replace(
        ".card { padding: 13px; }",
        ".card { padding: 13px; }\n.card:hover { color: red; }",
    );
    let (module, component) = module_request(&source);
    let first = batch(vec![module], vec![component]);
    assert_eq!(first.converted_rules, 2);
    // The caller blocks a rule by the id that was reported for it.
    let (mut module, component) = module_request(&source);
    let report = first.rules.iter().find(|rule| rule.selector == ".card").unwrap();
    module.blocked_rules = vec![report.rule_id];
    let response = batch(vec![module], vec![component]);
    assert_eq!(response.converted_rules, 0);
    assert_eq!(response.retained_rules, 2);
    assert!(response.files.is_empty());
}

#[test]
fn a_preserved_binding_stays_behind_its_utilities() {
    let (_, component) = module_request(MODULE_SFC);
    let candidates =
        Candidates { entries: vec![(SelectorKey::Class("card".to_string()), texts(&["p-2", "m-2"]))] };
    let none = Conflicts { pairs: Vec::new() };
    let known = texts(&["card"]);
    let plan = plan_vue_module_file(&component, VUE, &candidates, &known, Some(&known), &None, &none);
    let migrated = apply_edits(MODULE_SFC, &plan.edits).unwrap();
    assert!(migrated.contains("<p class=\"p-2 m-2\" :class=\"$style.card\">"));
    assert_eq!(plan.matched_module_refs.get("card"), Some(1));
    let plan = plan_vue_module_file(&component, VUE, &candidates, &Vec::new(), None, &None, &none);
    let migrated = apply_edits(MODULE_SFC, &plan.edits).unwrap();
    assert!(migrated.contains("<p class=\"p-2 m-2\">"));
    assert_eq!(plan.matches.len(), 2);
    // A class without a rule retains the block.
    let plan = plan_vue_module_file(&component, VUE, &candidates, &Vec::new(), Some(&texts(&["b"])), &None, &none);
    assert!(!plan.module_references_safe);
    assert!(plan.edits.is_empty());
    // A binding that an earlier round replaced is gone.
    let binding = component.html_elements[0].module_binding.as_ref().unwrap();
    let edit = Edit { start: binding.start, end: binding.end, replacement: " class=\"x\"".to_string() };
    let source = apply_edits(MODULE_SFC, &vec![edit.clone()]).unwrap();
    let (_, mut component) = module_request(MODULE_SFC);
    component.source = source;
    component.prior_edits = vec![vec![edit]];
    let plan = plan_vue_module_file(&component, VUE, &candidates, &Vec::new(), None, &None, &none);
    assert!(plan.edits.is_empty());
    assert!(plan.module_refs.is_empty());
}

#[test]
fn media_variants_of_one_property_are_ordering_sensitive() {
    let css = "@media print { .a { padding: 13px; } }\n@media screen { .b { padding: 13px; } }\n";
    let source = "export const Card = () => <div className='a b' />;\n";
    let request = BatchPlanRequest {
        stylesheets: vec![sheet("/project/global.css", css)],
        settings: Settings {
            media_names: Some(pairs(&[("print", "print"), ("screen", "screen")])),
            ..settings()
        },
        files: vec![file("/project/Card.tsx", source)],
    };
    let mut know = knowledge();
    know.converter.variants.push(("@media screen".to_string(), "screen".to_string()));
    for variant in ["print", "screen"] {
        know.utilities.parts.push(CandidateParts {
            candidate: format!("{variant}:p-[13px]"),
            variants: texts(&[variant]),
            utility: "p-[13px]".to_string(),
        });
    }
    let response = answer(&mut know, &request).unwrap();
    assert_eq!(count(&response, "batch-stylesheet-conflict"), 2);
    assert!(response.files.is_empty());
}
