//! Analysing stylesheets whose trees are built here.
use tw_migrate::css::{
    remove_empty_conditionals, validate_css, Conditionals, Halt, Parse, StylesheetSyntax,
};
use tw_migrate::css_directives::{collect_css_directives, source_directive, CssDirective};
use tw_migrate::stylesheet::{font_face_identity, stylesheet_analysis, stylesheet_syntax, StylesheetAnalysis};
use tw_migrate::tree::Tree;

// ---------------------------------------------------------------------------
// Trees of small stylesheets
// ---------------------------------------------------------------------------

fn span(start: usize, end: usize) -> Tree {
    Tree::Node(vec![
        ("start".to_string(), Tree::Number(Some(start as u64))),
        ("end".to_string(), Tree::Number(Some(end as u64))),
    ])
}

fn node(kind: &str, start: usize, end: usize, fields: Vec<(&str, Tree)>) -> Tree {
    let mut all = vec![("type".to_string(), Tree::Text(kind.to_string())), ("span".to_string(), span(start, end))];
    for (name, value) in fields {
        all.push((name.to_string(), value));
    }
    Tree::Node(all)
}

fn text(value: &str) -> Tree {
    Tree::Text(value.to_string())
}

struct Css<'a> {
    source: &'a str,
    syntax: StylesheetSyntax,
    at: usize,
}

fn is_name(c: u8) -> bool {
    c.is_ascii_alphanumeric() || c == b'-' || c == b'_'
}

impl<'a> Css<'a> {
    fn byte(&self) -> Option<u8> {
        self.source.as_bytes().get(self.at).copied()
    }

    fn starts(&self, part: &str) -> bool {
        self.source[self.at..].starts_with(part)
    }

    fn skip(&mut self) {
        loop {
            if self.byte().is_some_and(|c| c.is_ascii_whitespace()) {
                self.at += 1;
            } else if self.starts("/*") {
                self.at = self.source[self.at..].find("*/").map_or(self.source.len(), |end| self.at + end + 2);
            } else {
                break;
            }
        }
    }

    /// The first of the stops outside strings, parentheses and interpolations.
    fn find(&self, from: usize, end: usize, stops: &[u8]) -> usize {
        let bytes = self.source.as_bytes();
        let mut depth = 0;
        let mut at = from;
        while at < end {
            let c = bytes[at];
            if c == b'"' || c == b'\'' {
                at += 1;
                while at < end && bytes[at] != c {
                    if bytes[at] == b'\\' {
                        at += 1;
                    }
                    at += 1;
                }
            } else if c == b'#' && at + 1 < end && bytes[at + 1] == b'{' {
                while at < end && bytes[at] != b'}' {
                    at += 1;
                }
            } else if depth == 0 && stops.contains(&c) {
                return at;
            } else if c == b'(' {
                depth += 1;
            } else if c == b')' {
                depth -= 1;
            }
            at += 1;
        }
        end
    }

    fn trimmed(&self, mut start: usize, mut end: usize) -> (usize, usize) {
        let bytes = self.source.as_bytes();
        while start < end && bytes[start].is_ascii_whitespace() {
            start += 1;
        }
        while start < end && bytes[end - 1].is_ascii_whitespace() {
            end -= 1;
        }
        (start, end)
    }

    fn ident(&self, start: usize, end: usize) -> Tree {
        let name = &self.source[start..end];
        if name.contains("#{") {
            node("SassInterpolatedIdent", start, end, vec![])
        } else {
            node("Ident", start, end, vec![("name", text(name)), ("raw", text(name))])
        }
    }

    fn string(&self, start: usize, end: usize) -> Tree {
        let value = &self.source[start + 1..end - 1];
        if value.contains("#{") {
            node("SassInterpolatedStr", start, end, vec![])
        } else {
            node("Str", start, end, vec![("value", text(value)), ("raw", text(&self.source[start..end]))])
        }
    }

    fn value(&self, start: usize, end: usize) -> Tree {
        let bytes = self.source.as_bytes();
        if bytes[start] == b'"' || bytes[start] == b'\'' {
            self.string(start, end)
        } else if bytes[start..end].iter().all(|c| is_name(*c)) {
            self.ident(start, end)
        } else if let Some(open) = self.source[start..end].find('(') {
            let args = self.values(start + open + 1, end - 1);
            node("Function", start, end, vec![("name", self.ident(start, start + open)), ("args", Tree::List(args))])
        } else {
            node("Other", start, end, vec![])
        }
    }

    fn values(&self, start: usize, end: usize) -> Vec<Tree> {
        let mut list = Vec::new();
        let mut at = start;
        while at < end {
            let stop = self.find(at, end, b" \t\n,");
            if stop > at {
                list.push(self.value(at, stop));
            }
            at = stop + 1;
        }
        list
    }

    fn selector(&self, start: usize, end: usize) -> Tree {
        let bytes = self.source.as_bytes();
        let mut children = Vec::new();
        let mut at = start;
        while at < end {
            let gap = at;
            while at < end && bytes[at].is_ascii_whitespace() {
                at += 1;
            }
            let mark = at;
            let mut kind = "Descendant";
            if self.source[at..end].starts_with("/deep/") {
                kind = "Deep";
                at += "/deep/".len();
            } else if bytes[at] == b'>' {
                kind = "Child";
                at += 1;
            } else if bytes[at] == b'+' {
                kind = "NextSibling";
                at += 1;
            } else if bytes[at] == b'~' {
                kind = "LaterSibling";
                at += 1;
            }
            while at < end && bytes[at].is_ascii_whitespace() {
                at += 1;
            }
            if at > gap {
                children.push(node("Combinator", mark, at, vec![("kind", text(kind))]));
            }
            let compound = at;
            let mut simples = Vec::new();
            while at < end && !bytes[at].is_ascii_whitespace() && !b">+~/".contains(&bytes[at]) {
                let first = at;
                if bytes[at] == b'.' || bytes[at] == b'#' {
                    let kind = if bytes[at] == b'.' { "ClassSelector" } else { "IdSelector" };
                    at += 1;
                    let name = at;
                    at = self.name_end(at, end);
                    simples.push(node(kind, first, at, vec![("name", self.ident(name, at))]));
                } else if bytes[at] == b':' {
                    let kind = if bytes[at + 1] == b':' { "PseudoElementSelector" } else { "PseudoClassSelector" };
                    while bytes[at] == b':' {
                        at += 1;
                    }
                    let name = at;
                    at = self.name_end(at, end);
                    let name = self.ident(name, at);
                    let mut arg = Tree::Null;
                    if at < end && bytes[at] == b'(' {
                        let close = self.find(at + 1, end, b")");
                        arg = node(
                            "PseudoClassSelectorArg",
                            at,
                            close + 1,
                            vec![
                                ("kind", self.selectors(at + 1, close)),
                                ("lParen", span(at, at + 1)),
                                ("rParen", span(close, close + 1)),
                            ],
                        );
                        at = close + 1;
                    }
                    simples.push(node(kind, first, at, vec![("name", name), ("arg", arg)]));
                } else if bytes[at] == b'*' {
                    at += 1;
                    simples.push(node("UniversalSelector", first, at, vec![]));
                } else if bytes[at] == b'&' {
                    at = self.name_end(at + 1, end);
                    let suffix = if at > first + 1 { self.ident(first + 1, at) } else { Tree::Null };
                    simples.push(node("NestingSelector", first, at, vec![("suffix", suffix)]));
                } else {
                    at = self.name_end(at, end).max(at + 1);
                    let name = node("WqName", first, at, vec![("name", self.ident(first, at))]);
                    simples.push(node("TagNameSelector", first, at, vec![("name", name)]));
                }
            }
            children.push(node("CompoundSelector", compound, at, vec![("children", Tree::List(simples))]));
        }
        node("ComplexSelector", start, end, vec![("children", Tree::List(children))])
    }

    fn name_end(&self, start: usize, end: usize) -> usize {
        let bytes = self.source.as_bytes();
        let mut at = start;
        while at < end {
            if is_name(bytes[at]) {
                at += 1;
            } else if self.source[at..end].starts_with("#{") {
                at += self.source[at..end].find('}').unwrap() + 1;
            } else {
                break;
            }
        }
        at
    }

    fn selectors(&self, start: usize, end: usize) -> Tree {
        let mut list = Vec::new();
        let mut at = start;
        while at <= end {
            let stop = self.find(at, end, b",");
            let (from, to) = self.trimmed(at, stop);
            if from < to {
                list.push(self.selector(from, to));
            }
            at = stop + 1;
        }
        node("SelectorList", start, end, vec![("selectors", Tree::List(list))])
    }

    fn block(&mut self) -> Result<Tree, String> {
        let start = self.at;
        self.at += 1;
        let statements = self.statements(true)?;
        self.at += 1;
        Ok(node("SimpleBlock", start, self.at, vec![("statements", Tree::List(statements))]))
    }

    fn declaration(&mut self, end: usize) -> Tree {
        let start = self.at;
        let colon = start + self.source[start..end].find(':').unwrap();
        let (from, to) = self.trimmed(colon + 1, end);
        let important = if self.source[from..to].ends_with("!important") {
            node("ImportantAnnotation", to - "!important".len(), to, vec![])
        } else {
            Tree::Null
        };
        self.at = end;
        node(
            "Declaration",
            start,
            to,
            vec![
                ("name", self.ident(start, self.trimmed(start, colon).1)),
                ("colonSpan", span(colon, colon + 1)),
                ("value", Tree::List(self.values(from, to))),
                ("important", important),
            ],
        )
    }

    fn href(&self, start: usize, end: usize) -> (Tree, usize) {
        if self.source[start..end].starts_with("url(") {
            let close = self.find(start + 4, end, b")");
            let value = if self.source.as_bytes()[start + 4] == b'"' {
                self.string(start + 4, close)
            } else {
                node("UrlRaw", start + 4, close, vec![("value", text(&self.source[start + 4..close]))])
            };
            (node("Url", start, close + 1, vec![("value", value)]), close + 1)
        } else {
            let close = start + 1 + self.source[start + 1..end].find('"').unwrap() + 1;
            (self.string(start, close), close)
        }
    }

    fn tokens(&self, start: usize, end: usize) -> Vec<Tree> {
        let bytes = self.source.as_bytes();
        let mut list = Vec::new();
        let mut at = start;
        while at < end {
            let first = at;
            if bytes[at].is_ascii_whitespace() {
                at += 1;
                continue;
            }
            if bytes[at] == b'"' {
                at += self.source[at + 1..end].find('"').unwrap() + 2;
            } else if is_name(bytes[at]) {
                at = self.name_end(at, end);
            } else {
                at += 1;
            }
            list.push(node("TokenWithSpan", first, at, vec![]));
        }
        list
    }

    fn prelude(&self, name: &str, start: usize, end: usize) -> Tree {
        if start >= end {
            return Tree::Null;
        }
        let sass = self.syntax == StylesheetSyntax::Scss || self.syntax == StylesheetSyntax::Sass;
        match name {
            "import" if sass => {
                node("SassImportPrelude", start, end, vec![("paths", Tree::List(vec![self.string(start, end)]))])
            }
            "import" if self.syntax == StylesheetSyntax::Less => {
                let at = start + self.source[start..end].find('"').unwrap();
                node("LessImportPrelude", start, end, vec![("href", self.href(at, end).0)])
            }
            "import" => {
                let (href, at) = self.href(start, end);
                let (from, to) = self.trimmed(at, end);
                let rest = &self.source[from..to];
                let mut fields = vec![("href", href)];
                if rest.matches('(').count() > 1 {
                    let values = Tree::List(self.tokens(from, to));
                    fields.push(("modifiers", node("ComponentValues", from, to, vec![("values", values)])));
                } else if !rest.is_empty() {
                    let queries = if rest.contains('(') { vec![self.value(from, to)] } else { vec![] };
                    let queries = Tree::List(queries);
                    fields.push(("media", node("MediaQueryList", from, to, vec![("queries", queries)])));
                }
                node("ImportPrelude", start, end, fields)
            }
            "use" => node("SassUse", start, end, vec![("path", self.string(start, end))]),
            "forward" => node("SassForward", start, end, vec![("path", self.string(start, end))]),
            "keyframes" | "property" => {
                let from = self.source[start..end].rfind(' ').map_or(start, |space| start + space + 1);
                self.ident(from, end)
            }
            _ => node("UnknownAtRulePrelude", start, end, vec![]),
        }
    }

    fn at_rule(&mut self) -> Result<Tree, String> {
        let start = self.at;
        self.at += 1;
        let name_start = self.at;
        self.at = self.name_end(self.at, self.source.len());
        let name_end = self.at;
        let name = self.source[name_start..name_end].to_string();
        let stop = self.find(self.at, self.source.len(), b";{}");
        let (from, to) = self.trimmed(self.at, stop);
        if self.source[from..to].contains('\u{b}') {
            return Err("unexpected token".to_string());
        }
        let prelude = self.prelude(&name, from, to);
        self.at = stop;
        let mut block = Tree::Null;
        let mut end = to.max(name_end);
        if self.byte() == Some(b'{') {
            block = self.block()?;
            end = self.at;
            if name == "keyframes" {
                block = rename_rules(block);
            }
        }
        let label = node("Ident", name_start, name_end, vec![("name", text(&name))]);
        Ok(node("AtRule", start, end, vec![("name", label), ("prelude", prelude), ("block", block)]))
    }

    fn statements(&mut self, nested: bool) -> Result<Vec<Tree>, String> {
        let mut list = Vec::new();
        loop {
            self.skip();
            match self.byte() {
                None if nested => return Err("unclosed block".to_string()),
                None => return Ok(list),
                Some(b'}') if nested => return Ok(list),
                Some(b';') => self.at += 1,
                Some(b'@') => list.push(self.at_rule()?),
                Some(first) => {
                    let stop = self.find(self.at, self.source.len(), b"{};");
                    if stop < self.source.len() && self.source.as_bytes()[stop] == b'{' {
                        let start = self.at;
                        let to = self.trimmed(start, stop).1;
                        let selector = self.selectors(start, to);
                        self.at = stop;
                        let block = self.block()?;
                        let fields = vec![("selector", selector), ("block", block)];
                        list.push(node("QualifiedRule", start, self.at, fields));
                    } else if first == b'$' && self.syntax != StylesheetSyntax::Css {
                        list.push(node("SassVariableDeclaration", self.at, stop, vec![]));
                        self.at = stop;
                    } else if nested {
                        list.push(self.declaration(stop));
                    } else {
                        return Err("unexpected token".to_string());
                    }
                }
            }
        }
    }

    /// The statements of the indented syntax: rules of one line each, with
    /// their declarations indented below.
    fn indented(&mut self) -> Vec<Tree> {
        let mut list = Vec::new();
        while self.at < self.source.len() {
            let start = self.at;
            let end = self.source[start..].find('\n').map_or(self.source.len(), |line| start + line);
            if self.starts("@") {
                self.at = self.name_end(start + 1, end);
                let name = self.source[start + 1..self.at].to_string();
                let prelude = self.prelude(&name, self.at + 1, end);
                let label = node("Ident", start + 1, self.at, vec![("name", text(&name))]);
                list.push(node("AtRule", start, end, vec![("name", label), ("prelude", prelude)]));
                self.at = end + 1;
            } else {
                let selector = self.selectors(start, end);
                self.at = end + 1;
                let mut statements = Vec::new();
                while self.starts("  ") {
                    self.at += 2;
                    let stop = self.source[self.at..].find('\n').map_or(self.source.len(), |line| self.at + line);
                    statements.push(self.declaration(stop));
                    self.at += 1;
                }
                let block = node("SimpleBlock", end, self.at, vec![("statements", Tree::List(statements))]);
                list.push(node("QualifiedRule", start, self.at, vec![("selector", selector), ("block", block)]));
            }
        }
        list
    }
}

/// The blocks of keyframes are no style rules.
fn rename_rules(tree: Tree) -> Tree {
    match tree {
        Tree::Node(fields) => Tree::Node(
            fields
                .into_iter()
                .map(|(name, value)| {
                    let value = if name == "statements" {
                        match value {
                            Tree::List(items) => Tree::List(items.into_iter().map(rename_rules).collect()),
                            other => other,
                        }
                    } else if name == "type" && matches!(&value, Tree::Text(kind) if kind == "QualifiedRule") {
                        text("KeyframeBlock")
                    } else {
                        value
                    };
                    (name, value)
                })
                .collect(),
        ),
        other => other,
    }
}

fn parse(source: &str, syntax: StylesheetSyntax) -> Parse {
    let mut css = Css { source, syntax, at: 0 };
    let statements =
        if syntax == StylesheetSyntax::Sass { Ok(css.indented()) } else { css.statements(false) };
    Parse {
        text: source.to_string(),
        syntax,
        outcome: statements.map(|list| node("Stylesheet", 0, source.len(), vec![("statements", Tree::List(list))])),
    }
}

// ---------------------------------------------------------------------------
// Stylesheet analysis
// ---------------------------------------------------------------------------

fn texts(list: &[&str]) -> Vec<String> {
    list.iter().map(|item| item.to_string()).collect()
}

fn analyze(path: &str, source: &str) -> StylesheetAnalysis {
    let syntax = stylesheet_syntax(path).unwrap();
    match stylesheet_analysis(&vec![parse(source, syntax)], path, source) {
        Ok(analysis) => analysis,
        Err(halt) => panic!("{halt:?}"),
    }
}

#[test]
fn collects_stylesheet_dependencies_for_every_supported_syntax() {
    for (path, source, expected) in [
        (
            "/p/main.css",
            "@import \"./base.css\" screen;\n.x { composes: y from \"./x.module.css\"; }\n.global { composes: reset from global; }\n",
            vec!["./base.css", "./x.module.css"],
        ),
        (
            "/p/main.scss",
            "@use \"./tokens\";\n@forward \"./shared\";\n@import \"./legacy\";\n.x { composes: y from \"./x.module.css\"; }\n",
            vec!["./legacy", "./shared", "./tokens", "./x.module.css"],
        ),
        (
            "/p/main.sass",
            "@use \"./tokens\"\n@forward \"./shared\"\n@import \"./legacy\"\n.x\n  composes: y from \"./x.module.css\"\n",
            vec!["./legacy", "./shared", "./tokens", "./x.module.css"],
        ),
        (
            "/p/main.less",
            "@import (reference) \"./tokens.less\";\n.x { composes: y from \"./x.module.css\"; }\n",
            vec!["./tokens.less", "./x.module.css"],
        ),
    ] {
        let analysis = analyze(path, source);
        assert_eq!(analysis.references, texts(&expected), "{path}");
        assert!(!analysis.unverifiable, "{path}");
    }
}

#[test]
fn collects_loading_import_media_and_byte_spans() {
    let source = "/* 😀 */\n@import url(\"./print.css\") print;\n.rule {}\n@import \"./late.css\";\n";
    let analysis = analyze("/p/main.css", source);
    let start = source.find("@import").unwrap();
    let end = source[start..].find(';').unwrap() + start + 1;
    assert_eq!(analysis.imports.len(), 1);
    assert_eq!(analysis.imports[0].href, "./print.css");
    assert_eq!(analysis.imports[0].media, "print");
    assert_eq!(analysis.imports[0].start, start);
    assert_eq!(analysis.imports[0].end, end);
}

#[test]
fn collects_theme_tokens_and_global_at_rule_identities() {
    let analysis = analyze(
        "/p/theme.css",
        "@theme { --spacing-card: calc(1rem + 2px); }\n\
         @font-face { font-family: \"My  Font\"; src: url(font.woff2); }\n\
         @media print { @font-face { font-family: Print; src: url(print.woff2); } }\n\
         @property --angle { syntax: \"<angle>\"; }\n\
         @property /* docs */ --angle { syntax: \"<angle>\"; }\n\
         @page :left { margin: 1cm; }\n",
    );
    assert_eq!(analysis.theme_tokens, vec![("spacing-card".to_string(), "calc(1rem + 2px)".to_string())]);
    assert_eq!(
        analysis.global_at_rule_identities,
        texts(&["font-face my font", "font-face print", "property --angle", "property --angle", "page"])
    );
}

#[test]
fn collects_vue_scope_escapes_from_selector_nodes() {
    let analysis = analyze(
        "/p/scoped.css",
        ".a :deep(.inside:is(.x, .y)) {}\n.b::v-global(.free) {}\n.c :global .open {}\n.d /deep/ .legacy {}\n.e :deep(.host):is(:deep(.card), :not(:global(.note))) {}\n",
    );
    assert_eq!(
        analysis.scope_escapes,
        texts(&[".inside:is(.x, .y) {}", ".free {}", ".host {}", ".card {}", ".note {}"])
    );
    assert!(analysis.scope_escapes_unverifiable);
    assert!(!analysis.selectors_unverifiable);
}

#[test]
fn marks_interpolated_registration_identities_unverifiable() {
    let analysis = analyze("/p/main.scss", "$name: brand;\n@property --#{$name} { syntax: \"<color>\"; }\n");
    assert!(analysis.global_at_rule_identities.is_empty());
    assert!(analysis.global_at_rules_unverifiable);
}

#[test]
fn marks_interpolated_selectors_unverifiable() {
    let analysis = analyze("/p/main.scss", "$kind: card;\n.#{$kind} {}\n.block { &-active {} }\n");
    assert!(analysis.selectors_unverifiable);
}

#[test]
fn marks_interpolated_stylesheet_dependencies_unverifiable() {
    let analysis = analyze("/p/main.scss", "$name: \"theme\";\n@use \"./#{$name}\";\n");
    assert!(analysis.references.is_empty());
    assert!(analysis.unverifiable);
}

fn directives(source: &str) -> Vec<CssDirective> {
    match collect_css_directives(&vec![parse(source, StylesheetSyntax::Css)], source) {
        Ok(list) => list,
        Err(halt) => panic!("{halt:?}"),
    }
}

fn import(directive: &CssDirective) -> (Option<&str>, bool, Option<&str>, bool) {
    match directive {
        CssDirective::Import { specifier, tailwind, source, source_unreadable } => {
            (specifier.as_deref(), *tailwind, source.as_deref(), *source_unreadable)
        }
        _ => panic!("no import"),
    }
}

fn source(directive: &CssDirective) -> (bool, bool, Option<&str>, bool) {
    match directive {
        CssDirective::Source { not, inline, scope, unreadable } => (*not, *inline, scope.as_deref(), *unreadable),
        _ => panic!("no source"),
    }
}

#[test]
fn collects_top_level_css_directives_only() {
    let parsed = directives(
        "@import \"tailwindcss\" source(none);\n\
         @import \"tailwindcss/utilities\" prefix(tw) source(\"./apps\");\n\
         @import url(./theme.css);\n\
         @source not \"./packages/app\";\n\
         @source inline(\"width-lte-700px:hidden\");\n\
         .rule { content: '@source \"./inside-string\"'; }\n\
         @media screen { .x { color: red; } }\n",
    );
    assert_eq!(parsed.len(), 6);
    assert_eq!(import(&parsed[0]), (Some("tailwindcss"), true, Some("none"), false));
    assert_eq!(import(&parsed[1]), (Some("tailwindcss/utilities"), true, Some("./apps"), false));
    assert_eq!(import(&parsed[2]), (Some("./theme.css"), false, None, false));
    assert_eq!(source(&parsed[3]), (true, false, Some("./packages/app"), false));
    assert_eq!(source(&parsed[4]), (false, true, None, false));
    assert!(matches!(&parsed[5], CssDirective::Other { name } if name == "media"));
}

#[test]
fn source_preludes_are_read_by_their_grammar() {
    assert_eq!(source(&source_directive("  \"./a\" ")), (false, false, Some("./a"), false));
    assert_eq!(source(&source_directive("not './a'")), (true, false, Some("./a"), false));
    assert_eq!(source(&source_directive("not inline(\"x\")")), (true, true, None, false));
    assert_eq!(source(&source_directive("nothing")), (false, false, None, true));
    assert_eq!(source(&source_directive("\"\"")), (false, false, None, true));
    assert_eq!(source(&source_directive("   ")), (false, false, None, true));
    assert_eq!(source(&source_directive("")), (false, false, None, true));
    assert_eq!(source(&source_directive("not ")), (false, false, None, true));
    assert_eq!(source(&directives("@source;\n@source {}\n")[0]), (false, false, None, true));
}

#[test]
fn import_sources_that_cannot_be_read_are_marked() {
    let parsed = directives("@import \"tailwindcss\" source(12px);\n@import \"tailwindcss\" prefix(tw) source(a b);\n");
    assert_eq!(import(&parsed[0]), (Some("tailwindcss"), true, None, true));
    assert_eq!(import(&parsed[1]), (Some("tailwindcss"), true, None, true));
}

#[test]
fn only_stylesheets_that_parse_are_analyzed() {
    let unknown: Vec<Parse> = Vec::new();
    assert!(matches!(
        stylesheet_analysis(&unknown, "/p/a.styl", ""),
        Err(Halt::Failed(error)) if error.message == "Unsupported stylesheet: /p/a.styl"
    ));
    assert!(matches!(
        stylesheet_analysis(&unknown, "/p/a.css", ".a {}"),
        Err(Halt::Unparsed(text, StylesheetSyntax::Css)) if text == ".a {}"
    ));
    let bad = "@media \u{b}screen {}";
    let parses = vec![parse(bad, StylesheetSyntax::Css)];
    assert!(matches!(
        stylesheet_analysis(&parses, "app.css", bad),
        Err(Halt::Failed(error)) if error.message == "Failed to parse app.css: unexpected token"
    ));
    assert!(matches!(
        collect_css_directives(&parses, bad),
        Err(Halt::Failed(error)) if error.message == "Failed to parse stylesheet: unexpected token"
    ));
    assert!(matches!(
        validate_css(&parses, bad),
        Err(Halt::Failed(error)) if error.message == "Edited stylesheet no longer parses: unexpected token"
    ));
    assert!(validate_css(&vec![parse(".a {}", StylesheetSyntax::Css)], ".a {}").is_ok());
}

#[test]
fn the_last_value_of_a_theme_token_counts() {
    let analysis = analyze("/p/theme.css", "@theme { --b: 1px; --a: 2px; --b: 3px; color: red; }\n");
    assert_eq!(
        analysis.theme_tokens,
        vec![("a".to_string(), "2px".to_string()), ("b".to_string(), "3px".to_string())]
    );
}

#[test]
fn composed_references_have_to_be_written_out() {
    let analysis = analyze("/p/a.css", ".x { composes: y from; }\n");
    assert!(analysis.unverifiable);
    let analysis = analyze("/p/a.css", ".x { composes: y; color: from; }\n");
    assert!(!analysis.unverifiable);
    assert!(analysis.references.is_empty());
}

#[test]
fn nested_escapes_are_not_taken_apart() {
    let analysis = analyze("/p/a.css", ".a { .b :deep(.c) { color: red; } }\n.d { color: red; }\n");
    assert_eq!(analysis.scope_escapes, texts(&[".c {}"]));
    assert!(analysis.scope_escapes_unverifiable);
    assert_eq!(analysis.scope_shadow_css, texts(&[".d {}"]));
}

#[test]
fn font_families_are_folded_to_lower_case() {
    let analysis = analyze("/p/a.css", "@font-face { font-family: 'STRAẞE  Å'; }\n@font-face { src: url(a); }\n");
    assert_eq!(analysis.global_at_rule_identities, texts(&["font-face straße å", "font-face "]));
    assert_eq!(font_face_identity("a b"), "font-face a b");
}

#[test]
fn emptied_conditions_are_removed() {
    let css = "@media print {\n  .a { color: red; }\n}\n.b { color: red; }\n";
    let left = "@media print {\n  \n}\n.b { color: red; }\n";
    let conditionals: Conditionals = vec![("media".to_string(), "unsupported-media".to_string())];
    let parses = vec![parse(css, StylesheetSyntax::Css), parse(left, StylesheetSyntax::Css)];
    let before = remove_empty_conditionals(&parses, &conditionals, css.to_string(), StylesheetSyntax::Css).unwrap();
    assert_eq!(before, css);
    let gone = "\n.b { color: red; }\n";
    let parses = vec![parse(left, StylesheetSyntax::Css), parse(gone, StylesheetSyntax::Css)];
    let after = remove_empty_conditionals(&parses, &conditionals, left.to_string(), StylesheetSyntax::Css).unwrap();
    assert_eq!(after, gone);
}
