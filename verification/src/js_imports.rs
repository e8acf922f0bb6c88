//! Where a JavaScript or TypeScript module imports a CSS Module.
use crate::jsx_extract::{get_loaded, loaded};
use crate::path::{normalize_path, normalized, resolve_import, resolved, FilePath, PathModel};
use crate::syntax::{
    declared, field, find_declared, get, get_items, get_span, is_kind, items, of_kind, optional_string, optional_text,
    span_of, string_value, Occurrence,
};
use crate::text::{ends, ends_with};
use crate::tree::{fields_model, lemma_fields_model, lemma_list_model, list_model, tree_model, Tree, TreeModel};
use vstd::prelude::*;

verus! {

/// A default import of the CSS Module: its symbol, and the span of the import.
pub type Binding = (usize, (usize, usize));

/// What the imports of a CSS Module come to.
pub struct Imports {
    pub bindings: Vec<Binding>,
    /// The module is imported, re-exported or loaded in a way that cannot be
    /// migrated.
    pub unsupported_shape: bool,
    /// The first place that names the module.
    pub warning_span: Option<(usize, usize)>,
}

/// The model of [`Imports`].
pub struct ImportsModel {
    pub bindings: Seq<Binding>,
    pub unsupported_shape: bool,
    pub warning_span: Option<(usize, usize)>,
}

impl View for Imports {
    type V = ImportsModel;

    open spec fn view(&self) -> ImportsModel {
        ImportsModel {
            bindings: self.bindings@,
            unsupported_shape: self.unsupported_shape,
            warning_span: self.warning_span,
        }
    }
}

/// No import.
pub open spec fn no_imports() -> ImportsModel {
    ImportsModel { bindings: seq![], unsupported_shape: false, warning_span: None }
}

/// The first span counts.
pub open spec fn first_span(known: Option<(usize, usize)>, span: (usize, usize)) -> Option<(usize, usize)> {
    match known {
        Some(known) => Some(known),
        None => Some(span),
    }
}

/// What is looked for: the CSS Module at `target`, named from `file_path`.
pub struct TargetModel {
    pub file_path: Seq<char>,
    pub target: PathModel,
    pub symbols: Seq<Occurrence>,
}

/// The specifier names the CSS Module.
pub open spec fn hits(at: TargetModel, specifier: Option<Seq<char>>) -> bool {
    specifier is Some && resolved(at.file_path, specifier->0) == at.target
}

/// `out` with the first `n` specifiers of an import of the CSS Module.
pub open spec fn with_specifiers(
    at: TargetModel,
    span: (usize, usize),
    specifiers: Seq<TreeModel>,
    n: int,
    out: ImportsModel,
) -> ImportsModel
    decreases n,
{
    if n <= 0 {
        out
    } else {
        let before = with_specifiers(at, span, specifiers, n - 1, out);
        let symbol = declared(at.symbols, field(specifiers[n - 1], "local"@));
        if of_kind(specifiers[n - 1], "ImportDefaultSpecifier"@) && symbol is Some {
            ImportsModel { bindings: before.bindings.push((symbol->0, span)), ..before }
        } else {
            ImportsModel { unsupported_shape: true, ..before }
        }
    }
}

/// `out` with what one node adds.
pub open spec fn after_import(at: TargetModel, tree: TreeModel, out: ImportsModel) -> ImportsModel {
    let span = span_of(tree);
    let source = string_value(field(tree, "source"@));
    let seen = ImportsModel { warning_span: first_span(out.warning_span, span), ..out };
    if of_kind(tree, "ImportDeclaration"@) {
        if hits(at, source) {
            let specifiers = items(tree, "specifiers"@);
            with_specifiers(
                at,
                span,
                specifiers,
                specifiers.len() as int,
                ImportsModel { unsupported_shape: seen.unsupported_shape || specifiers.len() != 1, ..seen },
            )
        } else {
            out
        }
    } else if of_kind(tree, "ExportNamedDeclaration"@) || of_kind(tree, "ExportAllDeclaration"@) {
        if hits(at, source) {
            ImportsModel { unsupported_shape: true, ..seen }
        } else {
            out
        }
    } else if hits(at, loaded(tree)) {
        ImportsModel { unsupported_shape: true, ..seen }
    } else {
        out
    }
}

/// `out` with everything that the tree imports, in the order of the text.
pub open spec fn imported(at: TargetModel, tree: TreeModel, out: ImportsModel) -> ImportsModel
    decreases tree, 0nat,
{
    match tree {
        TreeModel::List(list) => imported_items(at, list, list.len(), out),
        TreeModel::Node(fields) => imported_fields(at, fields, fields.len(), after_import(at, tree, out)),
        _ => out,
    }
}

pub open spec fn imported_items(at: TargetModel, list: Seq<TreeModel>, n: nat, out: ImportsModel) -> ImportsModel
    decreases list, n,
{
    if n == 0 || n > list.len() {
        out
    } else {
        imported(at, list[n - 1], imported_items(at, list, (n - 1) as nat, out))
    }
}

pub open spec fn imported_fields(
    at: TargetModel,
    fields: Seq<(Seq<char>, TreeModel)>,
    n: nat,
    out: ImportsModel,
) -> ImportsModel
    decreases fields, n,
{
    if n == 0 || n > fields.len() {
        out
    } else {
        imported(at, fields[n - 1].1, imported_fields(at, fields, (n - 1) as nat, out))
    }
}

/// What is looked for.
struct Target<'a> {
    file_path: &'a str,
    target: &'a FilePath,
    symbols: &'a Vec<Occurrence>,
}

impl<'a> View for Target<'a> {
    type V = TargetModel;

    closed spec fn view(&self) -> TargetModel {
        TargetModel { file_path: self.file_path@, target: self.target@, symbols: self.symbols@ }
    }
}

fn is_hit<'a>(at: &Target<'a>, specifier: Option<&String>) -> (result: bool)
    ensures
        result == hits(at@, optional_text(specifier)),
{
    match specifier {
        Some(specifier) => resolve_import(at.file_path, specifier.as_str()).same(at.target),
        None => false,
    }
}

fn note_span(out: &mut Imports, span: (usize, usize))
    ensures
        final(out)@ == (ImportsModel { warning_span: first_span(old(out)@.warning_span, span), ..old(out)@ }),
{
    if out.warning_span.is_none() {
        out.warning_span = Some(span);
    }
}

fn collect_specifiers<'a>(at: &Target<'a>, span: (usize, usize), specifiers: &Vec<Tree>, out: &mut Imports)
    ensures
        final(out)@ == with_specifiers(
            at@,
            span,
            list_model(specifiers@, specifiers@.len()),
            specifiers@.len() as int,
            old(out)@,
        ),
{
    proof {
        lemma_list_model(specifiers@, specifiers@.len());
    }
    let ghost models = list_model(specifiers@, specifiers@.len());
    let ghost start = out@;
    let mut n: usize = 0;
    while n < specifiers.len()
        invariant
            n <= specifiers@.len(),
            models.len() == specifiers@.len(),
            forall|k: int| 0 <= k < specifiers@.len() ==> #[trigger] models[k] == tree_model(specifiers@[k]),
            out@ == with_specifiers(at@, span, models, n as int, start),
        decreases specifiers.len() - n,
    {
        assert(models[n as int] == tree_model(specifiers@[n as int]));
        let specifier = &specifiers[n];
        let symbol = match get(specifier, "local") {
            Some(local) => find_declared(at.symbols, local),
            None => find_declared(at.symbols, &Tree::Null),
        };
        match symbol {
            Some(symbol) => {
                if is_kind(specifier, "ImportDefaultSpecifier") {
                    out.bindings.push((symbol, span));
                } else {
                    out.unsupported_shape = true;
                }
            },
            None => {
                out.unsupported_shape = true;
            },
        }
        n += 1;
    }
}

fn collect_import<'a>(at: &Target<'a>, tree: &Tree, out: &mut Imports)
    ensures
        final(out)@ == after_import(at@, tree@, old(out)@),
{
    let span = get_span(tree);
    if is_kind(tree, "ImportDeclaration") {
        if is_hit(at, optional_string(get(tree, "source"))) {
            note_span(out, span);
            match get_items(tree, "specifiers") {
                Some(specifiers) => {
                    proof {
                        lemma_list_model(specifiers@, specifiers@.len());
                    }
                    if specifiers.len() != 1 {
                        out.unsupported_shape = true;
                    }
                    collect_specifiers(at, span, specifiers, out);
                },
                None => {
                    out.unsupported_shape = true;
                },
            }
        }
    } else if is_kind(tree, "ExportNamedDeclaration") || is_kind(tree, "ExportAllDeclaration") {
        if is_hit(at, optional_string(get(tree, "source"))) {
            out.unsupported_shape = true;
            note_span(out, span);
        }
    } else if is_hit(at, get_loaded(tree)) {
        out.unsupported_shape = true;
        note_span(out, span);
    }
}

fn collect_imports<'a>(at: &Target<'a>, tree: &Tree, out: &mut Imports)
    ensures
        final(out)@ == imported(at@, tree@, old(out)@),
    decreases tree,
{
    match tree {
        Tree::List(list) => {
            proof {
                lemma_list_model(list@, list@.len());
            }
            let ghost models = list_model(list@, list@.len());
            let ghost start = out@;
            let mut n: usize = 0;
            while n < list.len()
                invariant
                    *tree == Tree::List(*list),
                    n <= list@.len(),
                    models.len() == list@.len(),
                    forall|k: int| 0 <= k < list@.len() ==> #[trigger] models[k] == tree_model(list@[k]),
                    out@ == imported_items(at@, models, n as nat, start),
                decreases list.len() - n,
            {
                assert(models[n as int] == tree_model(list@[n as int]));
                assert(decreases_to!(list@ => list@[n as int]));
                assert(decreases_to!(*tree => (*tree)->List_0));
                assert(decreases_to!(*list => list@));
                collect_imports(at, &list[n], out);
                n += 1;
            }
        },
        Tree::Node(fields) => {
            collect_import(at, tree, out);
            proof {
                lemma_fields_model(fields@, fields@.len());
            }
            let ghost models = fields_model(fields@, fields@.len());
            let ghost start = out@;
            let mut n: usize = 0;
            while n < fields.len()
                invariant
                    *tree == Tree::Node(*fields),
                    n <= fields@.len(),
                    models.len() == fields@.len(),
                    forall|k: int|
                        0 <= k < fields@.len() ==> #[trigger] models[k] == (fields@[k].0@, tree_model(fields@[k].1)),
                    out@ == imported_fields(at@, models, n as nat, start),
                decreases fields.len() - n,
            {
                assert(models[n as int] == (fields@[n as int].0@, tree_model(fields@[n as int].1)));
                assert(decreases_to!(fields@ => fields@[n as int]));
                assert(decreases_to!(fields@[n as int] => fields@[n as int].1));
                assert(decreases_to!(*tree => (*tree)->Node_0));
                assert(decreases_to!(*fields => fields@));
                collect_imports(at, &fields[n].1, out);
                n += 1;
            }
        },
        _ => {},
    }
}

/// The imports of the CSS Module at `css_path` in a module.
pub open spec fn imports_of(
    file_path: Seq<char>,
    css_path: Seq<char>,
    symbols: Seq<Occurrence>,
    tree: TreeModel,
) -> ImportsModel {
    imported(TargetModel { file_path, target: normalized(css_path), symbols }, tree, no_imports())
}

/// The imports of the CSS Module at `css_path` in a module.
pub fn find_imports(file_path: &str, css_path: &str, symbols: &Vec<Occurrence>, tree: &Tree) -> (result: Imports)
    ensures
        result@ == imports_of(file_path@, css_path@, symbols@, tree@),
{
    let target = normalize_path(css_path);
    let mut out = empty_imports();
    collect_imports(&Target { file_path, target: &target, symbols }, tree, &mut out);
    out
}

/// No import.
pub fn empty_imports() -> (result: Imports)
    ensures
        result@ == no_imports(),
{
    let result = Imports { bindings: Vec::new(), unsupported_shape: false, warning_span: None };
    assert(result@.bindings =~= no_imports().bindings);
    result
}

/// The symbols that the first `n` specifiers import by default.
pub open spec fn default_symbols(symbols: Seq<Occurrence>, specifiers: Seq<TreeModel>, n: int, found: Seq<usize>) -> Seq<
    usize,
>
    decreases n,
{
    if n <= 0 {
        found
    } else {
        let before = default_symbols(symbols, specifiers, n - 1, found);
        match declared(symbols, field(specifiers[n - 1], "local"@)) {
            Some(symbol) => if of_kind(specifiers[n - 1], "ImportDefaultSpecifier"@) {
                before.push(symbol)
            } else {
                before
            },
            None => before,
        }
    }
}

/// The statement imports a CSS Module.
pub open spec fn imports_module_css(statement: TreeModel) -> bool {
    of_kind(statement, "ImportDeclaration"@) && (string_value(field(statement, "source"@)) matches Some(source) && ends(
        source,
        ".module.css"@,
    ))
}

/// The symbols of the CSS Modules that the first `n` statements import.
pub open spec fn module_symbols_of(symbols: Seq<Occurrence>, statements: Seq<TreeModel>, n: int) -> Seq<usize>
    decreases n,
{
    if n <= 0 {
        seq![]
    } else {
        let before = module_symbols_of(symbols, statements, n - 1);
        let specifiers = items(statements[n - 1], "specifiers"@);
        if imports_module_css(statements[n - 1]) {
            default_symbols(symbols, specifiers, specifiers.len() as int, before)
        } else {
            before
        }
    }
}

fn is_module_css_import(statement: &Tree) -> (result: bool)
    ensures
        result == imports_module_css(statement@),
{
    is_kind(statement, "ImportDeclaration") && match optional_string(get(statement, "source")) {
        Some(source) => ends_with(source.as_str(), ".module.css"),
        None => false,
    }
}

fn push_default_symbols(symbols: &Vec<Occurrence>, specifiers: &Vec<Tree>, found: &mut Vec<usize>)
    ensures
        final(found)@ == default_symbols(
            symbols@,
            list_model(specifiers@, specifiers@.len()),
            specifiers@.len() as int,
            old(found)@,
        ),
{
    proof {
        lemma_list_model(specifiers@, specifiers@.len());
    }
    let ghost models = list_model(specifiers@, specifiers@.len());
    let ghost start = found@;
    let mut n: usize = 0;
    while n < specifiers.len()
        invariant
            n <= specifiers@.len(),
            models.len() == specifiers@.len(),
            forall|k: int| 0 <= k < specifiers@.len() ==> #[trigger] models[k] == tree_model(specifiers@[k]),
            found@ == default_symbols(symbols@, models, n as int, start),
        decreases specifiers.len() - n,
    {
        assert(models[n as int] == tree_model(specifiers@[n as int]));
        let specifier = &specifiers[n];
        let symbol = match get(specifier, "local") {
            Some(local) => find_declared(symbols, local),
            None => find_declared(symbols, &Tree::Null),
        };
        if let Some(symbol) = symbol {
            if is_kind(specifier, "ImportDefaultSpecifier") {
                found.push(symbol);
            }
        }
        n += 1;
    }
}

/// The symbols of the CSS Modules that a program imports. On the global path,
/// members of CSS Module imports can never match a global class: they are
/// module references handled by the module's own plan, not dynamic class
/// names.
pub open spec fn global_symbols(symbols: Seq<Occurrence>, program: TreeModel) -> Seq<usize> {
    let body = items(program, "body"@);
    module_symbols_of(symbols, body, body.len() as int)
}

/// The symbols of the CSS Modules that a program imports.
pub fn find_global_symbols(symbols: &Vec<Occurrence>, program: &Tree) -> (result: Vec<usize>)
    ensures
        result@ == global_symbols(symbols@, program@),
{
    let mut found: Vec<usize> = Vec::new();
    let body = match get_items(program, "body") {
        Some(body) => body,
        None => {
            assert(found@ =~= Seq::<usize>::empty());
            return found;
        },
    };
    proof {
        lemma_list_model(body@, body@.len());
    }
    let ghost models = list_model(body@, body@.len());
    assert(found@ =~= Seq::<usize>::empty());
    let mut n: usize = 0;
    while n < body.len()
        invariant
            n <= body@.len(),
            models.len() == body@.len(),
            forall|k: int| 0 <= k < body@.len() ==> #[trigger] models[k] == tree_model(body@[k]),
            found@ == module_symbols_of(symbols@, models, n as int),
        decreases body.len() - n,
    {
        assert(models[n as int] == tree_model(body@[n as int]));
        let statement = &body[n];
        if is_module_css_import(statement) {
            if let Some(specifiers) = get_items(statement, "specifiers") {
                proof {
                    lemma_list_model(specifiers@, specifiers@.len());
                }
                push_default_symbols(symbols, specifiers, &mut found);
            }
        }
        n += 1;
    }
    found
}

/// The symbol is that of a binding.
pub open spec fn bound_to(bindings: Seq<Binding>, symbol: usize) -> bool {
    exists|i: int| 0 <= i < bindings.len() && (#[trigger] bindings[i]).0 == symbol
}

/// Whether the symbol is that of a binding.
pub fn is_bound(bindings: &Vec<Binding>, symbol: usize) -> (result: bool)
    ensures
        result == bound_to(bindings@, symbol),
{
    let mut i: usize = 0;
    while i < bindings.len()
        invariant
            i <= bindings@.len(),
            forall|j: int| 0 <= j < i ==> (#[trigger] bindings@[j]).0 != symbol,
        decreases bindings.len() - i,
    {
        if bindings[i].0 == symbol {
            return true;
        }
        i += 1;
    }
    false
}

/// How many of the first `n` occurrences refer to a binding.
pub open spec fn references_to(symbols: Seq<Occurrence>, bindings: Seq<Binding>, n: int) -> int
    decreases n,
{
    if n <= 0 {
        0
    } else {
        references_to(symbols, bindings, n - 1) + if symbols[n - 1].2 && bound_to(bindings, symbols[n - 1].1) {
            1int
        } else {
            0int
        }
    }
}

/// How many occurrences refer to a binding.
pub fn count_references(symbols: &Vec<Occurrence>, bindings: &Vec<Binding>) -> (result: usize)
    ensures
        result == references_to(symbols@, bindings@, symbols@.len() as int),
{
    let mut count: usize = 0;
    let mut n: usize = 0;
    while n < symbols.len()
        invariant
            count <= n <= symbols@.len(),
            count == references_to(symbols@, bindings@, n as int),
        decreases symbols.len() - n,
    {
        if symbols[n].2 && is_bound(bindings, symbols[n].1) {
            count += 1;
        }
        n += 1;
    }
    count
}

} // verus!
