//! What the component graph makes of the statements of a script.
use crate::extract_laws::{reached, swept_regions_hide_no_usage};
use crate::graph_laws::is_styles;
use crate::jsx_extract::{
    after_declarator, after_declarators, after_deferred_default, after_export_specifier, after_export_specifiers,
    after_specifier, after_specifiers, after_statement, after_statements, built_components, extracted, no_props,
    read_module, ImportedModel, OutModel, ReadModel, SweepModel, SymbolsModel,
};
use crate::jsx_graph::Reason;
use crate::markup_laws::stays_ahead;
use crate::path::{normalized, resolved};
use crate::source_laws::lemma_ahead;
use crate::syntax::{declared, field, inner, items, of_kind, span_of, string_value, text_field, ModuleModel};
use crate::tree::TreeModel;
use vstd::prelude::*;

verus! {

/// Nothing that was read is lost.
pub open spec fn reads_on(before: ReadModel, after: ReadModel) -> bool {
    &&& stays_ahead(before.builds, after.builds)
    &&& stays_ahead(before.sweeps, after.sweeps)
    &&& stays_ahead(before.specifiers, after.specifiers)
    &&& stays_ahead(before.named_exports, after.named_exports)
    &&& stays_ahead(before.imports, after.imports)
    &&& stays_ahead(before.bound.comp_symbols, after.bound.comp_symbols)
    &&& stays_ahead(before.bound.import_symbols, after.bound.import_symbols)
    &&& stays_ahead(before.bound.ns_symbols, after.bound.ns_symbols)
    &&& before.unsound ==> after.unsound
    &&& after.bound.symbols == before.bound.symbols
    &&& after.bound.file_path == before.bound.file_path
    &&& after.bound.css_target == before.bound.css_target
}

proof fn lemma_on(a: ReadModel, b: ReadModel, c: ReadModel)
    requires
        reads_on(a, b),
        reads_on(b, c),
    ensures
        reads_on(a, c),
{
    lemma_ahead(a.builds, b.builds, c.builds);
    lemma_ahead(a.sweeps, b.sweeps, c.sweeps);
    lemma_ahead(a.specifiers, b.specifiers, c.specifiers);
    lemma_ahead(a.named_exports, b.named_exports, c.named_exports);
    lemma_ahead(a.imports, b.imports, c.imports);
    lemma_ahead(a.bound.comp_symbols, b.bound.comp_symbols, c.bound.comp_symbols);
    lemma_ahead(a.bound.import_symbols, b.bound.import_symbols, c.bound.import_symbols);
    lemma_ahead(a.bound.ns_symbols, b.bound.ns_symbols, c.bound.ns_symbols);
}

proof fn lemma_declarator(read: ReadModel, declarator: TreeModel, exported: bool)
    ensures
        reads_on(read, after_declarator(read, declarator, exported)),
{
}

proof fn lemma_declarators(read: ReadModel, list: Seq<TreeModel>, k: int, n: int, exported: bool)
    requires
        0 <= k <= n,
    ensures
        reads_on(after_declarators(read, list, k, exported), after_declarators(read, list, n, exported)),
    decreases n - k,
{
    if k < n {
        lemma_declarators(read, list, k, n - 1, exported);
        let before = after_declarators(read, list, n - 1, exported);
        lemma_declarator(before, list[n - 1], exported);
        lemma_on(
            after_declarators(read, list, k, exported),
            before,
            after_declarators(read, list, n, exported),
        );
    }
}

proof fn lemma_specifiers(read: ReadModel, list: Seq<TreeModel>, k: int, n: int, source: Seq<char>, is_css: bool)
    requires
        0 <= k <= n,
    ensures
        reads_on(after_specifiers(read, list, k, source, is_css), after_specifiers(read, list, n, source, is_css)),
    decreases n - k,
{
    if k < n {
        lemma_specifiers(read, list, k, n - 1, source, is_css);
        let before = after_specifiers(read, list, n - 1, source, is_css);
        assert(reads_on(before, after_specifier(before, list[n - 1], source, is_css)));
        lemma_on(
            after_specifiers(read, list, k, source, is_css),
            before,
            after_specifiers(read, list, n, source, is_css),
        );
    }
}

proof fn lemma_statement(read: ReadModel, statement: TreeModel)
    ensures
        reads_on(read, after_statement(read, statement)),
{
    let declaration = field(statement, "declaration"@);
    let own = items(statement, "declarations"@);
    let list = items(declaration, "declarations"@);
    let specifiers = items(statement, "specifiers"@);
    lemma_declarators(read, own, 0, own.len() as int, false);
    lemma_declarators(read, list, 0, list.len() as int, true);
    if let Some(source) = string_value(field(statement, "source"@)) {
        let is_css = resolved(read.bound.file_path, source) == read.bound.css_target;
        lemma_specifiers(read, specifiers, 0, specifiers.len() as int, source, is_css);
    }
}

proof fn lemma_statements(read: ReadModel, list: Seq<TreeModel>, k: int, n: int)
    requires
        0 <= k <= n,
    ensures
        reads_on(after_statements(read, list, k), after_statements(read, list, n)),
    decreases n - k,
{
    if k < n {
        lemma_statements(read, list, k, n - 1);
        let before = after_statements(read, list, n - 1);
        lemma_statement(before, list[n - 1]);
        lemma_on(after_statements(read, list, k), before, after_statements(read, list, n));
    }
}

proof fn lemma_exports(read: ReadModel, list: Seq<TreeModel>, n: int)
    ensures
        reads_on(read, after_export_specifiers(read, list, n)),
    decreases n,
{
    if n > 0 {
        lemma_exports(read, list, n - 1);
        let before = after_export_specifiers(read, list, n - 1);
        assert(reads_on(before, after_export_specifier(before, list[n - 1])));
        lemma_on(read, before, after_export_specifiers(read, list, n));
    }
}

/// What the statement was read as is known of the whole script.
pub open spec fn was_read(statement: TreeModel, result: ReadModel) -> bool {
    exists|before: ReadModel| reads_on(#[trigger] after_statement(before, statement), result)
}

proof fn lemma_was_read(path: Seq<char>, css_path: Seq<char>, module: ModuleModel, i: int)
    requires
        0 <= i < items(module.tree, "body"@).len(),
    ensures
        was_read(items(module.tree, "body"@)[i], read_module(path, css_path, module)),
        read_module(path, css_path, module).bound.symbols == module.symbols,
        read_module(path, css_path, module).bound.file_path == path,
        read_module(path, css_path, module).bound.css_target == normalized(css_path),
{
    let start = ReadModel {
        bound: SymbolsModel {
            symbols: module.symbols,
            file_path: path,
            css_target: normalized(css_path),
            css_symbol: None,
            comp_symbols: seq![],
            import_symbols: seq![],
            ns_symbols: seq![],
        },
        comps: seq![],
        named_exports: seq![],
        default_export: None,
        imports: seq![],
        builds: seq![],
        sweeps: seq![],
        specifiers: seq![],
        deferred_default: TreeModel::Null,
        unsound: false,
    };
    let list = items(module.tree, "body"@);
    let n = list.len() as int;
    let read = after_statements(start, list, n);
    lemma_statements(start, list, 0, n);
    lemma_statements(start, list, i + 1, n);
    lemma_exports(read, read.specifiers, read.specifiers.len() as int);
    let exported = after_export_specifiers(read, read.specifiers, read.specifiers.len() as int);
    let result = read_module(path, css_path, module);
    assert(reads_on(exported, after_deferred_default(exported)));
    assert(result == after_deferred_default(exported));
    lemma_on(read, exported, result);
    lemma_on(start, read, result);
    let own = after_statement(after_statements(start, list, i), list[i]);
    lemma_on(own, read, result);
}

proof fn lemma_kinds()
    ensures
        "FunctionDeclaration"@ != "ImportDeclaration"@,
        "VariableDeclaration"@ != "ImportDeclaration"@,
        "VariableDeclaration"@ != "FunctionDeclaration"@,
        "VariableDeclaration"@ != "TSDeclareFunction"@,
        "ExportNamedDeclaration"@ != "ImportDeclaration"@,
        "ExportNamedDeclaration"@ != "FunctionDeclaration"@,
        "ExportNamedDeclaration"@ != "TSDeclareFunction"@,
        "ExportNamedDeclaration"@ != "VariableDeclaration"@,
        "ImportDefaultSpecifier"@ != "ImportSpecifier"@,
        "ExpressionStatement"@ != "ImportDeclaration"@,
        "ExpressionStatement"@ != "FunctionDeclaration"@,
        "ExpressionStatement"@ != "TSDeclareFunction"@,
        "ExpressionStatement"@ != "VariableDeclaration"@,
        "ExpressionStatement"@ != "ExportNamedDeclaration"@,
        "ExpressionStatement"@ != "ExportDefaultDeclaration"@,
        "ExpressionStatement"@ != "ExportAllDeclaration"@,
        "ExpressionStatement"@ != "TSTypeAliasDeclaration"@,
        "ExpressionStatement"@ != "TSInterfaceDeclaration"@,
        "ExpressionStatement"@ != "TSEnumDeclaration"@,
        "ExpressionStatement"@ != "TSModuleDeclaration"@,
        "ExpressionStatement"@ != "TSImportEqualsDeclaration"@,
{
    reveal_strlit("FunctionDeclaration");
    reveal_strlit("ImportDeclaration");
    reveal_strlit("VariableDeclaration");
    reveal_strlit("TSDeclareFunction");
    reveal_strlit("ExportNamedDeclaration");
    reveal_strlit("ImportDefaultSpecifier");
    reveal_strlit("ImportSpecifier");
    reveal_strlit("ExpressionStatement");
    reveal_strlit("ExportDefaultDeclaration");
    reveal_strlit("ExportAllDeclaration");
    reveal_strlit("TSTypeAliasDeclaration");
    reveal_strlit("TSInterfaceDeclaration");
    reveal_strlit("TSEnumDeclaration");
    reveal_strlit("TSModuleDeclaration");
    reveal_strlit("TSImportEqualsDeclaration");
    assert("FunctionDeclaration"@.len() == 19 && "FunctionDeclaration"@[0] == 'F');
    assert("ImportDeclaration"@.len() == 17);
    assert("VariableDeclaration"@.len() == 19 && "VariableDeclaration"@[0] == 'V');
    assert("TSDeclareFunction"@.len() == 17);
    assert("ExportNamedDeclaration"@.len() == 22);
    assert("ImportDefaultSpecifier"@.len() == 22);
    assert("ImportSpecifier"@.len() == 15);
    assert("ExpressionStatement"@.len() == 19 && "ExpressionStatement"@[0] == 'E');
    assert("ExportDefaultDeclaration"@.len() == 24);
    assert("ExportAllDeclaration"@.len() == 20);
    assert("TSTypeAliasDeclaration"@.len() == 22);
    assert("TSInterfaceDeclaration"@.len() == 22);
    assert("TSEnumDeclaration"@.len() == 17);
    assert("TSModuleDeclaration"@.len() == 19 && "TSModuleDeclaration"@[0] == 'T');
    assert("TSImportEqualsDeclaration"@.len() == 25);
}

/// The function is a component of the script, under the symbol that its name
/// declares.
pub open spec fn is_component(read: ReadModel, id: TreeModel, function: TreeModel) -> bool {
    exists|index: usize| #[trigger]
        read.builds.contains((index, function)) && (declared(read.bound.symbols, id) matches Some(
            symbol,
        ) ==> read.bound.comp_symbols.contains((symbol, index)))
}

/// The function is exported under the name.
pub open spec fn is_exported(read: ReadModel, function: TreeModel, name: Seq<char>) -> bool {
    exists|index: usize| #[trigger]
        read.builds.contains((index, function)) && read.named_exports.contains((name, index))
}

proof fn lemma_component(own: ReadModel, result: ReadModel, index: usize, id: TreeModel, function: TreeModel)
    requires
        reads_on(own, result),
        own.builds.len() > 0,
        own.builds.last() == (index, function),
        declared(own.bound.symbols, id) matches Some(symbol) ==> own.bound.comp_symbols.len() > 0
            && own.bound.comp_symbols.last() == (symbol, index),
    ensures
        result.builds.contains((index, function)),
        is_component(result, id, function),
{
    let k = own.builds.len() - 1;
    assert(result.builds[k] == (index, function));
    if let Some(symbol) = declared(own.bound.symbols, id) {
        let m = own.bound.comp_symbols.len() - 1;
        assert(result.bound.comp_symbols[m] == own.bound.comp_symbols[m]);
        assert(result.bound.comp_symbols.contains((symbol, index)));
    }
    assert(result.builds.contains((index, function)));
}

/// Every function that a script declares is one of its components, and an
/// exported one is known under its name.
pub proof fn every_function_is_a_component(path: Seq<char>, css_path: Seq<char>, module: ModuleModel, i: int)
    requires
        0 <= i < items(module.tree, "body"@).len(),
    ensures
        ({
            let statement = items(module.tree, "body"@)[i];
            let declaration = field(statement, "declaration"@);
            let read = read_module(path, css_path, module);
            &&& of_kind(statement, "FunctionDeclaration"@) && field(statement, "id"@) != TreeModel::Null
                ==> is_component(read, field(statement, "id"@), statement)
            &&& of_kind(statement, "ExportNamedDeclaration"@) && field(statement, "source"@) == TreeModel::Null && of_kind(
                declaration,
                "FunctionDeclaration"@,
            ) && field(declaration, "id"@) != TreeModel::Null ==> is_component(
                read,
                field(declaration, "id"@),
                declaration,
            ) && (text_field(field(declaration, "id"@), "name"@) matches Some(name) ==> is_exported(
                read,
                declaration,
                name,
            ))
        }),
{
    lemma_kinds();
    lemma_was_read(path, css_path, module, i);
    let statement = items(module.tree, "body"@)[i];
    let declaration = field(statement, "declaration"@);
    let read = read_module(path, css_path, module);
    let before = choose|before: ReadModel| reads_on(#[trigger] after_statement(before, statement), read);
    let own = after_statement(before, statement);
    let index = before.comps.len() as usize;
    if of_kind(statement, "FunctionDeclaration"@) && field(statement, "id"@) != TreeModel::Null {
        lemma_component(own, read, index, field(statement, "id"@), statement);
    }
    if of_kind(statement, "ExportNamedDeclaration"@) && field(statement, "source"@) == TreeModel::Null && of_kind(
        declaration,
        "FunctionDeclaration"@,
    ) && field(declaration, "id"@) != TreeModel::Null {
        lemma_component(own, read, index, field(declaration, "id"@), declaration);
        if let Some(name) = text_field(field(declaration, "id"@), "name"@) {
            let m = own.named_exports.len() - 1;
            assert(own.named_exports[m] == (name, index));
            assert(read.named_exports[m] == (name, index));
            assert(read.named_exports.contains((name, index)));
        }
    }
}

/// The value is a function.
pub open spec fn is_function(value: TreeModel) -> bool {
    of_kind(value, "ArrowFunctionExpression"@) || of_kind(value, "FunctionExpression"@)
}

/// A variable that holds a function is a component, too.
pub proof fn functions_in_variables_are_components(
    path: Seq<char>,
    css_path: Seq<char>,
    module: ModuleModel,
    i: int,
    k: int,
)
    requires
        0 <= i < items(module.tree, "body"@).len(),
        of_kind(items(module.tree, "body"@)[i], "VariableDeclaration"@),
        0 <= k < items(items(module.tree, "body"@)[i], "declarations"@).len(),
        ({
            let declarator = items(items(module.tree, "body"@)[i], "declarations"@)[k];
            of_kind(field(declarator, "id"@), "Identifier"@) && field(declarator, "init"@) != TreeModel::Null
                && is_function(inner(field(declarator, "init"@)))
        }),
    ensures
        ({
            let declarator = items(items(module.tree, "body"@)[i], "declarations"@)[k];
            is_component(
                read_module(path, css_path, module),
                field(declarator, "id"@),
                inner(field(declarator, "init"@)),
            )
        }),
{
    lemma_kinds();
    lemma_was_read(path, css_path, module, i);
    let statement = items(module.tree, "body"@)[i];
    let list = items(statement, "declarations"@);
    let n = list.len() as int;
    let read = read_module(path, css_path, module);
    let before = choose|before: ReadModel| reads_on(#[trigger] after_statement(before, statement), read);
    assert(after_statement(before, statement) == after_declarators(before, list, n, false));
    lemma_declarators(before, list, k + 1, n, false);
    let earlier = after_declarators(before, list, k, false);
    let own = after_declarators(before, list, k + 1, false);
    lemma_on(own, after_declarators(before, list, n, false), read);
    let index = earlier.comps.len() as usize;
    assert(field(list[k], "id"@) != TreeModel::Null) by {
        assert(field(TreeModel::Null, "type"@) == TreeModel::Null);
    }
    lemma_component(own, read, index, field(list[k], "id"@), inner(field(list[k], "init"@)));
}

/// A default import of another script is known by the name that it has here.
pub proof fn default_imports_are_known_by_name(
    path: Seq<char>,
    css_path: Seq<char>,
    module: ModuleModel,
    i: int,
    k: int,
    source: Seq<char>,
    name: Seq<char>,
)
    requires
        0 <= i < items(module.tree, "body"@).len(),
        of_kind(items(module.tree, "body"@)[i], "ImportDeclaration"@),
        string_value(field(items(module.tree, "body"@)[i], "source"@)) == Some(source),
        resolved(path, source) != normalized(css_path),
        0 <= k < items(items(module.tree, "body"@)[i], "specifiers"@).len(),
        ({
            let specifier = items(items(module.tree, "body"@)[i], "specifiers"@)[k];
            of_kind(specifier, "ImportDefaultSpecifier"@) && declared(module.symbols, field(specifier, "local"@)) is Some
                && text_field(field(specifier, "local"@), "name"@) == Some(name)
        }),
    ensures
        read_module(path, css_path, module).imports.contains((name, (source, ImportedModel::Default))),
        ({
            let specifier = items(items(module.tree, "body"@)[i], "specifiers"@)[k];
            read_module(path, css_path, module).bound.import_symbols.contains(
                (declared(module.symbols, field(specifier, "local"@))->0, name),
            )
        }),
{
    lemma_kinds();
    lemma_was_read(path, css_path, module, i);
    let statement = items(module.tree, "body"@)[i];
    let list = items(statement, "specifiers"@);
    let n = list.len() as int;
    let read = read_module(path, css_path, module);
    let before = choose|before: ReadModel| reads_on(#[trigger] after_statement(before, statement), read);
    lemma_statement(before, statement);
    lemma_on(before, after_statement(before, statement), read);
    lemma_specifiers(before, list, 0, k, source, false);
    lemma_specifiers(before, list, k + 1, n, source, false);
    let earlier = after_specifiers(before, list, k, source, false);
    let own = after_specifiers(before, list, k + 1, source, false);
    lemma_on(own, after_specifiers(before, list, n, source, false), read);
    let m = earlier.imports.len() as int;
    assert(own.imports[m] == (name, (source, ImportedModel::Default)));
    assert(read.imports[m] == own.imports[m]);
    let p = earlier.bound.import_symbols.len() as int;
    assert(read.bound.import_symbols[p] == own.bound.import_symbols[p]);
}

/// A statement that only runs hides no usage: every class of the CSS Module that
/// it names is among the file's usages that are not proven.
pub proof fn statements_outside_components_hide_no_usage(
    path: Seq<char>,
    css_path: Seq<char>,
    module: ModuleModel,
    i: int,
    node: TreeModel,
    name: Seq<char>,
)
    requires
        0 <= i < items(module.tree, "body"@).len(),
        of_kind(items(module.tree, "body"@)[i], "ExpressionStatement"@),
        ({
            let bound = read_module(path, css_path, module).bound;
            &&& reached(
                items(module.tree, "body"@)[i],
                SweepModel { bound, props: no_props(), reason: Reason::Boundary },
                node,
            )
            &&& is_styles(bound, node, name)
        }),
    ensures
        extracted(path, css_path, module).boundary_usages.contains((name, span_of(node), Reason::Boundary)),
{
    lemma_kinds();
    lemma_was_read(path, css_path, module, i);
    let statement = items(module.tree, "body"@)[i];
    let read = read_module(path, css_path, module);
    let before = choose|before: ReadModel| reads_on(#[trigger] after_statement(before, statement), read);
    let own = after_statement(before, statement);
    let k = before.sweeps.len() as int;
    assert(own.sweeps[k] == (statement, Reason::Boundary));
    assert(read.sweeps[k] == own.sweeps[k]);
    let start = OutModel {
        boundary_usages: seq![],
        rendered_marks: seq![],
        ns_member_specs: seq![],
        unsound: read.unsound,
        forward_bad: false,
        children_bad: false,
    };
    let (comps, built) = built_components(read.bound, read.builds, read.builds.len() as int, read.comps, start);
    swept_regions_hide_no_usage(read.bound, read.sweeps, k, built, node, name);
}

} // verus!
