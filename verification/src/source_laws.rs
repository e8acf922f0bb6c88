//! What a script is found to name and use.
use crate::markup_laws::stays_ahead;
use crate::path_laws::{fields_hold, holds_node, items_hold};
use crate::source_analysis::{
    after_source_node, default_bindings, expression_facts, learned, learned_fields, learned_items, mentions,
    mentions_fields, mentions_items, module_facts, no_facts, only_types, role_in, with_vue_imports, FactsModel, Role,
    SourceImportModel, SourceModel,
};
use crate::syntax::{field, flag, items, of_kind, string_value, text_field, Occurrence};
use crate::tree::TreeModel;
use vstd::prelude::*;

verus! {

// ---------------------------------------------------------------------------
// Nothing is forgotten
// ---------------------------------------------------------------------------

/// Everything that was known is known.
pub open spec fn knows(before: FactsModel, after: FactsModel) -> bool {
    let a = before.analysis;
    let b = after.analysis;
    &&& stays_ahead(before.functions, after.functions)
    &&& stays_ahead(before.namespaces, after.namespaces)
    &&& stays_ahead(before.aliases, after.aliases)
    &&& stays_ahead(a.imports, b.imports)
    &&& stays_ahead(a.static_imports, b.static_imports)
    &&& stays_ahead(a.default_imports, b.default_imports)
    &&& stays_ahead(a.vue_glob_patterns, b.vue_glob_patterns)
    &&& a.vue_glob_unverifiable ==> b.vue_glob_unverifiable
    &&& a.has_dynamic_import ==> b.has_dynamic_import
    &&& a.has_vue_fallthrough_macro ==> b.has_vue_fallthrough_macro
    &&& a.uses_css_module ==> b.uses_css_module
}

pub proof fn lemma_ahead<A>(a: Seq<A>, b: Seq<A>, c: Seq<A>)
    ensures
        stays_ahead(a, b) && stays_ahead(b, c) ==> stays_ahead(a, c),
{
    if stays_ahead(a, b) && stays_ahead(b, c) {
        assert forall|i: int| 0 <= i < a.len() implies #[trigger] c[i] == a[i] by {
            assert(c[i] == b[i]);
        }
    }
}

proof fn lemma_knows(a: FactsModel, b: FactsModel, c: FactsModel)
    requires
        knows(a, b),
        knows(b, c),
    ensures
        knows(a, c),
{
    lemma_ahead(a.functions, b.functions, c.functions);
    lemma_ahead(a.namespaces, b.namespaces, c.namespaces);
    lemma_ahead(a.aliases, b.aliases, c.aliases);
    lemma_ahead(a.analysis.imports, b.analysis.imports, c.analysis.imports);
    lemma_ahead(a.analysis.static_imports, b.analysis.static_imports, c.analysis.static_imports);
    lemma_ahead(a.analysis.default_imports, b.analysis.default_imports, c.analysis.default_imports);
    lemma_ahead(a.analysis.vue_glob_patterns, b.analysis.vue_glob_patterns, c.analysis.vue_glob_patterns);
}

proof fn lemma_node_knows(at: SourceModel, tree: TreeModel, role: Role, facts: FactsModel)
    ensures
        knows(facts, after_source_node(at, tree, role, facts)),
{
}

proof fn lemma_learned(at: SourceModel, tree: TreeModel, role: Role, facts: FactsModel)
    ensures
        knows(facts, learned(at, tree, role, facts)),
    decreases tree, 0nat,
{
    match tree {
        TreeModel::List(list) => {
            lemma_learned_items(at, list, list.len(), role, facts);
        },
        TreeModel::Node(fields) => {
            let own = after_source_node(at, tree, role, facts);
            lemma_node_knows(at, tree, role, facts);
            lemma_learned_fields(at, tree, fields, fields.len(), role, own);
            lemma_knows(facts, own, learned(at, tree, role, facts));
        },
        _ => {},
    }
}

proof fn lemma_learned_items(at: SourceModel, list: Seq<TreeModel>, n: nat, role: Role, facts: FactsModel)
    ensures
        knows(facts, learned_items(at, list, n, role, facts)),
    decreases list, n,
{
    if n > 0 && n <= list.len() {
        lemma_learned_items(at, list, (n - 1) as nat, role, facts);
        let before = learned_items(at, list, (n - 1) as nat, role, facts);
        lemma_learned(at, list[n - 1], role, before);
        lemma_knows(facts, before, learned_items(at, list, n, role, facts));
    }
}

proof fn lemma_learned_fields(
    at: SourceModel,
    tree: TreeModel,
    fields: Seq<(Seq<char>, TreeModel)>,
    n: nat,
    role: Role,
    facts: FactsModel,
)
    ensures
        knows(facts, learned_fields(at, tree, fields, n, role, facts)),
    decreases fields, n,
{
    if n > 0 && n <= fields.len() {
        lemma_learned_fields(at, tree, fields, (n - 1) as nat, role, facts);
        let before = learned_fields(at, tree, fields, (n - 1) as nat, role, facts);
        lemma_learned(at, fields[n - 1].1, role_in(tree, role, fields[n - 1].0), before);
        lemma_knows(facts, before, learned_fields(at, tree, fields, n, role, facts));
    }
}

/// What the node says is known.
pub open spec fn is_heard(at: SourceModel, node: TreeModel, result: FactsModel) -> bool {
    exists|role: Role, before: FactsModel| knows(#[trigger] after_source_node(at, node, role, before), result)
}

proof fn lemma_heard(at: SourceModel, tree: TreeModel, role: Role, node: TreeModel, facts: FactsModel)
    requires
        holds_node(tree, node),
    ensures
        is_heard(at, node, learned(at, tree, role, facts)),
    decreases tree, 0nat,
{
    match tree {
        TreeModel::List(list) => {
            lemma_heard_items(at, list, list.len(), role, node, facts);
        },
        TreeModel::Node(fields) => {
            let own = after_source_node(at, tree, role, facts);
            lemma_learned_fields(at, tree, fields, fields.len(), role, own);
            if tree == node {
                assert(knows(after_source_node(at, node, role, facts), learned(at, tree, role, facts)));
            } else {
                lemma_heard_fields(at, tree, fields, fields.len(), role, node, own);
            }
        },
        _ => {},
    }
}

proof fn lemma_heard_items(at: SourceModel, list: Seq<TreeModel>, n: nat, role: Role, node: TreeModel, facts: FactsModel)
    requires
        items_hold(list, n, node),
    ensures
        is_heard(at, node, learned_items(at, list, n, role, facts)),
    decreases list, n,
{
    let before = learned_items(at, list, (n - 1) as nat, role, facts);
    if items_hold(list, (n - 1) as nat, node) {
        lemma_heard_items(at, list, (n - 1) as nat, role, node, facts);
        lemma_learned(at, list[n - 1], role, before);
        let (r, first) = choose|r: Role, first: FactsModel|
            knows(#[trigger] after_source_node(at, node, r, first), before);
        lemma_knows(after_source_node(at, node, r, first), before, learned_items(at, list, n, role, facts));
    } else {
        lemma_heard(at, list[n - 1], role, node, before);
    }
}

proof fn lemma_heard_fields(
    at: SourceModel,
    tree: TreeModel,
    fields: Seq<(Seq<char>, TreeModel)>,
    n: nat,
    role: Role,
    node: TreeModel,
    facts: FactsModel,
)
    requires
        fields_hold(fields, n, node),
    ensures
        is_heard(at, node, learned_fields(at, tree, fields, n, role, facts)),
    decreases fields, n,
{
    let before = learned_fields(at, tree, fields, (n - 1) as nat, role, facts);
    let inside = role_in(tree, role, fields[n - 1].0);
    if fields_hold(fields, (n - 1) as nat, node) {
        lemma_heard_fields(at, tree, fields, (n - 1) as nat, role, node, facts);
        lemma_learned(at, fields[n - 1].1, inside, before);
        let (r, first) = choose|r: Role, first: FactsModel|
            knows(#[trigger] after_source_node(at, node, r, first), before);
        lemma_knows(after_source_node(at, node, r, first), before, learned_fields(at, tree, fields, n, role, facts));
    } else {
        lemma_heard(at, fields[n - 1].1, inside, node, before);
    }
}

proof fn lemma_kinds()
    ensures
        "ImportDeclaration"@ != "ExportNamedDeclaration"@,
        "ImportDeclaration"@ != "ExportAllDeclaration"@,
        "ImportDeclaration"@ != "ImportExpression"@,
        "ImportDeclaration"@ != "CallExpression"@,
        "ExportNamedDeclaration"@ != "ExportAllDeclaration"@,
        "ExportNamedDeclaration"@ != "ImportExpression"@,
        "ExportAllDeclaration"@ != "ImportExpression"@,
        "CallExpression"@ != "ExportNamedDeclaration"@,
        "CallExpression"@ != "ExportAllDeclaration"@,
        "CallExpression"@ != "ImportExpression"@,
        "CallExpression"@ != "TSImportEqualsDeclaration"@,
        "CallExpression"@ != "VariableDeclarator"@,
{
    reveal_strlit("ImportDeclaration");
    reveal_strlit("ExportNamedDeclaration");
    reveal_strlit("ExportAllDeclaration");
    reveal_strlit("ImportExpression");
    reveal_strlit("CallExpression");
    reveal_strlit("TSImportEqualsDeclaration");
    reveal_strlit("VariableDeclarator");
    assert("ImportDeclaration"@.len() == 17);
    assert("ExportNamedDeclaration"@.len() == 22);
    assert("ExportAllDeclaration"@.len() == 20);
    assert("ImportExpression"@.len() == 16);
    assert("CallExpression"@.len() == 14);
    assert("TSImportEqualsDeclaration"@.len() == 25);
    assert("VariableDeclarator"@.len() == 18);
}

// ---------------------------------------------------------------------------
// Modules that are named
// ---------------------------------------------------------------------------

/// The node names the module: it imports from it, exports from it, or loads it
/// when it runs.
pub open spec fn names_module(node: TreeModel, specifier: Seq<char>) -> bool {
    let source = string_value(field(node, "source"@));
    let callee = field(node, "callee"@);
    let arguments = items(node, "arguments"@);
    ||| (of_kind(node, "ImportDeclaration"@) || of_kind(node, "ExportNamedDeclaration"@) || of_kind(
        node,
        "ExportAllDeclaration"@,
    ) || of_kind(node, "ImportExpression"@)) && source == Some(specifier)
    ||| of_kind(node, "CallExpression"@) && of_kind(callee, "Identifier"@) && text_field(callee, "name"@) == Some(
        "require"@,
    ) && arguments.len() > 0 && string_value(arguments[0]) == Some(specifier)
}

/// Some import is of the module.
pub open spec fn lists_module(imports: Seq<SourceImportModel>, specifier: Seq<char>) -> bool {
    exists|i: int| 0 <= i < imports.len() && (#[trigger] imports[i]).specifier == specifier
}

/// Every module that a script names, in whatever form and wherever, is among its
/// imports.
pub proof fn every_named_module_is_listed(
    text: Seq<char>,
    tree: TreeModel,
    symbols: Seq<Occurrence>,
    node: TreeModel,
    specifier: Seq<char>,
)
    requires
        holds_node(tree, node),
        names_module(node, specifier),
    ensures
        lists_module(module_facts(text, tree, symbols).imports, specifier),
        of_kind(node, "ImportExpression"@) ==> module_facts(text, tree, symbols).has_dynamic_import,
{
    lemma_kinds();
    let at = SourceModel { text, symbols };
    let body = items(tree, "body"@);
    let start = with_vue_imports(symbols, body, body.len() as int, no_facts());
    let result = learned(at, tree, Role::Reference, start);
    lemma_heard(at, tree, Role::Reference, node, start);
    let (role, before) = choose|role: Role, before: FactsModel|
        knows(#[trigger] after_source_node(at, node, role, before), result);
    let own = after_source_node(at, node, role, before);
    let k = before.analysis.imports.len() as int;
    assert(own.analysis.imports[k].specifier == specifier);
    assert(result.analysis.imports[k] == own.analysis.imports[k]);
}

proof fn lemma_default(source: Seq<char>, specifiers: Seq<TreeModel>, n: int, i: int, local: Seq<char>)
    requires
        0 <= i < n <= specifiers.len(),
        of_kind(specifiers[i], "ImportDefaultSpecifier"@),
        text_field(field(specifiers[i], "local"@), "name"@) == Some(local),
    ensures
        default_bindings(source, specifiers, n).contains((source, local)),
    decreases n,
{
    let before = default_bindings(source, specifiers, n - 1);
    let after = default_bindings(source, specifiers, n);
    if i < n - 1 {
        lemma_default(source, specifiers, n - 1, i, local);
        let k = choose|k: int| 0 <= k < before.len() && before[k] == (source, local);
        assert(after[k] == (source, local));
    } else {
        assert(after[before.len() as int] == (source, local));
    }
}

/// The specifier brings in a value.
pub open spec fn brings_value(specifier: TreeModel) -> bool {
    !of_kind(specifier, "ExportSpecifier"@) && text_field(specifier, "importKind"@) != Some("type"@)
}

/// An import of values is static, and its default binding is known by the name
/// that the script gives it.
pub proof fn imports_of_values_are_static(
    text: Seq<char>,
    tree: TreeModel,
    symbols: Seq<Occurrence>,
    node: TreeModel,
    specifier: Seq<char>,
)
    requires
        holds_node(tree, node),
        of_kind(node, "ImportDeclaration"@),
        string_value(field(node, "source"@)) == Some(specifier),
        text_field(node, "importKind"@) != Some("type"@),
        text_field(node, "phase"@) is None,
        items(node, "specifiers"@).len() == 0 || exists|i: int|
            0 <= i < items(node, "specifiers"@).len() && brings_value(#[trigger] items(node, "specifiers"@)[i]),
    ensures
        module_facts(text, tree, symbols).static_imports.contains(specifier),
        forall|i: int, local: Seq<char>|
            0 <= i < items(node, "specifiers"@).len() && of_kind(items(node, "specifiers"@)[i], "ImportDefaultSpecifier"@)
                && #[trigger] text_field(field(items(node, "specifiers"@)[i], "local"@), "name"@) == Some(local)
                ==> #[trigger] module_facts(text, tree, symbols).default_imports.contains((specifier, local)),
{
    lemma_kinds();
    let at = SourceModel { text, symbols };
    let body = items(tree, "body"@);
    let start = with_vue_imports(symbols, body, body.len() as int, no_facts());
    let result = learned(at, tree, Role::Reference, start);
    lemma_heard(at, tree, Role::Reference, node, start);
    let (role, before) = choose|role: Role, before: FactsModel|
        knows(#[trigger] after_source_node(at, node, role, before), result);
    let own = after_source_node(at, node, role, before);
    let specifiers = items(node, "specifiers"@);
    if specifiers.len() > 0 {
        let i = choose|i: int| 0 <= i < specifiers.len() && brings_value(#[trigger] specifiers[i]);
        assert(!crate::source_analysis::type_specifier(specifiers[i]));
    }
    assert(!only_types(specifiers));
    let k = before.analysis.static_imports.len() as int;
    assert(own.analysis.static_imports[k] == specifier);
    assert(result.analysis.static_imports[k] == specifier);
    assert forall|i: int, local: Seq<char>|
        0 <= i < specifiers.len() && of_kind(specifiers[i], "ImportDefaultSpecifier"@) && #[trigger] text_field(
            field(specifiers[i], "local"@),
            "name"@,
        ) == Some(local) implies #[trigger] module_facts(text, tree, symbols).default_imports.contains(
        (specifier, local),
    ) by {
        lemma_default(specifier, specifiers, specifiers.len() as int, i, local);
        let added = default_bindings(specifier, specifiers, specifiers.len() as int);
        let m = choose|m: int| 0 <= m < added.len() && added[m] == (specifier, local);
        let p = before.analysis.default_imports.len() + m;
        assert(own.analysis.default_imports[p] == (specifier, local));
        assert(result.analysis.default_imports[p] == (specifier, local));
    }
}

// ---------------------------------------------------------------------------
// Uses of the CSS Module
// ---------------------------------------------------------------------------

/// The identifier refers to what is called `name`, in the tree that has `role`.
pub open spec fn refers_in(tree: TreeModel, role: Role, name: Seq<char>, depth: nat) -> bool
    decreases depth,
{
    ||| role == Role::Reference && of_kind(tree, "Identifier"@) && text_field(tree, "name"@) == Some(name)
    ||| depth > 0 && match tree {
        TreeModel::List(list) => exists|i: int|
            0 <= i < list.len() && refers_in(#[trigger] list[i], role, name, (depth - 1) as nat),
        TreeModel::Node(fields) => exists|i: int|
            0 <= i < fields.len() && refers_in(
                (#[trigger] fields[i]).1,
                role_in(tree, role, fields[i].0),
                name,
                (depth - 1) as nat,
            ),
        _ => false,
    }
}

proof fn lemma_mentions(tree: TreeModel, role: Role, name: Seq<char>, depth: nat)
    requires
        refers_in(tree, role, name, depth),
    ensures
        mentions(tree, role, name),
    decreases depth,
{
    if !(role == Role::Reference && of_kind(tree, "Identifier"@) && text_field(tree, "name"@) == Some(name)) {
        match tree {
            TreeModel::List(list) => {
                let i = choose|i: int| 0 <= i < list.len() && refers_in(#[trigger] list[i], role, name, (depth - 1) as nat);
                lemma_mentions(list[i], role, name, (depth - 1) as nat);
                lemma_mentions_items(list, list.len(), role, name, i);
            },
            TreeModel::Node(fields) => {
                let i = choose|i: int|
                    0 <= i < fields.len() && refers_in(
                        (#[trigger] fields[i]).1,
                        role_in(tree, role, fields[i].0),
                        name,
                        (depth - 1) as nat,
                    );
                lemma_mentions(fields[i].1, role_in(tree, role, fields[i].0), name, (depth - 1) as nat);
                lemma_mentions_fields(tree, fields, fields.len(), role, name, i);
            },
            _ => {},
        }
    } else {
        assert(tree is Node) by {
            assert(!(tree is Node) ==> field(tree, "type"@) == TreeModel::Null);
        }
    }
}

proof fn lemma_mentions_items(list: Seq<TreeModel>, n: nat, role: Role, name: Seq<char>, i: int)
    requires
        0 <= i < n <= list.len(),
        mentions(list[i], role, name),
    ensures
        mentions_items(list, n, role, name),
    decreases n,
{
    if i < n - 1 {
        lemma_mentions_items(list, (n - 1) as nat, role, name, i);
    }
}

proof fn lemma_mentions_fields(
    tree: TreeModel,
    fields: Seq<(Seq<char>, TreeModel)>,
    n: nat,
    role: Role,
    name: Seq<char>,
    i: int,
)
    requires
        0 <= i < n <= fields.len(),
        mentions(fields[i].1, role_in(tree, role, fields[i].0), name),
    ensures
        mentions_fields(tree, fields, n, role, name),
    decreases n,
{
    if i < n - 1 {
        lemma_mentions_fields(tree, fields, (n - 1) as nat, role, name, i);
    }
}

/// An expression uses the CSS Module wherever a reference to `$style` stands in
/// it, at whatever depth.
pub proof fn every_use_in_an_expression_is_found(tree: TreeModel, depth: nat)
    requires
        refers_in(tree, Role::Reference, "$style"@, depth),
    ensures
        expression_facts(tree).uses_css_module,
{
    lemma_mentions(tree, Role::Reference, "$style"@, depth);
}

/// The field holds an expression that is evaluated.
pub open spec fn evaluated(name: Seq<char>) -> bool {
    ||| name == "object"@
    ||| name == "callee"@
    ||| name == "arguments"@
    ||| name == "expression"@
    ||| name == "expressions"@
    ||| name == "test"@
    ||| name == "consequent"@
    ||| name == "alternate"@
    ||| name == "argument"@
    ||| name == "init"@
    ||| name == "elements"@
}

/// What is evaluated refers to what it names, in any node that is no pattern; a
/// member that is not computed only names a property, and a computed one refers.
pub proof fn evaluated_identifiers_are_references(tree: TreeModel, role: Role, name: Seq<char>)
    requires
        !of_kind(tree, "ObjectPattern"@),
        !of_kind(tree, "ArrayPattern"@),
        !of_kind(tree, "RestElement"@),
        !of_kind(tree, "TSParameterProperty"@),
        !of_kind(tree, "MetaProperty"@),
        !of_kind(tree, "JSXNamespacedName"@),
    ensures
        evaluated(name) ==> role_in(tree, role, name) == Role::Reference,
        of_kind(tree, "MemberExpression"@) && name == "property"@ ==> role_in(tree, role, name) == if flag(
            tree,
            "computed"@,
        ) {
            Role::Reference
        } else {
            Role::Name
        },
        of_kind(tree, "VariableDeclarator"@) && name == "id"@ ==> role_in(tree, role, name) == Role::Binding,
{
    lemma_fields();
    lemma_member_kind();
}

proof fn lemma_member_kind()
    ensures
        "MemberExpression"@ != "Property"@,
        "MemberExpression"@ != "MethodDefinition"@,
        "MemberExpression"@ != "TSMethodSignature"@,
        "VariableDeclarator"@ != "PropertyDefinition"@,
{
    reveal_strlit("MemberExpression");
    reveal_strlit("Property");
    reveal_strlit("MethodDefinition");
    reveal_strlit("TSMethodSignature");
    reveal_strlit("VariableDeclarator");
    reveal_strlit("PropertyDefinition");
    assert("MemberExpression"@.len() == 16);
    assert("Property"@.len() == 8);
    assert("MethodDefinition"@[1] == 'e');
    assert("MethodDefinition"@[2] == 't' && "MemberExpression"@[2] == 'm');
    assert("TSMethodSignature"@.len() == 17);
    assert("VariableDeclarator"@[0] == 'V' && "PropertyDefinition"@[0] == 'P');
}

proof fn lemma_fields()
    ensures
        forall|name: Seq<char>| #[trigger]
            evaluated(name) ==> name != "typeAnnotation"@ && name != "decorators"@ && name != "key"@ && name != "value"@
                && name != "left"@ && name != "id"@ && name != "param"@ && name != "params"@ && name != "parameters"@
                && name != "property"@ && name != "name"@ && name != "right"@ && name != "local"@ && name != "specifiers"@
                && name != "label"@ && name != "imported"@ && name != "exported"@ && name != "parameterName"@,
        "property"@ != "typeAnnotation"@,
        "property"@ != "decorators"@,
        "property"@ != "key"@,
        "property"@ != "value"@,
        "property"@ != "left"@,
        "property"@ != "id"@,
        "property"@ != "param"@,
        "property"@ != "params"@,
        "property"@ != "parameters"@,
        "id"@ != "typeAnnotation"@,
        "id"@ != "decorators"@,
        "id"@ != "key"@,
        "id"@ != "value"@,
        "id"@ != "left"@,
{
    reveal_strlit("object");
    reveal_strlit("callee");
    reveal_strlit("arguments");
    reveal_strlit("expression");
    reveal_strlit("expressions");
    reveal_strlit("test");
    reveal_strlit("consequent");
    reveal_strlit("alternate");
    reveal_strlit("argument");
    reveal_strlit("init");
    reveal_strlit("elements");
    reveal_strlit("typeAnnotation");
    reveal_strlit("decorators");
    reveal_strlit("key");
    reveal_strlit("value");
    reveal_strlit("left");
    reveal_strlit("id");
    reveal_strlit("param");
    reveal_strlit("params");
    reveal_strlit("parameters");
    reveal_strlit("property");
    reveal_strlit("name");
    reveal_strlit("right");
    reveal_strlit("local");
    reveal_strlit("specifiers");
    reveal_strlit("label");
    reveal_strlit("imported");
    reveal_strlit("exported");
    reveal_strlit("parameterName");
    assert("object"@.len() == 6 && "object"@[0] == 'o');
    assert("callee"@.len() == 6 && "callee"@[0] == 'c');
    assert("arguments"@.len() == 9 && "arguments"@[0] == 'a');
    assert("expression"@.len() == 10 && "expression"@[0] == 'e');
    assert("expressions"@.len() == 11 && "expressions"@[0] == 'e');
    assert("test"@.len() == 4 && "test"@[0] == 't');
    assert("consequent"@.len() == 10 && "consequent"@[0] == 'c');
    assert("alternate"@.len() == 9 && "alternate"@[0] == 'a');
    assert("argument"@.len() == 8 && "argument"@[0] == 'a');
    assert("init"@.len() == 4 && "init"@[0] == 'i');
    assert("elements"@.len() == 8 && "elements"@[0] == 'e' && "elements"@[1] == 'l');
    assert("typeAnnotation"@.len() == 14);
    assert("decorators"@.len() == 10 && "decorators"@[0] == 'd');
    assert("key"@.len() == 3);
    assert("value"@.len() == 5);
    assert("left"@.len() == 4 && "left"@[0] == 'l');
    assert("id"@.len() == 2);
    assert("param"@.len() == 5);
    assert("params"@.len() == 6 && "params"@[0] == 'p');
    assert("parameters"@.len() == 10 && "parameters"@[0] == 'p');
    assert("property"@.len() == 8 && "property"@[0] == 'p');
    assert("name"@.len() == 4 && "name"@[0] == 'n');
    assert("right"@.len() == 5);
    assert("local"@.len() == 5);
    assert("specifiers"@.len() == 10 && "specifiers"@[0] == 's');
    assert("label"@.len() == 5);
    assert("imported"@.len() == 8 && "imported"@[0] == 'i');
    assert("exported"@.len() == 8 && "exported"@[0] == 'e' && "exported"@[1] == 'x');
    assert("parameterName"@.len() == 13);
}

} // verus!
