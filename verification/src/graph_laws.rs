//! What the component graph makes of elements that stand in one another.
use crate::jsx_extract::{
    built_child, built_children, built_element, built_expression, built_map, built_root, class_part, component,
    component_built, contained, direct_return, function_node, host_attribute, host_attributes, invoked, keys_model,
    map_callback, map_root, next_index, nodes_model, opened, opens_portal, param_info, portal_in_fields,
    portal_in_items, qualified, returns_in, returns_in_fields, returns_in_items, swept, swept_arguments, swept_beside,
    AttributesModel, BuildModel, KindModel, NodeModel, OutModel, PartModel, SweepModel, SymbolsModel,
};
use crate::jsx_graph::{
    boundary_usages, carries, comp_of, comp_usages, element_usages, file_usages, node_usages, outcome_ok, proof_up,
    world_ok, world_usages, Node, NodeKind, ProofOutcome, Question, Reason, UsageModel,
};
use crate::jsx_extract::{lemma_inner_not_larger, lemma_map_root_smaller};
use crate::selector::{KeyModel, SelectorKey};
use crate::syntax::{field, field_from, flag, inner, items, lemma_field_smaller, of_kind, referenced, span_of, text_field, wraps};
use crate::tree::TreeModel;
use vstd::prelude::*;

verus! {

// ---------------------------------------------------------------------------
// Kinds
// ---------------------------------------------------------------------------

proof fn lemma_kinds()
    ensures
        "JSXElement"@ != "ParenthesizedExpression"@,
        "JSXElement"@ != "TSAsExpression"@,
        "JSXElement"@ != "TSSatisfiesExpression"@,
        "JSXElement"@ != "TSInstantiationExpression"@,
        "JSXElement"@ != "TSNonNullExpression"@,
        "JSXElement"@ != "TSTypeAssertion"@,
        "MemberExpression"@ != "JSXEmptyExpression"@,
        "JSXAttribute"@ != "JSXSpreadAttribute"@,
        "BlockStatement"@ != "ReturnStatement"@,
        "BlockStatement"@ != "FunctionDeclaration"@,
        "BlockStatement"@ != "FunctionExpression"@,
        "BlockStatement"@ != "TSDeclareFunction"@,
        "BlockStatement"@ != "TSEmptyBodyFunctionExpression"@,
        "BlockStatement"@ != "ArrowFunctionExpression"@,
        "ReturnStatement"@ != "FunctionDeclaration"@,
        "ReturnStatement"@ != "FunctionExpression"@,
        "ReturnStatement"@ != "TSDeclareFunction"@,
        "ReturnStatement"@ != "TSEmptyBodyFunctionExpression"@,
        "ReturnStatement"@ != "ArrowFunctionExpression"@,
        "className"@.len() > 0,
{
    reveal_strlit("JSXElement");
    reveal_strlit("ParenthesizedExpression");
    reveal_strlit("TSAsExpression");
    reveal_strlit("TSSatisfiesExpression");
    reveal_strlit("TSInstantiationExpression");
    reveal_strlit("TSNonNullExpression");
    reveal_strlit("TSTypeAssertion");
    reveal_strlit("MemberExpression");
    reveal_strlit("JSXEmptyExpression");
    reveal_strlit("JSXAttribute");
    reveal_strlit("JSXSpreadAttribute");
    reveal_strlit("BlockStatement");
    reveal_strlit("ReturnStatement");
    reveal_strlit("FunctionDeclaration");
    reveal_strlit("FunctionExpression");
    reveal_strlit("TSDeclareFunction");
    reveal_strlit("TSEmptyBodyFunctionExpression");
    reveal_strlit("ArrowFunctionExpression");
    reveal_strlit("className");
    assert("JSXElement"@.len() == 10);
    assert("TSAsExpression"@.len() == 14);
    assert("MemberExpression"@.len() != "JSXEmptyExpression"@.len());
    assert("BlockStatement"@.len() == 14);
    assert("JSXAttribute"@.len() == 12);
    assert("ReturnStatement"@.len() == 15);
}

/// A node of this kind stands somewhere in the tree.
pub open spec fn anywhere(tree: TreeModel, kind: Seq<char>) -> bool
    decreases tree, 0nat,
{
    match tree {
        TreeModel::List(list) => anywhere_in_items(list, list.len(), kind),
        TreeModel::Node(fields) => of_kind(tree, kind) || anywhere_in_fields(fields, fields.len(), kind),
        _ => false,
    }
}

pub open spec fn anywhere_in_items(list: Seq<TreeModel>, n: nat, kind: Seq<char>) -> bool
    decreases list, n,
{
    n != 0 && n <= list.len() && (anywhere_in_items(list, (n - 1) as nat, kind) || anywhere(list[n - 1], kind))
}

pub open spec fn anywhere_in_fields(fields: Seq<(Seq<char>, TreeModel)>, n: nat, kind: Seq<char>) -> bool
    decreases fields, n,
{
    n != 0 && n <= fields.len() && (anywhere_in_fields(fields, (n - 1) as nat, kind) || anywhere(
        fields[n - 1].1,
        kind,
    ))
}

proof fn lemma_no_portal(tree: TreeModel)
    requires
        !anywhere(tree, "CallExpression"@),
    ensures
        !opens_portal(tree),
    decreases tree, 0nat,
{
    match tree {
        TreeModel::List(list) => {
            lemma_no_portal_in_items(list, list.len());
        },
        TreeModel::Node(fields) => {
            lemma_no_portal_in_fields(fields, fields.len());
        },
        _ => {},
    }
}

proof fn lemma_no_portal_in_items(list: Seq<TreeModel>, n: nat)
    requires
        !anywhere_in_items(list, n, "CallExpression"@),
        n <= list.len(),
    ensures
        !portal_in_items(list, n),
    decreases list, n,
{
    if n > 0 {
        lemma_no_portal_in_items(list, (n - 1) as nat);
        lemma_no_portal(list[n - 1]);
    }
}

proof fn lemma_no_portal_in_fields(fields: Seq<(Seq<char>, TreeModel)>, n: nat)
    requires
        !anywhere_in_fields(fields, n, "CallExpression"@),
        n <= fields.len(),
    ensures
        !portal_in_fields(fields, n),
    decreases fields, n,
{
    if n > 0 {
        lemma_no_portal_in_fields(fields, (n - 1) as nat);
        lemma_no_portal(fields[n - 1].1);
    }
}

proof fn lemma_no_returns(tree: TreeModel)
    requires
        !anywhere(tree, "ReturnStatement"@),
    ensures
        returns_in(tree) == 0,
    decreases tree, 0nat,
{
    match tree {
        TreeModel::List(list) => {
            lemma_no_returns_in_items(list, list.len());
        },
        TreeModel::Node(fields) => {
            lemma_no_returns_in_fields(fields, fields.len());
        },
        _ => {},
    }
}

proof fn lemma_no_returns_in_items(list: Seq<TreeModel>, n: nat)
    requires
        !anywhere_in_items(list, n, "ReturnStatement"@),
        n <= list.len(),
    ensures
        returns_in_items(list, n) == 0,
    decreases list, n,
{
    if n > 0 {
        lemma_no_returns_in_items(list, (n - 1) as nat);
        lemma_no_returns(list[n - 1]);
    }
}

proof fn lemma_no_returns_in_fields(fields: Seq<(Seq<char>, TreeModel)>, n: nat)
    requires
        !anywhere_in_fields(fields, n, "ReturnStatement"@),
        n <= fields.len(),
    ensures
        returns_in_fields(fields, n) == 0,
    decreases fields, n,
{
    if n > 0 {
        lemma_no_returns_in_fields(fields, (n - 1) as nat);
        lemma_no_returns(fields[n - 1].1);
    }
}

// ---------------------------------------------------------------------------
// What a component returns
// ---------------------------------------------------------------------------

/// The value holds no node.
pub open spec fn leaf(tree: TreeModel) -> bool {
    !(tree is List) && !(tree is Node)
}

/// The field is the only one of the node that holds nodes.
pub open spec fn only_in(tree: TreeModel, name: Seq<char>) -> bool {
    tree is Node && exists|i: int|
        0 <= i < (tree->Node_0).len() && (#[trigger] (tree->Node_0)[i]).0 == name && forall|j: int|
            0 <= j < (tree->Node_0).len() && j != i ==> leaf((#[trigger] (tree->Node_0)[j]).1) && (tree->Node_0)[j].0
                != name
}

/// The function returns the element and does nothing else: `() => <a/>`, or
/// one `return` in a block.
pub open spec fn gives(function: TreeModel, element: TreeModel) -> bool {
    let body = field(function, "body"@);
    let statements = items(body, "body"@);
    &&& of_kind(element, "JSXElement"@)
    &&& !anywhere(body, "CallExpression"@)
    &&& if of_kind(function, "ArrowFunctionExpression"@) && flag(function, "expression"@) {
        body == element
    } else {
        &&& of_kind(body, "BlockStatement"@)
        &&& only_in(body, "body"@)
        &&& field(body, "body"@) is List
        &&& statements.len() == 1
        &&& of_kind(statements[0], "ReturnStatement"@)
        &&& only_in(statements[0], "argument"@)
        &&& field(statements[0], "argument"@) == element
        &&& !anywhere(element, "ReturnStatement"@)
    }
}

proof fn lemma_field_at(fields: Seq<(Seq<char>, TreeModel)>, name: Seq<char>, i: int, k: int)
    requires
        0 <= k <= i < fields.len(),
        fields[i].0 == name,
        forall|j: int| 0 <= j < fields.len() && j != i ==> (#[trigger] fields[j]).0 != name,
    ensures
        field_from(fields, name, k) == fields[i].1,
    decreases i - k,
{
    if k < i {
        assert(fields[k].0 != name);
        lemma_field_at(fields, name, i, k + 1);
    }
}

proof fn lemma_returns_at(fields: Seq<(Seq<char>, TreeModel)>, i: int, n: nat)
    requires
        0 <= i < fields.len(),
        n <= fields.len(),
        forall|j: int| 0 <= j < fields.len() && j != i ==> leaf((#[trigger] fields[j]).1),
    ensures
        returns_in_fields(fields, n) == if i < n {
            returns_in(fields[i].1)
        } else {
            0
        },
    decreases n,
{
    if n > 0 {
        lemma_returns_at(fields, i, (n - 1) as nat);
        if i != n - 1 {
            assert(leaf(fields[n - 1].1));
            lemma_leaf(fields[n - 1].1);
        }
    }
}

proof fn lemma_leaf(tree: TreeModel)
    requires
        leaf(tree),
    ensures
        returns_in(tree) == 0,
{
}

proof fn lemma_returns_only(tree: TreeModel, name: Seq<char>)
    requires
        only_in(tree, name),
        !function_node(tree),
    ensures
        returns_in(tree) == (if of_kind(tree, "ReturnStatement"@) {
            1nat
        } else {
            0nat
        }) + returns_in(field(tree, name)),
{
    let fields = tree->Node_0;
    let i = choose|i: int|
        0 <= i < fields.len() && (#[trigger] fields[i]).0 == name && forall|j: int|
            0 <= j < fields.len() && j != i ==> leaf((#[trigger] fields[j]).1) && fields[j].0 != name;
    lemma_field_at(fields, name, i, 0);
    lemma_returns_at(fields, i, fields.len());
}

/// A function that returns an element and does nothing else is a component with
/// that element for its root.
pub proof fn components_have_the_root_they_return(function: TreeModel, element: TreeModel)
    requires
        gives(function, element),
    ensures
        qualified(function) == Ok::<TreeModel, Reason>(element),
        inner(element) == element,
{
    lemma_kinds();
    let body = field(function, "body"@);
    lemma_no_portal(body);
    assert(!wraps(element));
    if !(of_kind(function, "ArrowFunctionExpression"@) && flag(function, "expression"@)) {
        let statements = items(body, "body"@);
        let statement = statements[0];
        lemma_returns_only(body, "body"@);
        lemma_returns_only(statement, "argument"@);
        lemma_no_returns(element);
        let list = field(body, "body"@);
        assert(list == TreeModel::List(statements));
        assert(returns_in_items(statements, 0) == 0);
        assert(returns_in(list) == returns_in_items(statements, 1));
        assert(returns_in_items(statements, 1) == returns_in(statement));
        assert(returns_in(body) == 1);
        assert(element != TreeModel::Null);
        assert(direct_return(statements, 0) == element);
    }
}

// ---------------------------------------------------------------------------
// Elements
// ---------------------------------------------------------------------------

/// The tag of the element is a lower-case name or a hyphenated one.
pub open spec fn is_host(tree: TreeModel, name: Seq<char>) -> bool {
    let tag = field(field(tree, "openingElement"@), "name"@);
    &&& of_kind(tree, "JSXElement"@)
    &&& of_kind(tag, "JSXIdentifier"@)
    &&& text_field(tag, "name"@) == Some(name)
    &&& name != "this"@
    &&& name.contains('-') || (name.len() > 0 && 'a' <= name[0] && name[0] <= 'z')
}

/// The expression is `styles.name` on the default import of the CSS Module.
pub open spec fn is_styles(bound: SymbolsModel, tree: TreeModel, name: Seq<char>) -> bool {
    let object = field(tree, "object"@);
    let property = field(tree, "property"@);
    &&& of_kind(tree, "MemberExpression"@)
    &&& !flag(tree, "computed"@)
    &&& of_kind(property, "Identifier"@)
    &&& text_field(property, "name"@) == Some(name)
    &&& of_kind(object, "Identifier"@)
    &&& bound.css_symbol is Some
    &&& referenced(bound.symbols, object) == bound.css_symbol
}

/// The attribute is `className={styles.name}`, with the expression at the span.
pub open spec fn sets_class(bound: SymbolsModel, item: TreeModel, name: Seq<char>, span: (usize, usize)) -> bool {
    let value = field(item, "value"@);
    let expression = field(value, "expression"@);
    &&& of_kind(item, "JSXAttribute"@)
    &&& of_kind(field(item, "name"@), "JSXIdentifier"@)
    &&& text_field(field(item, "name"@), "name"@) == Some("className"@)
    &&& of_kind(value, "JSXExpressionContainer"@)
    &&& is_styles(bound, expression, name)
    &&& span_of(expression) == span
}

/// One attribute of the element is `className={styles.name}`.
pub open spec fn has_class(bound: SymbolsModel, tree: TreeModel, name: Seq<char>, span: (usize, usize)) -> bool {
    let list = items(field(tree, "openingElement"@), "attributes"@);
    exists|k: int| 0 <= k < list.len() && sets_class(bound, #[trigger] list[k], name, span)
}

/// The key stands in the list.
pub open spec fn listed(keys: Seq<(KeyModel, (usize, usize))>, name: Seq<char>, span: (usize, usize)) -> bool {
    keys.contains((KeyModel::Class(name), span))
}

proof fn lemma_host_attributes(
    list: Seq<TreeModel>,
    n: int,
    at: SweepModel,
    read: AttributesModel,
    k: int,
    name: Seq<char>,
    span: (usize, usize),
)
    requires
        0 <= k < n <= list.len(),
        sets_class(at.bound, list[k], name, span),
    ensures
        listed(host_attributes(list, n, at, read).keys, name, span),
    decreases n,
{
    lemma_kinds();
    let before = host_attributes(list, n - 1, at, read);
    let after = host_attributes(list, n, at, read);
    if k < n - 1 {
        lemma_host_attributes(list, n - 1, at, read, k, name, span);
        lemma_keys_stay(list[n - 1], at, before);
        let i = choose|i: int| 0 <= i < before.keys.len() && before.keys[i] == (KeyModel::Class(name), span);
        assert(after.keys[i] == before.keys[i]);
    } else {
        let item = list[k];
        let expression = field(field(item, "value"@), "expression"@);
        assert(contained(field(item, "value"@)) == expression);
        assert(expression != TreeModel::Null);
        let part = class_part(expression, at, PartModel { keys: seq![], forward: false, out: before.out });
        assert(part.keys == seq![(name, span)]);
        assert(after.keys[before.keys.len() as int] == (KeyModel::Class(name), span));
    }
}

proof fn lemma_keys_stay(item: TreeModel, at: SweepModel, read: AttributesModel)
    ensures
        host_attribute(item, at, read).keys.len() >= read.keys.len(),
        forall|i: int|
            0 <= i < read.keys.len() ==> #[trigger] host_attribute(item, at, read).keys[i] == read.keys[i],
{
}

/// The nodes that were there stay as they are.
pub open spec fn nodes_stay(before: Seq<NodeModel>, after: Seq<NodeModel>) -> bool {
    before.len() <= after.len() && forall|i: int| 0 <= i < before.len() ==> #[trigger] after[i] == before[i]
}

proof fn lemma_stay(a: Seq<NodeModel>, b: Seq<NodeModel>, c: Seq<NodeModel>)
    requires
        nodes_stay(a, b),
        nodes_stay(b, c),
    ensures
        nodes_stay(a, c),
{
    assert forall|i: int| 0 <= i < a.len() implies #[trigger] c[i] == a[i] by {
        assert(c[i] == b[i]);
    }
}

proof fn lemma_element_stays(tree: TreeModel, parent: Option<usize>, at: SweepModel, state: BuildModel)
    ensures
        nodes_stay(state.nodes, built_element(tree, parent, at, state).nodes),
        nodes_stay(opened(tree, parent, at, state).nodes, built_element(tree, parent, at, state).nodes),
        opened(tree, parent, at, state).nodes.len() == state.nodes.len() + 1,
        nodes_stay(state.nodes, opened(tree, parent, at, state).nodes),
    decreases tree, 0nat,
{
    let next = opened(tree, parent, at, state);
    lemma_field_smaller(tree, "children"@);
    match field(tree, "children"@) {
        TreeModel::List(list) => {
            lemma_children_stay(list, list.len(), Some(next_index(state)), at, next);
            lemma_stay(state.nodes, next.nodes, built_element(tree, parent, at, state).nodes);
        },
        _ => {},
    }
}

proof fn lemma_children_stay(
    list: Seq<TreeModel>,
    n: nat,
    parent: Option<usize>,
    at: SweepModel,
    state: BuildModel,
)
    ensures
        nodes_stay(state.nodes, built_children(list, n, parent, at, state).nodes),
    decreases list, n,
{
    if n > 0 && n <= list.len() {
        lemma_children_stay(list, (n - 1) as nat, parent, at, state);
        let before = built_children(list, (n - 1) as nat, parent, at, state);
        lemma_child_stays(list[n - 1], parent, at, before);
        lemma_stay(state.nodes, before.nodes, built_children(list, n, parent, at, state).nodes);
    }
}

proof fn lemma_child_stays(tree: TreeModel, parent: Option<usize>, at: SweepModel, state: BuildModel)
    ensures
        nodes_stay(state.nodes, built_child(tree, parent, at, state).nodes),
    decreases tree, 4nat,
{
    if of_kind(tree, "JSXElement"@) {
        lemma_element_stays(tree, parent, at, state);
    } else if of_kind(tree, "JSXFragment"@) {
        lemma_field_smaller(tree, "children"@);
        if let TreeModel::List(list) = field(tree, "children"@) {
            lemma_children_stay(list, list.len(), parent, at, state);
        }
    } else if of_kind(tree, "JSXExpressionContainer"@) {
        lemma_field_smaller(tree, "expression"@);
        let expression = contained(tree);
        if expression != TreeModel::Null {
            lemma_expression_stays(expression, parent, at, state);
        }
    }
}

proof fn lemma_expression_stays(tree: TreeModel, parent: Option<usize>, at: SweepModel, state: BuildModel)
    ensures
        nodes_stay(state.nodes, built_expression(tree, parent, at, state).nodes),
    decreases tree, 3nat,
{
    if map_root(tree) is Some {
        lemma_map_stays(tree, parent, at, state);
    }
}

proof fn lemma_map_stays(call: TreeModel, parent: Option<usize>, at: SweepModel, state: BuildModel)
    ensures
        nodes_stay(state.nodes, built_map(call, parent, at, state).nodes),
    decreases call, 2nat,
{
    if let Some(root) = map_root(call) {
        lemma_map_root_smaller(call);
        let arguments = items(call, "arguments"@);
        let object = field(field(call, "callee"@), "object"@);
        let out = swept_beside(
            map_callback(call),
            at,
            swept_arguments(arguments, arguments.len() as int, at, swept(object, at, state.out)),
        );
        let next = BuildModel { out, ..state };
        assert(built_map(call, parent, at, state) == built_root(root, parent, at, next));
        lemma_root_stays(root, parent, at, next);
    }
}

proof fn lemma_root_stays(tree: TreeModel, parent: Option<usize>, at: SweepModel, state: BuildModel)
    ensures
        nodes_stay(state.nodes, built_root(tree, parent, at, state).nodes),
    decreases tree, 1nat,
{
    let root = inner(tree);
    lemma_inner_not_larger(tree);
    if of_kind(root, "JSXElement"@) {
        lemma_element_stays(root, parent, at, state);
    } else {
        lemma_field_smaller(root, "children"@);
        if let TreeModel::List(list) = field(root, "children"@) {
            lemma_children_stay(list, list.len(), parent, at, state);
        }
    }
}

/// The node is a host element under the parent.
pub open spec fn is_element(node: NodeModel, parent: Option<usize>) -> bool {
    node.parent == parent && node.kind is Element
}

/// The keys of a host element's node.
pub open spec fn keys_of(node: NodeModel) -> Seq<(KeyModel, (usize, usize))> {
    node.kind->Element_keys
}

/// A lower-case or hyphenated tag opens a host element, whose node carries the
/// classes of the CSS Module that its `className` names.
pub proof fn lower_case_tags_open_host_elements(
    tree: TreeModel,
    tag: Seq<char>,
    parent: Option<usize>,
    at: SweepModel,
    state: BuildModel,
)
    requires
        is_host(tree, tag),
    ensures
        ({
            let nodes = built_element(tree, parent, at, state).nodes;
            let own = nodes[state.nodes.len() as int];
            &&& state.nodes.len() < nodes.len()
            &&& nodes_stay(state.nodes, nodes)
            &&& is_element(own, parent)
            &&& forall|name: Seq<char>, span: (usize, usize)| #[trigger]
                has_class(at.bound, tree, name, span) ==> listed(keys_of(own), name, span)
        }),
{
    lemma_element_stays(tree, parent, at, state);
    let list = items(field(tree, "openingElement"@), "attributes"@);
    let nodes = built_element(tree, parent, at, state).nodes;
    let start = AttributesModel { keys: seq![], forward: false, out: state.out };
    let read = host_attributes(list, list.len() as int, at, start);
    assert(invoked(field(field(tree, "openingElement"@), "name"@), at) is None);
    let k = state.nodes.len() as int;
    let next = opened(tree, parent, at, state);
    assert(next.nodes[k] == (NodeModel { parent, kind: KindModel::Element { keys: read.keys } }));
    assert(nodes[k] == next.nodes[k]);
    assert forall|name: Seq<char>, span: (usize, usize)| #[trigger] has_class(
        at.bound,
        tree,
        name,
        span,
    ) implies listed(keys_of(nodes[k]), name, span) by {
        let i = choose|i: int| 0 <= i < list.len() && sets_class(at.bound, #[trigger] list[i], name, span);
        lemma_host_attributes(list, list.len() as int, at, start, i, name, span);
    }
}

/// A host element under the node carries the class.
pub open spec fn carried_under(nodes: Seq<NodeModel>, parent: usize, name: Seq<char>, span: (usize, usize)) -> bool {
    exists|j: int|
        0 <= j < nodes.len() && is_element(#[trigger] nodes[j], Some(parent)) && listed(keys_of(nodes[j]), name, span)
}

proof fn lemma_child_carried(
    list: Seq<TreeModel>,
    n: nat,
    parent: usize,
    at: SweepModel,
    state: BuildModel,
    c: int,
    tag: Seq<char>,
    name: Seq<char>,
    span: (usize, usize),
)
    requires
        0 <= c < n <= list.len(),
        is_host(list[c], tag),
        has_class(at.bound, list[c], name, span),
    ensures
        carried_under(built_children(list, n, Some(parent), at, state).nodes, parent, name, span),
    decreases n,
{
    let before = built_children(list, (n - 1) as nat, Some(parent), at, state);
    let after = built_children(list, n, Some(parent), at, state);
    if c < n - 1 {
        lemma_child_carried(list, (n - 1) as nat, parent, at, state, c, tag, name, span);
        lemma_child_stays(list[n - 1], Some(parent), at, before);
        let j = choose|j: int|
            0 <= j < before.nodes.len() && is_element(#[trigger] before.nodes[j], Some(parent)) && listed(
                keys_of(before.nodes[j]),
                name,
                span,
            );
        assert(after.nodes[j] == before.nodes[j]);
    } else {
        lower_case_tags_open_host_elements(list[c], tag, Some(parent), at, before);
        let j = before.nodes.len() as int;
        assert(after == built_child(list[c], Some(parent), at, before));
        assert(built_child(list[c], Some(parent), at, before) == built_element(list[c], Some(parent), at, before));
        assert(is_element(after.nodes[j], Some(parent)));
        assert(listed(keys_of(after.nodes[j]), name, span));
    }
}

/// A component that returns a host element directly round another has both for
/// nodes, the second under the first, each with the class that it names.
pub proof fn nested_elements_are_nested_nodes(
    function: TreeModel,
    exported: bool,
    bound: SymbolsModel,
    out: OutModel,
    element: TreeModel,
    c: int,
    tags: (Seq<char>, Seq<char>),
    a: (Seq<char>, (usize, usize)),
    b: (Seq<char>, (usize, usize)),
)
    requires
        gives(function, element),
        is_host(element, tags.0),
        has_class(bound, element, a.0, a.1),
        0 <= c < items(element, "children"@).len(),
        is_host(items(element, "children"@)[c], tags.1),
        has_class(bound, items(element, "children"@)[c], b.0, b.1),
    ensures
        component(function, exported, bound, out).0.body matches Ok(nodes) && nodes.len() > 0 && is_element(
            nodes[0],
            None,
        ) && listed(keys_of(nodes[0]), a.0, a.1) && carried_under(nodes, 0, b.0, b.1),
{
    components_have_the_root_they_return(function, element);
    let state = component_built(function, element, bound, out);
    let made = component(function, exported, bound, out).0;
    assert(made.body == Ok::<Seq<NodeModel>, Reason>(state.nodes));
    lemma_component(function, element, bound, out, c, tags, a, b);
}

proof fn lemma_component(
    function: TreeModel,
    element: TreeModel,
    bound: SymbolsModel,
    out: OutModel,
    c: int,
    tags: (Seq<char>, Seq<char>),
    a: (Seq<char>, (usize, usize)),
    b: (Seq<char>, (usize, usize)),
)
    requires
        inner(element) == element,
        is_host(element, tags.0),
        has_class(bound, element, a.0, a.1),
        0 <= c < items(element, "children"@).len(),
        is_host(items(element, "children"@)[c], tags.1),
        has_class(bound, items(element, "children"@)[c], b.0, b.1),
    ensures
        ({
            let nodes = component_built(function, element, bound, out).nodes;
            &&& nodes.len() > 0
            &&& is_element(nodes[0], None)
            &&& listed(keys_of(nodes[0]), a.0, a.1)
            &&& carried_under(nodes, 0, b.0, b.1)
        }),
{
    let info = param_info(bound.symbols, function);
    let at = SweepModel { bound, props: info.bindings, reason: Reason::Boundary };
    let start = OutModel { forward_bad: info.bad, children_bad: info.bad, ..out };
    let state = BuildModel {
        nodes: seq![],
        slots: seq![],
        forward_targets: seq![],
        out: swept_beside(function, at, start),
    };
    let built = built_element(element, None, at, state);
    assert(component_built(function, element, bound, out) == built_root(element, None, at, state));
    assert(built_root(element, None, at, state) == built);
    lower_case_tags_open_host_elements(element, tags.0, None, at, state);
    let list = items(element, "children"@);
    let next = opened(element, None, at, state);
    lemma_child_carried(list, list.len(), 0, at, next, c, tags.1, b.0, b.1);
    assert(field(element, "children"@) == TreeModel::List(list));
    assert(next_index(state) == 0);
    assert(built == built_children(list, list.len(), Some(0usize), at, next));
}

// ---------------------------------------------------------------------------
// Proofs
// ---------------------------------------------------------------------------

/// An element directly under one that carries the ancestor is proven, as a child
/// and as a descendant.
pub proof fn direct_children_are_proven(
    question: Question,
    comp: (usize, usize),
    node: usize,
    parent: usize,
)
    requires
        comp_of(question.world, comp).body matches Ok(nodes) && node < nodes@.len() && parent < node
            && nodes@[node as int].parent == Some(parent) && (nodes@[parent as int].kind matches NodeKind::Element {
            keys,
        } && carries(keys@, question.ancestor)),
    ensures
        proof_up(question, comp, node, seq![], seq![], 0) is Ok,
{
}

/// The usage is reported.
pub open spec fn has_usage(usages: Seq<UsageModel>, file: Seq<char>, span: (usize, usize)) -> bool {
    exists|i: int|
        0 <= i < usages.len() && (#[trigger] usages[i]).file == file && usages[i].span == span && usages[i].result is Ok
}

proof fn lemma_usage_concat(a: Seq<UsageModel>, b: Seq<UsageModel>, file: Seq<char>, span: (usize, usize))
    requires
        has_usage(a, file, span) || has_usage(b, file, span),
    ensures
        has_usage(a + b, file, span),
{
    if has_usage(a, file, span) {
        let i = choose|i: int|
            0 <= i < a.len() && (#[trigger] a[i]).file == file && a[i].span == span && a[i].result is Ok;
        assert((a + b)[i] == a[i]);
    } else {
        let i = choose|i: int|
            0 <= i < b.len() && (#[trigger] b[i]).file == file && b[i].span == span && b[i].result is Ok;
        assert((a + b)[a.len() + i] == b[i]);
    }
}

proof fn lemma_element_usage(
    question: Question,
    at: (usize, usize),
    node: usize,
    keys: Seq<(SelectorKey, (usize, usize))>,
    target: KeyModel,
    n: int,
    k: int,
)
    requires
        0 <= k < n <= keys.len(),
        keys[k].0@ == target,
        proof_up(question, at, node, seq![], seq![], 0) is Ok,
    ensures
        has_usage(
            element_usages(question, at, node, keys, target, n),
            question.world.files@[at.0 as int].path@,
            keys[k].1,
        ),
    decreases n,
{
    let after = element_usages(question, at, node, keys, target, n);
    let before = element_usages(question, at, node, keys, target, n - 1);
    let file = question.world.files@[at.0 as int].path@;
    if k < n - 1 {
        lemma_element_usage(question, at, node, keys, target, n - 1, k);
        let i = choose|i: int|
            0 <= i < before.len() && (#[trigger] before[i]).file == file && before[i].span == keys[k].1
                && before[i].result is Ok;
        assert(after[i] == before[i]);
    } else {
        assert(after[before.len() as int].file == file);
    }
}

proof fn lemma_node_usage(
    question: Question,
    at: (usize, usize),
    nodes: Seq<Node>,
    target: KeyModel,
    n: int,
    j: int,
    k: int,
)
    requires
        0 <= j < n <= nodes.len() <= usize::MAX,
        nodes[j].kind matches NodeKind::Element { keys } && 0 <= k < keys@.len() && keys@[k].0@ == target,
        proof_up(question, at, j as usize, seq![], seq![], 0) is Ok,
    ensures
        has_usage(
            node_usages(question, at, nodes, target, n),
            question.world.files@[at.0 as int].path@,
            (nodes[j].kind->Element_keys)@[k].1,
        ),
    decreases n,
{
    let file = question.world.files@[at.0 as int].path@;
    let span = (nodes[j].kind->Element_keys)@[k].1;
    let before = node_usages(question, at, nodes, target, n - 1);
    if j < n - 1 {
        lemma_node_usage(question, at, nodes, target, n - 1, j, k);
        match nodes[n - 1].kind {
            NodeKind::Element { keys } => {
                lemma_usage_concat(
                    before,
                    element_usages(question, at, (n - 1) as usize, keys@, target, keys@.len() as int),
                    file,
                    span,
                );
            },
            NodeKind::ComponentUse { tag, class_keys } => {
                match target {
                    KeyModel::Class(name) => {
                        lemma_usage_concat(
                            before,
                            crate::jsx_graph::forwarded_usages(
                                question,
                                at,
                                (n - 1) as usize,
                                tag,
                                class_keys@,
                                name,
                                class_keys@.len() as int,
                            ),
                            file,
                            span,
                        );
                    },
                    KeyModel::Id(_) => {
                        lemma_usage_concat(before, seq![], file, span);
                    },
                }
            },
            NodeKind::Slot => {
                lemma_usage_concat(before, seq![], file, span);
            },
        }
    } else {
        let keys = (nodes[j].kind->Element_keys)@;
        lemma_element_usage(question, at, j as usize, keys, target, keys.len() as int, k);
        lemma_usage_concat(before, element_usages(question, at, j as usize, keys, target, keys.len() as int), file, span);
    }
}

proof fn lemma_comp_usage(
    question: Question,
    at: (usize, usize),
    target: KeyModel,
    n: int,
    j: int,
    k: int,
)
    requires
        at.0 < question.world.files@.len(),
        at.1 < n <= question.world.files@[at.0 as int].comps@.len(),
        comp_of(question.world, at).body matches Ok(nodes) && 0 <= j < nodes@.len() <= usize::MAX && (
        nodes@[j].kind matches NodeKind::Element { keys } && 0 <= k < keys@.len() && keys@[k].0@ == target),
        proof_up(question, at, j as usize, seq![], seq![], 0) is Ok,
    ensures
        has_usage(
            comp_usages(question, at.0, target, n),
            question.world.files@[at.0 as int].path@,
            ((comp_of(question.world, at).body->Ok_0)@[j].kind->Element_keys)@[k].1,
        ),
    decreases n,
{
    let file = question.world.files@[at.0 as int].path@;
    let own = (comp_of(question.world, at).body->Ok_0)@;
    let span = (own[j].kind->Element_keys)@[k].1;
    let before = comp_usages(question, at.0, target, n - 1);
    if at.1 < n - 1 {
        lemma_comp_usage(question, at, target, n - 1, j, k);
        match question.world.files@[at.0 as int].comps@[n - 1].body {
            Ok(nodes) => {
                lemma_usage_concat(
                    before,
                    node_usages(question, (at.0, (n - 1) as usize), nodes@, target, nodes@.len() as int),
                    file,
                    span,
                );
            },
            Err(_) => {
                lemma_usage_concat(before, seq![], file, span);
            },
        }
    } else {
        lemma_node_usage(question, at, own, target, own.len() as int, j, k);
        lemma_usage_concat(before, node_usages(question, at, own, target, own.len() as int), file, span);
    }
}

proof fn lemma_file_usage(question: Question, at: (usize, usize), target: KeyModel, n: int, j: int, k: int)
    requires
        at.0 < n <= question.world.files@.len(),
        at.1 < question.world.files@[at.0 as int].comps@.len(),
        comp_of(question.world, at).body matches Ok(nodes) && 0 <= j < nodes@.len() <= usize::MAX && (
        nodes@[j].kind matches NodeKind::Element { keys } && 0 <= k < keys@.len() && keys@[k].0@ == target),
        proof_up(question, at, j as usize, seq![], seq![], 0) is Ok,
    ensures
        has_usage(
            file_usages(question, target, n),
            question.world.files@[at.0 as int].path@,
            ((comp_of(question.world, at).body->Ok_0)@[j].kind->Element_keys)@[k].1,
        ),
    decreases n,
{
    let path = question.world.files@[at.0 as int].path@;
    let own = (comp_of(question.world, at).body->Ok_0)@;
    let span = (own[j].kind->Element_keys)@[k].1;
    let before = file_usages(question, target, n - 1);
    let file = question.world.files@[n - 1];
    let outside = boundary_usages(file, crate::jsx_graph::key_name(target), file.boundary_usages@.len() as int);
    let inside = comp_usages(question, (n - 1) as usize, target, file.comps@.len() as int);
    if at.0 < n - 1 {
        lemma_file_usage(question, at, target, n - 1, j, k);
    } else {
        lemma_comp_usage(question, at, target, file.comps@.len() as int, j, k);
    }
    if has_usage(before, path, span) {
        lemma_usage_concat(before, outside, path, span);
    }
    lemma_usage_concat(before + outside, inside, path, span);
}

/// A relationship that a component shows directly is proven: where a component
/// returns a host element with `className={styles.a}` directly round another
/// with `className={styles.b}`, the usage of `b` there is reported as proven
/// under `a`, as a child and as a descendant, whatever the tags are.
pub proof fn direct_nesting_is_proven(
    outcome: ProofOutcome,
    question: Question,
    comp: (usize, usize),
    function: TreeModel,
    exported: bool,
    bound: SymbolsModel,
    out: OutModel,
    element: TreeModel,
    c: int,
    tags: (Seq<char>, Seq<char>),
    a: (Seq<char>, (usize, usize)),
    b: (Seq<char>, (usize, usize)),
)
    requires
        outcome_ok(outcome, question, KeyModel::Class(b.0)),
        question.ancestor == KeyModel::Class(a.0),
        world_ok(question.world),
        comp.0 < question.world.files@.len(),
        comp.1 < question.world.files@[comp.0 as int].comps@.len(),
        comp_of(question.world, comp)@ == component(function, exported, bound, out).0,
        gives(function, element),
        is_host(element, tags.0),
        has_class(bound, element, a.0, a.1),
        0 <= c < items(element, "children"@).len(),
        is_host(items(element, "children"@)[c], tags.1),
        has_class(bound, items(element, "children"@)[c], b.0, b.1),
    ensures
        exists|i: int|
            0 <= i < outcome.usages@.len() && (#[trigger] outcome.usages@[i]).file@
                == question.world.files@[comp.0 as int].path@ && outcome.usages@[i].span == b.1
                && outcome.usages@[i].proven,
{
    nested_elements_are_nested_nodes(function, exported, bound, out, element, c, tags, a, b);
    let made = component(function, exported, bound, out).0;
    let models = made.body->Ok_0;
    let nodes = (comp_of(question.world, comp).body->Ok_0)@;
    assert(nodes_model(nodes) == models);
    assert(models.len() == nodes.len());
    let j = choose|j: int|
        0 <= j < models.len() && is_element(#[trigger] models[j], Some(0usize)) && listed(
            keys_of(models[j]),
            b.0,
            b.1,
        );
    assert(nodes[j]@ == models[j]);
    assert(nodes[0]@ == models[0]);
    let under = (nodes[j].kind->Element_keys)@;
    let over = (nodes[0].kind->Element_keys)@;
    assert(keys_model(under) == keys_of(models[j]));
    assert(keys_model(over) == keys_of(models[0]));
    let k = choose|k: int| 0 <= k < keys_model(under).len() && keys_model(under)[k] == (KeyModel::Class(b.0), b.1);
    let l = choose|l: int| 0 <= l < keys_model(over).len() && keys_model(over)[l] == (KeyModel::Class(a.0), a.1);
    assert(under[k].0@ == KeyModel::Class(b.0));
    assert(over[l].0@ == KeyModel::Class(a.0));
    assert(carries(over, question.ancestor));
    assert(crate::jsx_graph::file_ok(question.world.files@[comp.0 as int]));
    assert(crate::jsx_graph::nodes_ok(nodes, question.world.files@[comp.0 as int].comps@.len() as int));
    assert(nodes[j].parent == Some(0usize));
    crate::jsx_graph::lemma_world_fits(question.world);
    assert(nodes.len() <= usize::MAX);
    direct_children_are_proven(question, comp, j as usize, 0);
    lemma_file_usage(
        question,
        comp,
        KeyModel::Class(b.0),
        question.world.files@.len() as int,
        j,
        k,
    );
    let usages = world_usages(question, KeyModel::Class(b.0));
    let path = question.world.files@[comp.0 as int].path@;
    let i = choose|i: int|
        0 <= i < usages.len() && (#[trigger] usages[i]).file == path && usages[i].span == b.1 && usages[i].result is Ok;
    assert(outcome.usages@[i].reports(usages[i]));
}

} // verus!
