//! What the component graph reads of a script.
use crate::graph_laws::{is_element, is_styles, nodes_stay, sets_class};
use crate::jsx_extract::{
    after_node, attribute_name, built_child, class_part, comp_bound, contained, host_attributes, invoked, opened,
    swept, swept_fields, swept_items, swept_regions, tag_of, use_attributes, AttributesModel, BuildModel, KindModel,
    NodeModel, OutModel, PartModel, SweepModel, SymbolsModel, TagModel,
};
use crate::jsx_graph::Reason;
use crate::markup_laws::stays_ahead;
use crate::syntax::{field, flag, items, member_on, of_kind, referenced, span_of, static_member, text_field};
use crate::tree::TreeModel;
use vstd::prelude::*;

verus! {

// ---------------------------------------------------------------------------
// Sweeping
// ---------------------------------------------------------------------------

/// Nothing that was recorded is lost.
pub open spec fn records(before: OutModel, after: OutModel) -> bool {
    &&& stays_ahead(before.boundary_usages, after.boundary_usages)
    &&& stays_ahead(before.rendered_marks, after.rendered_marks)
    &&& stays_ahead(before.ns_member_specs, after.ns_member_specs)
    &&& before.unsound ==> after.unsound
    &&& before.forward_bad ==> after.forward_bad
    &&& before.children_bad ==> after.children_bad
}

proof fn lemma_records(a: OutModel, b: OutModel, c: OutModel)
    requires
        records(a, b),
        records(b, c),
    ensures
        records(a, c),
{
    assert forall|i: int| 0 <= i < a.boundary_usages.len() implies #[trigger] c.boundary_usages[i]
        == a.boundary_usages[i] by {
        assert(c.boundary_usages[i] == b.boundary_usages[i]);
    }
    assert forall|i: int| 0 <= i < a.rendered_marks.len() implies #[trigger] c.rendered_marks[i]
        == a.rendered_marks[i] by {
        assert(c.rendered_marks[i] == b.rendered_marks[i]);
    }
    assert forall|i: int| 0 <= i < a.ns_member_specs.len() implies #[trigger] c.ns_member_specs[i]
        == a.ns_member_specs[i] by {
        assert(c.ns_member_specs[i] == b.ns_member_specs[i]);
    }
}

proof fn lemma_swept(tree: TreeModel, at: SweepModel, out: OutModel)
    ensures
        records(out, swept(tree, at, out)),
    decreases tree, 0nat,
{
    match tree {
        TreeModel::List(list) => {
            lemma_swept_items(list, list.len(), at, out);
        },
        TreeModel::Node(fields) => {
            if static_member(tree) && member_on(at.bound.symbols, at.bound.css_symbol, tree) is Some {
            } else if static_member(tree) && member_on(at.bound.symbols, at.props.props, tree) is Some {
            } else if of_kind(tree, "Property"@) && flag(tree, "shorthand"@) {
                let value = field(tree, "value"@);
                crate::syntax::lemma_field_smaller(tree, "value"@);
                if value != TreeModel::Null {
                    lemma_swept(value, at, out);
                }
            } else {
                let own = after_node(tree, at, out);
                assert(records(out, own));
                lemma_swept_fields(fields, fields.len(), at, own);
                lemma_records(out, own, swept(tree, at, out));
            }
        },
        _ => {},
    }
}

proof fn lemma_swept_items(list: Seq<TreeModel>, n: nat, at: SweepModel, out: OutModel)
    ensures
        records(out, swept_items(list, n, at, out)),
    decreases list, n,
{
    if n > 0 && n <= list.len() {
        lemma_swept_items(list, (n - 1) as nat, at, out);
        let before = swept_items(list, (n - 1) as nat, at, out);
        lemma_swept(list[n - 1], at, before);
        lemma_records(out, before, swept_items(list, n, at, out));
    }
}

proof fn lemma_swept_fields(fields: Seq<(Seq<char>, TreeModel)>, n: nat, at: SweepModel, out: OutModel)
    ensures
        records(out, swept_fields(fields, n, at, out)),
    decreases fields, n,
{
    if n > 0 && n <= fields.len() {
        lemma_swept_fields(fields, (n - 1) as nat, at, out);
        let before = swept_fields(fields, (n - 1) as nat, at, out);
        lemma_swept(fields[n - 1].1, at, before);
        lemma_records(out, before, swept_fields(fields, n, at, out));
    }
}

/// The node is walked into: it is no member of the CSS Module or of the props,
/// and no shorthand property.
pub open spec fn walked_into(tree: TreeModel, at: SweepModel) -> bool {
    &&& !(static_member(tree) && member_on(at.bound.symbols, at.bound.css_symbol, tree) is Some)
    &&& !(static_member(tree) && member_on(at.bound.symbols, at.props.props, tree) is Some)
    &&& !(of_kind(tree, "Property"@) && flag(tree, "shorthand"@))
}

/// The node stands in the tree, and everything above it is walked into.
pub open spec fn reached(tree: TreeModel, at: SweepModel, node: TreeModel) -> bool
    decreases tree, 0nat,
{
    match tree {
        TreeModel::List(list) => reached_items(list, list.len(), at, node),
        TreeModel::Node(fields) => tree == node || walked_into(tree, at) && reached_fields(
            fields,
            fields.len(),
            at,
            node,
        ),
        _ => false,
    }
}

pub open spec fn reached_items(list: Seq<TreeModel>, n: nat, at: SweepModel, node: TreeModel) -> bool
    decreases list, n,
{
    n != 0 && n <= list.len() && (reached_items(list, (n - 1) as nat, at, node) || reached(list[n - 1], at, node))
}

pub open spec fn reached_fields(fields: Seq<(Seq<char>, TreeModel)>, n: nat, at: SweepModel, node: TreeModel) -> bool
    decreases fields, n,
{
    n != 0 && n <= fields.len() && (reached_fields(fields, (n - 1) as nat, at, node) || reached(
        fields[n - 1].1,
        at,
        node,
    ))
}

/// The node was swept, and what that recorded is there.
pub open spec fn was_swept(node: TreeModel, at: SweepModel, result: OutModel) -> bool {
    exists|before: OutModel| records(#[trigger] swept(node, at, before), result)
}

proof fn lemma_was_swept(tree: TreeModel, at: SweepModel, node: TreeModel, out: OutModel)
    requires
        reached(tree, at, node),
    ensures
        was_swept(node, at, swept(tree, at, out)),
    decreases tree, 0nat,
{
    match tree {
        TreeModel::List(list) => {
            lemma_was_swept_items(list, list.len(), at, node, out);
        },
        TreeModel::Node(fields) => {
            if tree == node {
                assert(records(swept(node, at, out), swept(tree, at, out)));
            } else {
                lemma_was_swept_fields(fields, fields.len(), at, node, after_node(tree, at, out));
            }
        },
        _ => {},
    }
}

proof fn lemma_was_swept_items(list: Seq<TreeModel>, n: nat, at: SweepModel, node: TreeModel, out: OutModel)
    requires
        reached_items(list, n, at, node),
    ensures
        was_swept(node, at, swept_items(list, n, at, out)),
    decreases list, n,
{
    let before = swept_items(list, (n - 1) as nat, at, out);
    if reached_items(list, (n - 1) as nat, at, node) {
        lemma_was_swept_items(list, (n - 1) as nat, at, node, out);
        lemma_swept(list[n - 1], at, before);
        let first = choose|first: OutModel| records(#[trigger] swept(node, at, first), before);
        lemma_records(swept(node, at, first), before, swept_items(list, n, at, out));
    } else {
        lemma_was_swept(list[n - 1], at, node, before);
    }
}

proof fn lemma_was_swept_fields(
    fields: Seq<(Seq<char>, TreeModel)>,
    n: nat,
    at: SweepModel,
    node: TreeModel,
    out: OutModel,
)
    requires
        reached_fields(fields, n, at, node),
    ensures
        was_swept(node, at, swept_fields(fields, n, at, out)),
    decreases fields, n,
{
    let before = swept_fields(fields, (n - 1) as nat, at, out);
    if reached_fields(fields, (n - 1) as nat, at, node) {
        lemma_was_swept_fields(fields, (n - 1) as nat, at, node, out);
        lemma_swept(fields[n - 1].1, at, before);
        let first = choose|first: OutModel| records(#[trigger] swept(node, at, first), before);
        lemma_records(swept(node, at, first), before, swept_fields(fields, n, at, out));
    } else {
        lemma_was_swept(fields[n - 1].1, at, node, before);
    }
}

proof fn lemma_kinds()
    ensures
        "MemberExpression"@ != "Identifier"@,
        "MemberExpression"@ != "Property"@,
        "Identifier"@ != "Property"@,
        "JSXOpeningElement"@ != "MemberExpression"@,
        "JSXOpeningElement"@ != "Identifier"@,
        "JSXOpeningElement"@ != "Property"@,
        "JSXIdentifier"@ != "JSXMemberExpression"@,
        "JSXExpressionContainer"@ != "JSXElement"@,
        "JSXExpressionContainer"@ != "JSXFragment"@,
        "JSXAttribute"@ != "JSXSpreadAttribute"@,
        "Identifier"@ != "JSXEmptyExpression"@,
        "MemberExpression"@ != "JSXEmptyExpression"@,
        "className"@ != "children"@,
{
    reveal_strlit("MemberExpression");
    reveal_strlit("Identifier");
    reveal_strlit("Property");
    reveal_strlit("JSXOpeningElement");
    reveal_strlit("JSXIdentifier");
    reveal_strlit("JSXMemberExpression");
    reveal_strlit("JSXExpressionContainer");
    reveal_strlit("JSXElement");
    reveal_strlit("JSXFragment");
    reveal_strlit("JSXAttribute");
    reveal_strlit("JSXSpreadAttribute");
    reveal_strlit("JSXEmptyExpression");
    reveal_strlit("className");
    reveal_strlit("children");
    assert("MemberExpression"@.len() == 16);
    assert("Identifier"@.len() == 10);
    assert("Property"@.len() == 8);
    assert("JSXOpeningElement"@.len() == 17);
    assert("JSXIdentifier"@.len() == 13);
    assert("JSXMemberExpression"@.len() == 19);
    assert("JSXExpressionContainer"@.len() == 22);
    assert("JSXElement"@.len() == 10);
    assert("JSXFragment"@.len() == 11);
    assert("JSXAttribute"@.len() == 12);
    assert("JSXSpreadAttribute"@.len() == 18);
    assert("JSXEmptyExpression"@.len() == 18);
    assert("className"@.len() == 9);
    assert("children"@.len() == 8);
}

proof fn lemma_is_styles(bound: SymbolsModel, tree: TreeModel, name: Seq<char>)
    requires
        is_styles(bound, tree, name),
    ensures
        static_member(tree),
        member_on(bound.symbols, bound.css_symbol, tree) == Some(name),
        tree is Node,
{
    assert(tree is Node) by {
        assert(!(tree is Node) ==> field(tree, "type"@) == TreeModel::Null);
    }
}

/// No usage in a region that is not followed is overlooked: a class of the CSS
/// Module that is named there is recorded with its place and the reason, and a
/// use of the module itself makes the whole file unsound.
pub proof fn no_usage_in_an_opaque_region_is_overlooked(
    tree: TreeModel,
    at: SweepModel,
    node: TreeModel,
    out: OutModel,
)
    requires
        reached(tree, at, node),
    ensures
        forall|name: Seq<char>| #[trigger]
            is_styles(at.bound, node, name) ==> swept(tree, at, out).boundary_usages.contains(
                (name, span_of(node), at.reason),
            ),
        of_kind(node, "Identifier"@) && at.bound.css_symbol is Some && referenced(at.bound.symbols, node)
            == at.bound.css_symbol ==> swept(tree, at, out).unsound,
{
    lemma_kinds();
    lemma_was_swept(tree, at, node, out);
    let result = swept(tree, at, out);
    let before = choose|before: OutModel| records(#[trigger] swept(node, at, before), result);
    let own = swept(node, at, before);
    assert forall|name: Seq<char>| #[trigger] is_styles(at.bound, node, name) implies result.boundary_usages.contains(
        (name, span_of(node), at.reason),
    ) by {
        lemma_is_styles(at.bound, node, name);
        let k = before.boundary_usages.len() as int;
        assert(own.boundary_usages[k] == (name, span_of(node), at.reason));
        assert(result.boundary_usages[k] == own.boundary_usages[k]);
    }
    if of_kind(node, "Identifier"@) && at.bound.css_symbol is Some && referenced(at.bound.symbols, node)
        == at.bound.css_symbol {
        assert(node is Node) by {
            assert(!(node is Node) ==> field(node, "type"@) == TreeModel::Null);
        }
        assert(walked_into(node, at));
        let fields = node->Node_0;
        let first = after_node(node, at, before);
        assert(first.unsound);
        lemma_swept_fields(fields, fields.len(), at, first);
        assert(own == swept_fields(fields, fields.len(), at, first));
    }
}

/// The last binding of the symbol is this component.
pub open spec fn stands_for_component(bound: SymbolsModel, symbol: usize, index: usize) -> bool {
    exists|k: int|
        0 <= k < bound.comp_symbols.len() && #[trigger] bound.comp_symbols[k] == (symbol, index) && forall|j: int|
            k < j < bound.comp_symbols.len() ==> (#[trigger] bound.comp_symbols[j]).0 != symbol
}

proof fn lemma_comp_bound(list: Seq<(usize, usize)>, symbol: usize, n: int, k: int)
    requires
        0 <= k < n <= list.len(),
        list[k].0 == symbol,
        forall|j: int| k < j < n ==> (#[trigger] list[j]).0 != symbol,
    ensures
        comp_bound(list, symbol, n) == Some(list[k].1),
    decreases n,
{
    if k < n - 1 {
        lemma_comp_bound(list, symbol, n - 1, k);
    }
}

proof fn lemma_tag(bound: SymbolsModel, symbol: usize, index: usize)
    requires
        stands_for_component(bound, symbol, index),
    ensures
        tag_of(bound, Some(symbol)) == TagModel::Local(index),
{
    let k = choose|k: int|
        0 <= k < bound.comp_symbols.len() && #[trigger] bound.comp_symbols[k] == (symbol, index) && forall|j: int|
            k < j < bound.comp_symbols.len() ==> (#[trigger] bound.comp_symbols[j]).0 != symbol;
    lemma_comp_bound(bound.comp_symbols, symbol, bound.comp_symbols.len() as int, k);
}

/// A component that is rendered in a region that is not followed is marked: its
/// render sites are not all known.
pub proof fn components_in_opaque_regions_are_marked(
    tree: TreeModel,
    at: SweepModel,
    node: TreeModel,
    symbol: usize,
    index: usize,
    out: OutModel,
)
    requires
        reached(tree, at, node),
        of_kind(node, "JSXOpeningElement"@),
        of_kind(field(node, "name"@), "JSXIdentifier"@),
        referenced(at.bound.symbols, field(node, "name"@)) == Some(symbol),
        stands_for_component(at.bound, symbol, index),
    ensures
        swept(tree, at, out).rendered_marks.contains((TagModel::Local(index), at.reason)),
{
    lemma_kinds();
    lemma_was_swept(tree, at, node, out);
    lemma_tag(at.bound, symbol, index);
    let result = swept(tree, at, out);
    let before = choose|before: OutModel| records(#[trigger] swept(node, at, before), result);
    let own = swept(node, at, before);
    assert(node is Node) by {
        assert(!(node is Node) ==> field(node, "type"@) == TreeModel::Null);
    }
    let fields = node->Node_0;
    let first = after_node(node, at, before);
    let k = before.rendered_marks.len() as int;
    assert(first.rendered_marks[k] == (TagModel::Local(index), at.reason));
    lemma_swept_fields(fields, fields.len(), at, first);
    assert(own == swept_fields(fields, fields.len(), at, first));
    assert(own.rendered_marks[k] == first.rendered_marks[k]);
    assert(result.rendered_marks[k] == own.rendered_marks[k]);
}

// ---------------------------------------------------------------------------
// Statements outside components
// ---------------------------------------------------------------------------

proof fn lemma_regions(bound: SymbolsModel, sweeps: Seq<(TreeModel, Reason)>, k: int, n: int, out: OutModel)
    requires
        0 <= k < n <= sweeps.len(),
    ensures
        was_swept(
            sweeps[k].0,
            SweepModel { bound, props: crate::jsx_extract::no_props(), reason: sweeps[k].1 },
            swept_regions(bound, sweeps, n, out),
        ),
    decreases n,
{
    let before = swept_regions(bound, sweeps, n - 1, out);
    let after = swept_regions(bound, sweeps, n, out);
    let at = SweepModel { bound, props: crate::jsx_extract::no_props(), reason: sweeps[n - 1].1 };
    lemma_swept(sweeps[n - 1].0, at, before);
    assert(after == swept(sweeps[n - 1].0, at, before));
    if k < n - 1 {
        lemma_regions(bound, sweeps, k, n - 1, out);
        let own = SweepModel { bound, props: crate::jsx_extract::no_props(), reason: sweeps[k].1 };
        let first = choose|first: OutModel| records(#[trigger] swept(sweeps[k].0, own, first), before);
        lemma_records(swept(sweeps[k].0, own, first), before, after);
        assert(records(swept(sweeps[k].0, own, first), after));
    } else {
        assert(records(after, after)) by {
            assert(stays_ahead(after.boundary_usages, after.boundary_usages));
        }
        assert(records(swept(sweeps[k].0, at, before), after));
    }
}

/// A region that is swept hides no usage: every class of the CSS Module that it
/// names is among the file's usages that are not proven.
pub proof fn swept_regions_hide_no_usage(
    bound: SymbolsModel,
    sweeps: Seq<(TreeModel, Reason)>,
    k: int,
    out: OutModel,
    node: TreeModel,
    name: Seq<char>,
)
    requires
        0 <= k < sweeps.len(),
        reached(
            sweeps[k].0,
            SweepModel { bound, props: crate::jsx_extract::no_props(), reason: sweeps[k].1 },
            node,
        ),
        is_styles(bound, node, name),
    ensures
        swept_regions(bound, sweeps, sweeps.len() as int, out).boundary_usages.contains(
            (name, span_of(node), sweeps[k].1),
        ),
{
    let at = SweepModel { bound, props: crate::jsx_extract::no_props(), reason: sweeps[k].1 };
    let result = swept_regions(bound, sweeps, sweeps.len() as int, out);
    lemma_regions(bound, sweeps, k, sweeps.len() as int, out);
    let before = choose|before: OutModel| records(#[trigger] swept(sweeps[k].0, at, before), result);
    no_usage_in_an_opaque_region_is_overlooked(sweeps[k].0, at, node, before);
    let own = swept(sweeps[k].0, at, before);
    let usage = (name, span_of(node), at.reason);
    let i = choose|i: int| 0 <= i < own.boundary_usages.len() && own.boundary_usages[i] == usage;
    assert(result.boundary_usages[i] == usage);
}

// ---------------------------------------------------------------------------
// Slots, invocations and forwarded classes
// ---------------------------------------------------------------------------

/// The expression is the component's children: the destructured name, or a
/// member of the props.
pub open spec fn is_children(at: SweepModel, tree: TreeModel) -> bool {
    ||| of_kind(tree, "Identifier"@) && at.props.children is Some && referenced(at.bound.symbols, tree)
        == at.props.children
    ||| of_kind(tree, "MemberExpression"@) && !flag(tree, "computed"@) && of_kind(
        field(tree, "property"@),
        "Identifier"@,
    ) && text_field(field(tree, "property"@), "name"@) == Some("children"@) && of_kind(
        field(tree, "object"@),
        "Identifier"@,
    ) && at.props.props is Some && referenced(at.bound.symbols, field(tree, "object"@)) == at.props.props
}

/// The place of the children is a slot, under the element that they stand in.
pub proof fn children_fill_a_slot(tree: TreeModel, parent: Option<usize>, at: SweepModel, state: BuildModel)
    requires
        of_kind(tree, "JSXExpressionContainer"@),
        is_children(at, field(tree, "expression"@)),
    ensures
        ({
            let after = built_child(tree, parent, at, state);
            &&& after.nodes == state.nodes.push(NodeModel { parent, kind: KindModel::Slot })
            &&& after.slots == state.slots.push(state.nodes.len() as usize)
        }),
{
    lemma_kinds();
    let expression = field(tree, "expression"@);
    assert(expression != TreeModel::Null) by {
        assert(field(TreeModel::Null, "type"@) == TreeModel::Null);
    }
    assert(contained(tree) == expression);
    crate::syntax::lemma_field_smaller(tree, "expression"@);
    assert(built_child(tree, parent, at, state) == crate::jsx_extract::built_expression(expression, parent, at, state));
}

/// The tag of the element is the name of a component: it starts with a capital
/// letter and has no hyphen.
pub open spec fn is_component_tag(tree: TreeModel, symbols: Seq<crate::syntax::Occurrence>, symbol: usize) -> bool {
    let tag = field(field(tree, "openingElement"@), "name"@);
    &&& of_kind(tag, "JSXIdentifier"@)
    &&& text_field(tag, "name"@) matches Some(name) && name.len() > 0 && 'A' <= name[0] && name[0] <= 'Z'
        && !name.contains('-')
    &&& referenced(symbols, tag) == Some(symbol)
}

/// The class is passed on.
pub open spec fn passed_on(keys: Seq<(Seq<char>, (usize, usize))>, name: Seq<char>, span: (usize, usize)) -> bool {
    keys.contains((name, span))
}

proof fn lemma_class_keys(tree: TreeModel, at: SweepModel, part: PartModel)
    ensures
        stays_ahead(part.keys, class_part(tree, at, part).keys),
    decreases tree, 0nat,
{
    if of_kind(tree, "TemplateLiteral"@) {
        crate::syntax::lemma_field_smaller(tree, "expressions"@);
        if let TreeModel::List(list) = field(tree, "expressions"@) {
            lemma_class_keys_all(list, list.len(), at, part);
        }
    }
}

proof fn lemma_class_keys_all(list: Seq<TreeModel>, n: nat, at: SweepModel, part: PartModel)
    ensures
        stays_ahead(part.keys, crate::jsx_extract::class_parts(list, n, at, part).keys),
    decreases list, n,
{
    if n > 0 && n <= list.len() {
        lemma_class_keys_all(list, (n - 1) as nat, at, part);
        let before = crate::jsx_extract::class_parts(list, (n - 1) as nat, at, part);
        lemma_class_keys(list[n - 1], at, before);
        let after = crate::jsx_extract::class_parts(list, n, at, part);
        assert forall|i: int| 0 <= i < part.keys.len() implies #[trigger] after.keys[i] == part.keys[i] by {
            assert(before.keys[i] == part.keys[i]);
        }
    }
}

proof fn lemma_use_attributes(
    list: Seq<TreeModel>,
    n: int,
    at: SweepModel,
    read: PartModel,
    k: int,
    name: Seq<char>,
    span: (usize, usize),
)
    requires
        0 <= k < n <= list.len(),
        sets_class(at.bound, list[k], name, span),
    ensures
        passed_on(use_attributes(list, n, at, read).keys, name, span),
    decreases n,
{
    lemma_kinds();
    let before = use_attributes(list, n - 1, at, read);
    let after = use_attributes(list, n, at, read);
    let item = list[n - 1];
    if k < n - 1 {
        lemma_use_attributes(list, n - 1, at, read, k, name, span);
        if attribute_name(item) == Some("className"@) {
            lemma_class_keys(contained(field(item, "value"@)), at, before);
        }
        assert(stays_ahead(before.keys, after.keys));
        let i = choose|i: int| 0 <= i < before.keys.len() && before.keys[i] == (name, span);
        assert(after.keys[i] == before.keys[i]);
    } else {
        let expression = field(field(item, "value"@), "expression"@);
        lemma_is_styles(at.bound, expression, name);
        assert(contained(field(item, "value"@)) == expression);
        assert(after.keys == before.keys.push((name, span)));
        assert(after.keys[before.keys.len() as int] == (name, span));
    }
}

/// A capitalized tag is an invocation of the component that its name stands for,
/// under the element that it stands in; the classes of the CSS Module that its
/// `className` names are passed on.
pub proof fn capitalized_tags_invoke_their_component(
    tree: TreeModel,
    parent: Option<usize>,
    at: SweepModel,
    state: BuildModel,
    symbol: usize,
    index: usize,
)
    requires
        is_component_tag(tree, at.bound.symbols, symbol),
        stands_for_component(at.bound, symbol, index),
    ensures
        ({
            let after = opened(tree, parent, at, state);
            let own = after.nodes.last();
            let list = items(field(tree, "openingElement"@), "attributes"@);
            &&& after.nodes.len() == state.nodes.len() + 1
            &&& nodes_stay(state.nodes, after.nodes)
            &&& own.parent == parent
            &&& own.kind matches KindModel::ComponentUse { tag, class_keys } && tag == TagModel::Local(index)
                && forall|k: int, name: Seq<char>, span: (usize, usize)|
                0 <= k < list.len() && #[trigger] sets_class(at.bound, list[k], name, span) ==> passed_on(
                    class_keys,
                    name,
                    span,
                )
        }),
{
    lemma_kinds();
    lemma_tag(at.bound, symbol, index);
    let tag = field(field(tree, "openingElement"@), "name"@);
    let text = text_field(tag, "name"@)->0;
    assert(!crate::jsx_extract::host_name(text));
    assert(invoked(tag, at) == Some(TagModel::Local(index)));
    let list = items(field(tree, "openingElement"@), "attributes"@);
    let after = opened(tree, parent, at, state);
    let keys = after.nodes.last().kind->class_keys;
    let read = use_attributes(list, list.len() as int, at, PartModel { keys: seq![], forward: false, out: state.out });
    assert(keys == read.keys);
    assert forall|k: int, name: Seq<char>, span: (usize, usize)|
        0 <= k < list.len() && #[trigger] sets_class(at.bound, list[k], name, span) implies passed_on(
        keys,
        name,
        span,
    ) by {
        lemma_use_attributes(
            list,
            list.len() as int,
            at,
            PartModel { keys: seq![], forward: false, out: state.out },
            k,
            name,
            span,
        );
    }
}

/// The attribute is `className={className}` or `className={props.className}`.
pub open spec fn forwards_class(at: SweepModel, item: TreeModel) -> bool {
    let value = field(item, "value"@);
    let tree = field(value, "expression"@);
    &&& of_kind(item, "JSXAttribute"@)
    &&& of_kind(field(item, "name"@), "JSXIdentifier"@)
    &&& text_field(field(item, "name"@), "name"@) == Some("className"@)
    &&& of_kind(value, "JSXExpressionContainer"@)
    &&& of_kind(tree, "Identifier"@) && at.props.class_name is Some && referenced(at.bound.symbols, tree)
        == at.props.class_name
}

proof fn lemma_forward(list: Seq<TreeModel>, n: int, at: SweepModel, read: AttributesModel, k: int)
    requires
        0 <= k < n <= list.len(),
        forwards_class(at, list[k]),
    ensures
        host_attributes(list, n, at, read).forward,
    decreases n,
{
    lemma_kinds();
    if k < n - 1 {
        lemma_forward(list, n - 1, at, read, k);
    } else {
        let tree = field(field(list[k], "value"@), "expression"@);
        assert(tree != TreeModel::Null) by {
            assert(field(TreeModel::Null, "type"@) == TreeModel::Null);
        }
        assert(contained(field(list[k], "value"@)) == tree);
        assert(!static_member(tree));
    }
}

/// A host element with the component's own `className` is where the class lands.
pub proof fn forwarded_classes_land_on_their_element(
    tree: TreeModel,
    parent: Option<usize>,
    at: SweepModel,
    state: BuildModel,
    tag: Seq<char>,
    k: int,
)
    requires
        crate::graph_laws::is_host(tree, tag),
        0 <= k < items(field(tree, "openingElement"@), "attributes"@).len(),
        forwards_class(at, items(field(tree, "openingElement"@), "attributes"@)[k]),
    ensures
        opened(tree, parent, at, state).forward_targets == state.forward_targets.push(state.nodes.len() as usize),
        is_element(opened(tree, parent, at, state).nodes[state.nodes.len() as int], parent),
{
    let list = items(field(tree, "openingElement"@), "attributes"@);
    let start = AttributesModel { keys: seq![], forward: false, out: state.out };
    lemma_forward(list, list.len() as int, at, start, k);
    assert(invoked(field(field(tree, "openingElement"@), "name"@), at) is None);
}

} // verus!
