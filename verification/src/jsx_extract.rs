//! Per-file extraction: what the component graph reads of one module.
//!
//! Only function components with a single statically analyzable JSX return get
//! a tree. Everything else is swept: CSS Module usages there are recorded as
//! not provable, and so are the components that are rendered or escape there.
use crate::jsx_graph::{
    comp_ok, file_ok, link, nodes_ok, outcome_ok, prove_prepared, tag_ok, world_ok, Comp, FileIr, Forward, ImportedName,
    Node, NodeKind, PreparedWorld, ProofOutcome, Question, Reason, Relation, TagRef, World,
};
use crate::path::{normalize_path, normalized, resolve_import, resolved, FilePath, PathModel};
use crate::selector::{KeyModel, SelectorKey};
use crate::syntax::{
    declared, field, find_declared, find_referenced, flag, get, get_flag, get_inner, get_items, get_member_on, get_span,
    get_string, get_text, has_kind, inner, is_kind, is_named, is_static_member, items, lemma_field_smaller, member_on,
    module_at, names, of_kind, optional, optional_get_text, optional_list, optional_string, optional_text, parse_module,
    referenced, span_of, static_member, string_value, text_field, Module, ModuleModel, Occurrence,
};
use crate::text::{has_char, same};
use crate::tree::{
    fields_model, lemma_fields_model, lemma_list_model, list_model, tree_model, Tree, TreeModel,
};
use vstd::prelude::*;

verus! {

// ---------------------------------------------------------------------------
// Models
// ---------------------------------------------------------------------------

/// The model of a [`TagRef`].
pub enum TagModel {
    Local(usize),
    Import(Seq<char>),
    Unknown,
}

impl View for TagRef {
    type V = TagModel;

    open spec fn view(&self) -> TagModel {
        match self {
            TagRef::Local(index) => TagModel::Local(*index),
            TagRef::Import(local) => TagModel::Import(local@),
            TagRef::Unknown => TagModel::Unknown,
        }
    }
}

/// What a sweep records.
pub struct OutModel {
    pub boundary_usages: Seq<(Seq<char>, (usize, usize), Reason)>,
    pub rendered_marks: Seq<(TagModel, Reason)>,
    pub ns_member_specs: Seq<Seq<char>>,
    pub unsound: bool,
    /// `props.className` is used in a way that cannot be proven.
    pub forward_bad: bool,
    /// `props.children` is used in a way that cannot be proven.
    pub children_bad: bool,
}

/// What a sweep records.
pub struct FileOut {
    pub boundary_usages: Vec<(String, (usize, usize), Reason)>,
    pub rendered_marks: Vec<(TagRef, Reason)>,
    pub ns_member_specs: Vec<String>,
    pub unsound: bool,
    pub forward_bad: bool,
    pub children_bad: bool,
}

pub open spec fn boundary_model(list: Seq<(String, (usize, usize), Reason)>) -> Seq<(
    Seq<char>,
    (usize, usize),
    Reason,
)> {
    list.map_values(|usage: (String, (usize, usize), Reason)| (usage.0@, usage.1, usage.2))
}

pub open spec fn marks_model(list: Seq<(TagRef, Reason)>) -> Seq<(TagModel, Reason)> {
    list.map_values(|mark: (TagRef, Reason)| (mark.0@, mark.1))
}

impl View for FileOut {
    type V = OutModel;

    open spec fn view(&self) -> OutModel {
        OutModel {
            boundary_usages: boundary_model(self.boundary_usages@),
            rendered_marks: marks_model(self.rendered_marks@),
            ns_member_specs: crate::text::texts(self.ns_member_specs@),
            unsound: self.unsound,
            forward_bad: self.forward_bad,
            children_bad: self.children_bad,
        }
    }
}

impl FileOut {
    /// Every local tag names one of `count` components.
    pub open spec fn ok(self, count: int) -> bool {
        forall|i: int|
            0 <= i < self.rendered_marks@.len() ==> tag_ok((#[trigger] self.rendered_marks@[i]).0, count)
    }

    fn push_usage(&mut self, name: &String, span: (usize, usize), reason: Reason)
        ensures
            final(self)@ == (OutModel {
                boundary_usages: old(self)@.boundary_usages.push((name@, span, reason)),
                ..old(self)@
            }),
            final(self).rendered_marks == old(self).rendered_marks,
    {
        let ghost before = self.boundary_usages@;
        self.boundary_usages.push((name.clone(), span, reason));
        assert(boundary_model(self.boundary_usages@) =~= boundary_model(before).push((name@, span, reason)));
    }

    fn push_mark(&mut self, tag: TagRef, reason: Reason)
        ensures
            final(self)@ == (OutModel {
                rendered_marks: old(self)@.rendered_marks.push((tag@, reason)),
                ..old(self)@
            }),
            final(self).rendered_marks@ == old(self).rendered_marks@.push((tag, reason)),
    {
        let ghost before = self.rendered_marks@;
        self.rendered_marks.push((tag, reason));
        assert(marks_model(self.rendered_marks@) =~= marks_model(before).push((tag@, reason)));
    }

    fn push_namespace(&mut self, specifier: &String)
        ensures
            final(self)@ == (OutModel {
                ns_member_specs: old(self)@.ns_member_specs.push(specifier@),
                ..old(self)@
            }),
            final(self).rendered_marks == old(self).rendered_marks,
    {
        let ghost before = self.ns_member_specs@;
        self.ns_member_specs.push(specifier.clone());
        assert(crate::text::texts(self.ns_member_specs@) =~= crate::text::texts(before).push(specifier@));
    }
}

/// What the names of a file are bound to.
pub struct FileSymbols {
    pub symbols: Vec<Occurrence>,
    pub file_path: String,
    pub css_target: FilePath,
    pub css_symbol: Option<usize>,
    pub comp_symbols: Vec<(usize, usize)>,
    pub import_symbols: Vec<(usize, String)>,
    pub ns_symbols: Vec<(usize, String)>,
}

/// The model of [`FileSymbols`].
pub struct SymbolsModel {
    pub symbols: Seq<Occurrence>,
    pub file_path: Seq<char>,
    pub css_target: PathModel,
    pub css_symbol: Option<usize>,
    pub comp_symbols: Seq<(usize, usize)>,
    pub import_symbols: Seq<(usize, Seq<char>)>,
    pub ns_symbols: Seq<(usize, Seq<char>)>,
}

pub open spec fn named_model(list: Seq<(usize, String)>) -> Seq<(usize, Seq<char>)> {
    list.map_values(|entry: (usize, String)| (entry.0, entry.1@))
}

impl View for FileSymbols {
    type V = SymbolsModel;

    open spec fn view(&self) -> SymbolsModel {
        SymbolsModel {
            symbols: self.symbols@,
            file_path: self.file_path@,
            css_target: self.css_target@,
            css_symbol: self.css_symbol,
            comp_symbols: self.comp_symbols@,
            import_symbols: named_model(self.import_symbols@),
            ns_symbols: named_model(self.ns_symbols@),
        }
    }
}

impl FileSymbols {
    /// Every component symbol means one of `count` components.
    pub open spec fn ok(self, count: int) -> bool {
        forall|i: int| 0 <= i < self.comp_symbols@.len() ==> (#[trigger] self.comp_symbols@[i]).1 < count
    }
}

/// The component bound to a symbol among the first `n`: the last one.
pub open spec fn comp_bound(list: Seq<(usize, usize)>, symbol: usize, n: int) -> Option<usize>
    decreases n,
{
    if n <= 0 {
        None
    } else if list[n - 1].0 == symbol {
        Some(list[n - 1].1)
    } else {
        comp_bound(list, symbol, n - 1)
    }
}

/// The text bound to a symbol among the first `n`: the last one.
pub open spec fn text_bound(list: Seq<(usize, Seq<char>)>, symbol: usize, n: int) -> Option<Seq<char>>
    decreases n,
{
    if n <= 0 {
        None
    } else if list[n - 1].0 == symbol {
        Some(list[n - 1].1)
    } else {
        text_bound(list, symbol, n - 1)
    }
}

fn find_comp(list: &Vec<(usize, usize)>, symbol: usize) -> (result: Option<usize>)
    ensures
        result == comp_bound(list@, symbol, list@.len() as int),
        result matches Some(index) ==> exists|i: int| 0 <= i < list@.len() && (#[trigger] list@[i]).1 == index,
{
    let mut n: usize = list.len();
    while n > 0
        invariant
            n <= list@.len(),
            comp_bound(list@, symbol, n as int) == comp_bound(list@, symbol, list@.len() as int),
        decreases n,
    {
        if list[n - 1].0 == symbol {
            return Some(list[n - 1].1);
        }
        n -= 1;
    }
    None
}

fn find_text<'a>(list: &'a Vec<(usize, String)>, symbol: usize) -> (result: Option<&'a String>)
    ensures
        optional_text(result) == text_bound(named_model(list@), symbol, list@.len() as int),
{
    let mut n: usize = list.len();
    while n > 0
        invariant
            n <= list@.len(),
            text_bound(named_model(list@), symbol, n as int) == text_bound(
                named_model(list@),
                symbol,
                list@.len() as int,
            ),
        decreases n,
    {
        assert(named_model(list@)[n - 1] == (list@[n - 1].0, list@[n - 1].1@));
        if list[n - 1].0 == symbol {
            return Some(&list[n - 1].1);
        }
        n -= 1;
    }
    None
}

/// The component or import that a symbol stands for.
pub open spec fn tag_of(bound: SymbolsModel, symbol: Option<usize>) -> TagModel {
    match symbol {
        None => TagModel::Unknown,
        Some(symbol) => match comp_bound(bound.comp_symbols, symbol, bound.comp_symbols.len() as int) {
            Some(index) => TagModel::Local(index),
            None => match text_bound(bound.import_symbols, symbol, bound.import_symbols.len() as int) {
                Some(local) => TagModel::Import(local),
                None => TagModel::Unknown,
            },
        },
    }
}

fn find_tag(bound: &FileSymbols, symbol: Option<usize>, Ghost(count): Ghost<int>) -> (tag: TagRef)
    requires
        bound.ok(count),
    ensures
        tag@ == tag_of(bound@, symbol),
        tag_ok(tag, count),
{
    assert(named_model(bound.import_symbols@).len() == bound.import_symbols@.len());
    match symbol {
        None => TagRef::Unknown,
        Some(symbol) => match find_comp(&bound.comp_symbols, symbol) {
            Some(index) => TagRef::Local(index),
            None => match find_text(&bound.import_symbols, symbol) {
                Some(local) => TagRef::Import(local.clone()),
                None => TagRef::Unknown,
            },
        },
    }
}

/// The bindings through which a component reads its props.
#[derive(Clone, Copy)]
pub struct PropBindings {
    pub props: Option<usize>,
    pub class_name: Option<usize>,
    pub children: Option<usize>,
}

/// No component: nothing is read through props.
pub open spec fn no_props() -> PropBindings {
    PropBindings { props: None, class_name: None, children: None }
}

fn without_props() -> (result: PropBindings)
    ensures
        result == no_props(),
{
    PropBindings { props: None, class_name: None, children: None }
}

// ---------------------------------------------------------------------------
// Sweeping
// ---------------------------------------------------------------------------

/// A module, class or component binding that is used as a value.
pub open spec fn after_reference(
    bound: SymbolsModel,
    props: PropBindings,
    symbol: Option<usize>,
    out: OutModel,
) -> OutModel {
    if symbol is None {
        out
    } else if symbol == bound.css_symbol {
        OutModel { unsound: true, ..out }
    } else if symbol == props.props {
        OutModel { forward_bad: true, children_bad: true, ..out }
    } else if symbol == props.class_name {
        OutModel { forward_bad: true, ..out }
    } else if symbol == props.children {
        OutModel { children_bad: true, ..out }
    } else {
        after_tag(tag_of(bound, symbol), Reason::Hoc, out)
    }
}

/// A component is rendered or escapes where it cannot be followed.
pub open spec fn after_tag(tag: TagModel, reason: Reason, out: OutModel) -> OutModel {
    if tag == TagModel::Unknown {
        out
    } else {
        OutModel { rendered_marks: out.rendered_marks.push((tag, reason)), ..out }
    }
}

fn sweep_tag(tag: TagRef, reason: Reason, out: &mut FileOut, Ghost(count): Ghost<int>)
    requires
        tag_ok(tag, count),
        old(out).ok(count),
    ensures
        final(out)@ == after_tag(tag@, reason, old(out)@),
        final(out).ok(count),
{
    match tag {
        TagRef::Unknown => {},
        _ => {
            out.push_mark(tag, reason);
        },
    }
}

fn is_same_symbol(a: Option<usize>, symbol: usize) -> (result: bool)
    ensures
        result == (a == Some(symbol)),
{
    match a {
        Some(other) => other == symbol,
        None => false,
    }
}

fn sweep_reference(
    bound: &FileSymbols,
    props: PropBindings,
    symbol: Option<usize>,
    out: &mut FileOut,
    Ghost(count): Ghost<int>,
)
    requires
        bound.ok(count),
        old(out).ok(count),
    ensures
        final(out)@ == after_reference(bound@, props, symbol, old(out)@),
        final(out).ok(count),
{
    if let Some(found) = symbol {
        if is_same_symbol(bound.css_symbol, found) {
            // The module binding itself escapes; usages become untrackable.
            out.unsound = true;
        } else if is_same_symbol(props.props, found) {
            out.forward_bad = true;
            out.children_bad = true;
        } else if is_same_symbol(props.class_name, found) {
            out.forward_bad = true;
        } else if is_same_symbol(props.children, found) {
            out.children_bad = true;
        } else {
            // The component binding escapes as a value; its render sites can
            // no longer be enumerated.
            let tag = find_tag(bound, symbol, Ghost(count));
            sweep_tag(tag, Reason::Hoc, out, Ghost(count));
        }
    }
}

/// The identifier at the root of a member tag.
pub open spec fn member_root(name: TreeModel) -> TreeModel
    decreases name,
{
    if of_kind(name, "JSXMemberExpression"@) {
        let object = field(name, "object"@);
        proof {
            lemma_field_smaller(name, "object"@);
        }
        if object == TreeModel::Null {
            name
        } else {
            member_root(object)
        }
    } else {
        name
    }
}

fn get_member_root<'a>(name: &'a Tree) -> (result: &'a Tree)
    ensures
        result@ == member_root(name@),
    decreases name,
{
    if is_kind(name, "JSXMemberExpression") {
        match get(name, "object") {
            Some(object) => {
                if let Tree::Null = object {
                    return name;
                }
                get_member_root(object)
            },
            None => name,
        }
    } else {
        name
    }
}

/// A member tag on a namespace import: any export of the module may be meant.
pub open spec fn after_member_tag(bound: SymbolsModel, name: TreeModel, out: OutModel) -> OutModel {
    match referenced(bound.symbols, member_root(name)) {
        None => out,
        Some(symbol) => match text_bound(bound.ns_symbols, symbol, bound.ns_symbols.len() as int) {
            None => out,
            Some(specifier) => OutModel { ns_member_specs: out.ns_member_specs.push(specifier), ..out },
        },
    }
}

fn mark_namespace_member(bound: &FileSymbols, name: &Tree, out: &mut FileOut)
    ensures
        final(out)@ == after_member_tag(bound@, name@, old(out)@),
        final(out).rendered_marks == old(out).rendered_marks,
{
    assert(named_model(bound.ns_symbols@).len() == bound.ns_symbols@.len());
    if let Some(symbol) = find_referenced(&bound.symbols, get_member_root(name)) {
        if let Some(specifier) = find_text(&bound.ns_symbols, symbol) {
            out.push_namespace(specifier);
        }
    }
}

/// A tag in a region that is not analyzed.
pub open spec fn after_element_name(bound: SymbolsModel, name: TreeModel, reason: Reason, out: OutModel) -> OutModel {
    if of_kind(name, "JSXIdentifier"@) {
        after_tag(tag_of(bound, referenced(bound.symbols, name)), reason, out)
    } else if of_kind(name, "JSXMemberExpression"@) {
        after_member_tag(bound, name, out)
    } else {
        out
    }
}

fn sweep_element_name(
    bound: &FileSymbols,
    name: Option<&Tree>,
    reason: Reason,
    out: &mut FileOut,
    Ghost(count): Ghost<int>,
)
    requires
        bound.ok(count),
        old(out).ok(count),
    ensures
        final(out)@ == after_element_name(bound@, optional(name), reason, old(out)@),
        final(out).ok(count),
{
    if let Some(name) = name {
        if is_kind(name, "JSXIdentifier") {
            let tag = find_tag(bound, find_referenced(&bound.symbols, name), Ghost(count));
            sweep_tag(tag, reason, out, Ghost(count));
        } else if is_kind(name, "JSXMemberExpression") {
            mark_namespace_member(bound, name, out);
        }
    }
}

/// The first item of a list that may be empty.
pub open spec fn first(list: Seq<TreeModel>) -> TreeModel {
    if list.len() > 0 {
        list[0]
    } else {
        TreeModel::Null
    }
}

pub fn get_first<'a>(list: Option<&'a Vec<Tree>>) -> (result: Option<&'a Tree>)
    ensures
        optional(result) == first(optional_list(list)),
        (list is Some && result is Some) ==> decreases_to!((list->0)@ => *(result->0)),
{
    match list {
        None => None,
        Some(list) => {
            proof {
                lemma_list_model(list@, list@.len());
            }
            if list.len() > 0 {
                assert(decreases_to!(list@ => list@[0]));
                Some(&list[0])
            } else {
                None
            }
        },
    }
}

/// The specifier that a node loads a module by: `require("…")` or `import("…")`.
pub open spec fn loaded(tree: TreeModel) -> Option<Seq<char>> {
    if of_kind(tree, "CallExpression"@) {
        let callee = field(tree, "callee"@);
        if of_kind(callee, "Identifier"@) && text_field(callee, "name"@) == Some("require"@) {
            string_value(first(items(tree, "arguments"@)))
        } else {
            None
        }
    } else if of_kind(tree, "ImportExpression"@) {
        string_value(field(tree, "source"@))
    } else {
        None
    }
}

pub fn get_loaded<'a>(tree: &'a Tree) -> (result: Option<&'a String>)
    ensures
        optional_text(result) == loaded(tree@),
{
    if is_kind(tree, "CallExpression") {
        let callee = get(tree, "callee");
        if has_kind(callee, "Identifier") && is_text(optional_get_text(callee, "name"), "require") {
            optional_string(get_first(get_items(tree, "arguments")))
        } else {
            None
        }
    } else if is_kind(tree, "ImportExpression") {
        optional_string(get(tree, "source"))
    } else {
        None
    }
}

/// Whether there is a text, and it is this one.
pub fn is_text(text: Option<&String>, expected: &str) -> (result: bool)
    ensures
        result == (optional_text(text) == Some(expected@)),
{
    match text {
        Some(text) => same(text.as_str(), expected),
        None => false,
    }
}

/// Loading the CSS Module at run time makes its usages untrackable.
pub open spec fn after_load(bound: SymbolsModel, tree: TreeModel, out: OutModel) -> OutModel {
    match loaded(tree) {
        Some(specifier) => if resolved(bound.file_path, specifier) == bound.css_target {
            OutModel { unsound: true, ..out }
        } else {
            out
        },
        None => out,
    }
}

fn sweep_load(bound: &FileSymbols, tree: &Tree, out: &mut FileOut)
    ensures
        final(out)@ == after_load(bound@, tree@, old(out)@),
        final(out).rendered_marks == old(out).rendered_marks,
{
    if let Some(specifier) = get_loaded(tree) {
        if resolve_import(bound.file_path.as_str(), specifier.as_str()).same(&bound.css_target) {
            out.unsound = true;
        }
    }
}

/// The context of a sweep.
pub struct SweepModel {
    pub bound: SymbolsModel,
    pub props: PropBindings,
    pub reason: Reason,
}

/// Walks a region that the proof cannot follow, in the order of the text.
/// Records CSS Module usages (pre-disqualified), components rendered or
/// escaping there, and props references that break the forwarding and children
/// contracts.
pub open spec fn swept(tree: TreeModel, at: SweepModel, out: OutModel) -> OutModel
    decreases tree, 0nat,
{
    match tree {
        TreeModel::List(list) => swept_items(list, list.len(), at, out),
        TreeModel::Node(fields) => if static_member(tree) && member_on(at.bound.symbols, at.bound.css_symbol, tree) is Some {
            OutModel {
                boundary_usages: out.boundary_usages.push(
                    (member_on(at.bound.symbols, at.bound.css_symbol, tree)->0, span_of(tree), at.reason),
                ),
                ..out
            }
        } else if static_member(tree) && member_on(at.bound.symbols, at.props.props, tree) is Some {
            let property = member_on(at.bound.symbols, at.props.props, tree)->0;
            if property == "className"@ {
                OutModel { forward_bad: true, ..out }
            } else if property == "children"@ {
                OutModel { children_bad: true, ..out }
            } else {
                out
            }
        } else if of_kind(tree, "Property"@) && flag(tree, "shorthand"@) {
            let value = field(tree, "value"@);
            proof {
                lemma_field_smaller(tree, "value"@);
            }
            if value == TreeModel::Null {
                out
            } else {
                swept(value, at, out)
            }
        } else {
            swept_fields(fields, fields.len(), at, after_node(tree, at, out))
        },
        _ => out,
    }
}

/// What a node adds before its parts are walked.
pub open spec fn after_node(tree: TreeModel, at: SweepModel, out: OutModel) -> OutModel {
    if of_kind(tree, "Identifier"@) {
        after_reference(at.bound, at.props, referenced(at.bound.symbols, tree), out)
    } else if of_kind(tree, "JSXOpeningElement"@) || of_kind(tree, "JSXClosingElement"@) {
        after_element_name(at.bound, field(tree, "name"@), at.reason, out)
    } else {
        after_load(at.bound, tree, out)
    }
}

/// Walks the first `n` items.
pub open spec fn swept_items(list: Seq<TreeModel>, n: nat, at: SweepModel, out: OutModel) -> OutModel
    decreases list, n,
{
    if n == 0 || n > list.len() {
        out
    } else {
        swept(list[n - 1], at, swept_items(list, (n - 1) as nat, at, out))
    }
}

/// Walks the first `n` fields.
pub open spec fn swept_fields(fields: Seq<(Seq<char>, TreeModel)>, n: nat, at: SweepModel, out: OutModel) -> OutModel
    decreases fields, n,
{
    if n == 0 || n > fields.len() {
        out
    } else {
        swept(fields[n - 1].1, at, swept_fields(fields, (n - 1) as nat, at, out))
    }
}

fn sweep(
    tree: &Tree,
    bound: &FileSymbols,
    props: PropBindings,
    reason: Reason,
    out: &mut FileOut,
    Ghost(count): Ghost<int>,
)
    requires
        bound.ok(count),
        old(out).ok(count),
    ensures
        final(out)@ == swept(tree@, (SweepModel { bound: bound@, props, reason }), old(out)@),
        final(out).ok(count),
    decreases tree,
{
    let ghost at = SweepModel { bound: bound@, props, reason };
    match tree {
        Tree::List(list) => {
            proof {
                lemma_list_model(list@, list@.len());
            }
            sweep_list(list, bound, props, reason, out, Ghost(count));
        },
        Tree::Node(fields) => {
            if is_static_member(tree) {
                if let Some(name) = get_member_on(&bound.symbols, bound.css_symbol, tree) {
                    out.push_usage(name, get_span(tree), reason);
                    return ;
                }
                if let Some(property) = get_member_on(&bound.symbols, props.props, tree) {
                    if same(property.as_str(), "className") {
                        out.forward_bad = true;
                    } else if same(property.as_str(), "children") {
                        out.children_bad = true;
                    }
                    return ;
                }
            }
            if is_kind(tree, "Property") && get_flag(tree, "shorthand") {
                if let Some(value) = get(tree, "value") {
                    if let Tree::Null = value {
                        return ;
                    }
                    sweep(value, bound, props, reason, out, Ghost(count));
                }
                return ;
            }
            if is_kind(tree, "Identifier") {
                sweep_reference(bound, props, find_referenced(&bound.symbols, tree), out, Ghost(count));
            } else if is_kind(tree, "JSXOpeningElement") || is_kind(tree, "JSXClosingElement") {
                sweep_element_name(bound, get(tree, "name"), reason, out, Ghost(count));
            } else {
                sweep_load(bound, tree, out);
            }
            let ghost first_out = out@;
            proof {
                lemma_fields_model(fields@, fields@.len());
            }
            let ghost models = fields_model(fields@, fields@.len());
            let mut n: usize = 0;
            while n < fields.len()
                invariant
                    bound.ok(count),
                    out.ok(count),
                    at == (SweepModel { bound: bound@, props, reason }),
                    *tree == Tree::Node(*fields),
                    n <= fields@.len(),
                    models.len() == fields@.len(),
                    forall|k: int|
                        0 <= k < fields@.len() ==> #[trigger] models[k] == (fields@[k].0@, tree_model(fields@[k].1)),
                    out@ == swept_fields(models, n as nat, at, first_out),
                decreases fields.len() - n,
            {
                assert(models[n as int] == (fields@[n as int].0@, tree_model(fields@[n as int].1)));
                assert(decreases_to!(fields@ => fields@[n as int]));
                assert(decreases_to!(fields@[n as int] => fields@[n as int].1));
                assert(decreases_to!(*tree => (*tree)->Node_0));
                assert(decreases_to!(*fields => fields@));
                sweep(&fields[n].1, bound, props, reason, out, Ghost(count));
                n += 1;
            }
        },
        _ => {},
    }
}

fn sweep_list(
    list: &Vec<Tree>,
    bound: &FileSymbols,
    props: PropBindings,
    reason: Reason,
    out: &mut FileOut,
    Ghost(count): Ghost<int>,
)
    requires
        bound.ok(count),
        old(out).ok(count),
    ensures
        final(out)@ == swept_items(
            list_model(list@, list@.len()),
            list@.len(),
            (SweepModel { bound: bound@, props, reason }),
            old(out)@,
        ),
        final(out).ok(count),
    decreases list,
{
    let ghost at = SweepModel { bound: bound@, props, reason };
    let ghost first_out = out@;
    proof {
        lemma_list_model(list@, list@.len());
    }
    let ghost models = list_model(list@, list@.len());
    let mut n: usize = 0;
    while n < list.len()
        invariant
            bound.ok(count),
            out.ok(count),
            at == (SweepModel { bound: bound@, props, reason }),
            n <= list@.len(),
            models.len() == list@.len(),
            forall|k: int| 0 <= k < list@.len() ==> #[trigger] models[k] == tree_model(list@[k]),
            out@ == swept_items(models, n as nat, at, first_out),
        decreases list.len() - n,
    {
        assert(models[n as int] == tree_model(list@[n as int]));
        assert(decreases_to!(list@ => list@[n as int]));
        sweep(&list[n], bound, props, reason, out, Ghost(count));
        n += 1;
    }
}

// ---------------------------------------------------------------------------
// Component qualification
// ---------------------------------------------------------------------------

pub open spec fn function_node(tree: TreeModel) -> bool {
    ||| of_kind(tree, "FunctionDeclaration"@)
    ||| of_kind(tree, "FunctionExpression"@)
    ||| of_kind(tree, "TSDeclareFunction"@)
    ||| of_kind(tree, "TSEmptyBodyFunctionExpression"@)
    ||| of_kind(tree, "ArrowFunctionExpression"@)
}

fn is_function_node(tree: &Tree) -> (result: bool)
    ensures
        result == function_node(tree@),
{
    is_kind(tree, "FunctionDeclaration") || is_kind(tree, "FunctionExpression") || is_kind(tree, "TSDeclareFunction")
        || is_kind(tree, "TSEmptyBodyFunctionExpression") || is_kind(tree, "ArrowFunctionExpression")
}

/// How many `return` statements a function body has, nested functions aside.
pub open spec fn returns_in(tree: TreeModel) -> nat
    decreases tree, 0nat,
{
    match tree {
        TreeModel::List(list) => returns_in_items(list, list.len()),
        TreeModel::Node(fields) => if function_node(tree) {
            0
        } else {
            (if of_kind(tree, "ReturnStatement"@) {
                1nat
            } else {
                0nat
            }) + returns_in_fields(fields, fields.len())
        },
        _ => 0,
    }
}

pub open spec fn returns_in_items(list: Seq<TreeModel>, n: nat) -> nat
    decreases list, n,
{
    if n == 0 || n > list.len() {
        0
    } else {
        returns_in_items(list, (n - 1) as nat) + returns_in(list[n - 1])
    }
}

pub open spec fn returns_in_fields(fields: Seq<(Seq<char>, TreeModel)>, n: nat) -> nat
    decreases fields, n,
{
    if n == 0 || n > fields.len() {
        0
    } else {
        returns_in_fields(fields, (n - 1) as nat) + returns_in(fields[n - 1].1)
    }
}

/// `count`, or two where it is more.
pub open spec fn capped(count: nat) -> nat {
    if count > 2 {
        2
    } else {
        count
    }
}

fn count_returns(tree: &Tree) -> (result: u8)
    ensures
        result == capped(returns_in(tree@)),
    decreases tree,
{
    match tree {
        Tree::List(list) => {
            proof {
                lemma_list_model(list@, list@.len());
            }
            let ghost models = list_model(list@, list@.len());
            let mut total: u8 = 0;
            let mut n: usize = 0;
            while n < list.len()
                invariant
                    *tree == Tree::List(*list),
                    n <= list@.len(),
                    models.len() == list@.len(),
                    forall|k: int| 0 <= k < list@.len() ==> #[trigger] models[k] == tree_model(list@[k]),
                    total == capped(returns_in_items(models, n as nat)),
                decreases list.len() - n,
            {
                assert(models[n as int] == tree_model(list@[n as int]));
                assert(decreases_to!(*tree => (*tree)->List_0));
                assert(decreases_to!(*list => list@));
                assert(decreases_to!(list@ => list@[n as int]));
                total = total + count_returns(&list[n]);
                if total > 2 {
                    total = 2;
                }
                n += 1;
            }
            total
        },
        Tree::Node(fields) => {
            if is_function_node(tree) {
                return 0;
            }
            proof {
                lemma_fields_model(fields@, fields@.len());
            }
            let ghost models = fields_model(fields@, fields@.len());
            let mut total: u8 = 0;
            let mut n: usize = 0;
            while n < fields.len()
                invariant
                    *tree == Tree::Node(*fields),
                    n <= fields@.len(),
                    models.len() == fields@.len(),
                    forall|k: int|
                        0 <= k < fields@.len() ==> #[trigger] models[k] == (fields@[k].0@, tree_model(fields@[k].1)),
                    total == capped(returns_in_fields(models, n as nat)),
                decreases fields.len() - n,
            {
                assert(models[n as int] == (fields@[n as int].0@, tree_model(fields@[n as int].1)));
                assert(decreases_to!(*tree => (*tree)->Node_0));
                assert(decreases_to!(*fields => fields@));
                assert(decreases_to!(fields@ => fields@[n as int]));
                assert(decreases_to!(fields@[n as int] => fields@[n as int].1));
                total = total + count_returns(&fields[n].1);
                if total > 2 {
                    total = 2;
                }
                n += 1;
            }
            if is_kind(tree, "ReturnStatement") && total < 2 {
                total = total + 1;
            }
            total
        },
        _ => 0,
    }
}

/// A call of `createPortal`.
pub open spec fn portal_call(tree: TreeModel) -> bool {
    &&& of_kind(tree, "CallExpression"@)
    &&& {
        let callee = inner(field(tree, "callee"@));
        ||| of_kind(callee, "Identifier"@) && text_field(callee, "name"@) == Some("createPortal"@)
        ||| static_member(callee) && text_field(field(callee, "property"@), "name"@) == Some("createPortal"@)
    }
}

fn is_portal_call(tree: &Tree) -> (result: bool)
    ensures
        result == portal_call(tree@),
{
    if !is_kind(tree, "CallExpression") {
        return false;
    }
    match get(tree, "callee") {
        None => {
            assert(inner(TreeModel::Null) == TreeModel::Null);
            false
        },
        Some(callee) => {
            let callee = get_inner(callee);
            (is_kind(callee, "Identifier") && is_text(get_text(callee, "name"), "createPortal")) || (is_static_member(
                callee,
            ) && is_text(optional_get_text(get(callee, "property"), "name"), "createPortal"))
        },
    }
}

/// Whether a portal is opened anywhere in the tree.
pub open spec fn opens_portal(tree: TreeModel) -> bool
    decreases tree, 0nat,
{
    match tree {
        TreeModel::List(list) => portal_in_items(list, list.len()),
        TreeModel::Node(fields) => portal_call(tree) || portal_in_fields(fields, fields.len()),
        _ => false,
    }
}

pub open spec fn portal_in_items(list: Seq<TreeModel>, n: nat) -> bool
    decreases list, n,
{
    n != 0 && n <= list.len() && (portal_in_items(list, (n - 1) as nat) || opens_portal(list[n - 1]))
}

pub open spec fn portal_in_fields(fields: Seq<(Seq<char>, TreeModel)>, n: nat) -> bool
    decreases fields, n,
{
    n != 0 && n <= fields.len() && (portal_in_fields(fields, (n - 1) as nat) || opens_portal(fields[n - 1].1))
}

fn find_portal(tree: &Tree) -> (result: bool)
    ensures
        result == opens_portal(tree@),
    decreases tree,
{
    match tree {
        Tree::List(list) => {
            proof {
                lemma_list_model(list@, list@.len());
            }
            let ghost models = list_model(list@, list@.len());
            let mut found = false;
            let mut n: usize = 0;
            while n < list.len()
                invariant
                    *tree == Tree::List(*list),
                    n <= list@.len(),
                    models.len() == list@.len(),
                    forall|k: int| 0 <= k < list@.len() ==> #[trigger] models[k] == tree_model(list@[k]),
                    found == portal_in_items(models, n as nat),
                decreases list.len() - n,
            {
                assert(models[n as int] == tree_model(list@[n as int]));
                assert(decreases_to!(*tree => (*tree)->List_0));
                assert(decreases_to!(*list => list@));
                assert(decreases_to!(list@ => list@[n as int]));
                found = find_portal(&list[n]) || found;
                n += 1;
            }
            found
        },
        Tree::Node(fields) => {
            proof {
                lemma_fields_model(fields@, fields@.len());
            }
            let ghost models = fields_model(fields@, fields@.len());
            let mut found = false;
            let mut n: usize = 0;
            while n < fields.len()
                invariant
                    *tree == Tree::Node(*fields),
                    n <= fields@.len(),
                    models.len() == fields@.len(),
                    forall|k: int|
                        0 <= k < fields@.len() ==> #[trigger] models[k] == (fields@[k].0@, tree_model(fields@[k].1)),
                    found == portal_in_fields(models, n as nat),
                decreases fields.len() - n,
            {
                assert(models[n as int] == (fields@[n as int].0@, tree_model(fields@[n as int].1)));
                assert(decreases_to!(*tree => (*tree)->Node_0));
                assert(decreases_to!(*fields => fields@));
                assert(decreases_to!(fields@ => fields@[n as int]));
                assert(decreases_to!(fields@[n as int] => fields@[n as int].1));
                found = find_portal(&fields[n].1) || found;
                n += 1;
            }
            is_portal_call(tree) || found
        },
        _ => false,
    }
}

/// The argument of the first `return` with one among the statements from `i`
/// on; `Null` where there is none.
pub open spec fn direct_return(statements: Seq<TreeModel>, i: int) -> TreeModel
    decreases statements.len() - i,
{
    if i < 0 || i >= statements.len() {
        TreeModel::Null
    } else if of_kind(statements[i], "ReturnStatement"@) && field(statements[i], "argument"@) != TreeModel::Null {
        field(statements[i], "argument"@)
    } else {
        direct_return(statements, i + 1)
    }
}

/// Whether the function is an arrow function whose body is an expression.
pub open spec fn expression_arrow(function: TreeModel) -> bool {
    of_kind(function, "ArrowFunctionExpression"@) && flag(function, "expression"@)
}

/// The expression that a function returns, or the reason why that is not one
/// statically known expression.
pub open spec fn returned(function: TreeModel) -> Result<TreeModel, Reason> {
    let body = field(function, "body"@);
    if opens_portal(body) {
        Err(Reason::Portal)
    } else if expression_arrow(function) {
        Ok(body)
    } else if !of_kind(body, "BlockStatement"@) || returns_in(body) == 0 {
        Err(Reason::Hoc)
    } else if returns_in(body) > 1 {
        Err(Reason::Conditional)
    } else {
        // The single return must be a direct statement of the body; otherwise
        // it sits inside a conditional branch.
        let argument = direct_return(items(body, "body"@), 0);
        if argument == TreeModel::Null {
            Err(Reason::Conditional)
        } else {
            Ok(argument)
        }
    }
}

/// The single statically analyzable JSX return, or the reason there is none.
pub open spec fn qualified(function: TreeModel) -> Result<TreeModel, Reason> {
    match returned(function) {
        Err(reason) => Err(reason),
        Ok(argument) => {
            let expression = inner(argument);
            if of_kind(expression, "JSXElement"@) || of_kind(expression, "JSXFragment"@) {
                Ok(argument)
            } else if of_kind(expression, "ConditionalExpression"@) || of_kind(expression, "LogicalExpression"@) {
                Err(Reason::Conditional)
            } else {
                Err(Reason::Hoc)
            }
        },
    }
}

fn find_return<'a>(body: &'a Tree) -> (result: Option<&'a Tree>)
    ensures
        optional(result) == direct_return(items(body@, "body"@), 0),
        result matches Some(argument) ==> *argument != Tree::Null && decreases_to!(*body => *argument),
{
    let statements = match get_items(body, "body") {
        None => {
            return None;
        },
        Some(statements) => statements,
    };
    proof {
        lemma_list_model(statements@, statements@.len());
    }
    let ghost models = list_model(statements@, statements@.len());
    let mut i: usize = 0;
    while i < statements.len()
        invariant
            i <= statements@.len(),
            models == items(body@, "body"@),
            models.len() == statements@.len(),
            forall|k: int| 0 <= k < statements@.len() ==> #[trigger] models[k] == tree_model(statements@[k]),
            decreases_to!(*body => statements@),
            direct_return(models, i as int) == direct_return(models, 0),
        decreases statements.len() - i,
    {
        assert(models[i as int] == tree_model(statements@[i as int]));
        let statement = &statements[i];
        if is_kind(statement, "ReturnStatement") {
            if let Some(argument) = get(statement, "argument") {
                let missing = matches!(argument, Tree::Null);
                if !missing {
                    assert(decreases_to!(statements@ => statements@[i as int]));
                    return Some(argument);
                }
            }
        }
        i += 1;
    }
    None
}

fn qualify<'a>(function: &'a Tree) -> (result: Result<&'a Tree, Reason>)
    ensures
        match qualified(function@) {
            Ok(root) => result matches Ok(tree) && tree@ == root,
            Err(reason) => result == Err::<&'a Tree, Reason>(reason),
        },
        result matches Ok(root) ==> decreases_to!(*function => *root),
{
    let body = match get(function, "body") {
        None => {
            assert(inner(TreeModel::Null) == TreeModel::Null);
            return Err(Reason::Hoc);
        },
        Some(body) => body,
    };
    if find_portal(body) {
        return Err(Reason::Portal);
    }
    let argument = if is_kind(function, "ArrowFunctionExpression") && get_flag(function, "expression") {
        body
    } else {
        if !is_kind(body, "BlockStatement") {
            return Err(Reason::Hoc);
        }
        let count = count_returns(body);
        if count == 0 {
            return Err(Reason::Hoc);
        }
        if count > 1 {
            return Err(Reason::Conditional);
        }
        match find_return(body) {
            None => {
                return Err(Reason::Conditional);
            },
            Some(argument) => argument,
        }
    };
    let expression = get_inner(argument);
    if is_kind(expression, "JSXElement") || is_kind(expression, "JSXFragment") {
        Ok(argument)
    } else if is_kind(expression, "ConditionalExpression") || is_kind(expression, "LogicalExpression") {
        Err(Reason::Conditional)
    } else {
        Err(Reason::Hoc)
    }
}

/// What a component's parameters bind, and whether they hide props.
pub struct ParamInfo {
    pub bindings: PropBindings,
    pub bad: bool,
}

/// Whether a parameter stands in the list: neither the rest nor `this`.
pub open spec fn plain_param(param: TreeModel) -> bool {
    &&& !of_kind(param, "RestElement"@)
    &&& !(of_kind(param, "Identifier"@) && text_field(param, "name"@) == Some("this"@))
}

pub open spec fn has_rest(list: Seq<TreeModel>) -> bool {
    exists|i: int| 0 <= i < list.len() && of_kind(#[trigger] list[i], "RestElement"@)
}

/// The plain parameters among the first `n`.
pub open spec fn plain_params(list: Seq<TreeModel>, n: int) -> Seq<TreeModel>
    decreases n,
{
    if n <= 0 {
        seq![]
    } else {
        let rest = plain_params(list, n - 1);
        if plain_param(list[n - 1]) {
            rest.push(list[n - 1])
        } else {
            rest
        }
    }
}

/// A parameter without its default value.
pub open spec fn without_default(pattern: TreeModel) -> TreeModel {
    if of_kind(pattern, "AssignmentPattern"@) {
        field(pattern, "left"@)
    } else {
        pattern
    }
}

/// The symbol that a property's value binds directly; the outer `None` says
/// that it is a nested pattern.
pub open spec fn bound_by(symbols: Seq<Occurrence>, property: TreeModel) -> Option<Option<usize>> {
    let value = without_default(field(property, "value"@));
    if of_kind(value, "Identifier"@) {
        Some(declared(symbols, value))
    } else {
        None
    }
}

/// What one property of a destructured props parameter binds.
pub open spec fn after_property(symbols: Seq<Occurrence>, property: TreeModel, info: ParamInfo) -> ParamInfo {
    if of_kind(property, "RestElement"@) {
        // `{...rest}` can smuggle className/children invisibly.
        ParamInfo { bad: true, ..info }
    } else {
        let key = field(property, "key"@);
        if flag(property, "computed"@) || !of_kind(key, "Identifier"@) {
            info
        } else if text_field(key, "name"@) == Some("className"@) {
            match bound_by(symbols, property) {
                Some(symbol) => ParamInfo { bindings: PropBindings { class_name: symbol, ..info.bindings }, ..info },
                None => ParamInfo { bad: true, ..info },
            }
        } else if text_field(key, "name"@) == Some("children"@) {
            match bound_by(symbols, property) {
                Some(symbol) => ParamInfo { bindings: PropBindings { children: symbol, ..info.bindings }, ..info },
                None => ParamInfo { bad: true, ..info },
            }
        } else {
            info
        }
    }
}

pub open spec fn after_properties(symbols: Seq<Occurrence>, list: Seq<TreeModel>, n: int, info: ParamInfo) -> ParamInfo
    decreases n,
{
    if n <= 0 {
        info
    } else {
        after_property(symbols, list[n - 1], after_properties(symbols, list, n - 1, info))
    }
}

/// How a component reads its props: at most one parameter, which is a name or
/// is destructured.
pub open spec fn param_info(symbols: Seq<Occurrence>, function: TreeModel) -> ParamInfo {
    let list = items(function, "params"@);
    let plain = plain_params(list, list.len() as int);
    let info = ParamInfo { bindings: no_props(), bad: has_rest(list) };
    if plain.len() > 1 {
        ParamInfo { bad: true, ..info }
    } else if plain.len() == 0 {
        info
    } else {
        let pattern = without_default(plain[0]);
        if of_kind(pattern, "Identifier"@) {
            ParamInfo { bindings: PropBindings { props: declared(symbols, pattern), ..info.bindings }, ..info }
        } else if of_kind(pattern, "ObjectPattern"@) {
            let properties = items(pattern, "properties"@);
            after_properties(symbols, properties, properties.len() as int, info)
        } else {
            ParamInfo { bad: true, ..info }
        }
    }
}

fn strip_default<'a>(pattern: &'a Tree) -> (result: Option<&'a Tree>)
    ensures
        optional(result) == without_default(pattern@),
{
    if is_kind(pattern, "AssignmentPattern") {
        get(pattern, "left")
    } else {
        Some(pattern)
    }
}

fn binding_of(symbols: &Vec<Occurrence>, property: &Tree) -> (result: Option<Option<usize>>)
    ensures
        result == bound_by(symbols@, property@),
{
    let value = match get(property, "value") {
        None => {
            assert(!of_kind(TreeModel::Null, "AssignmentPattern"@));
            assert(!of_kind(TreeModel::Null, "Identifier"@));
            return None;
        },
        Some(value) => value,
    };
    match strip_default(value) {
        None => {
            assert(!of_kind(TreeModel::Null, "Identifier"@));
            None
        },
        Some(value) => if is_kind(value, "Identifier") {
            Some(find_declared(symbols, value))
        } else {
            None
        },
    }
}

fn analyze_params(symbols: &Vec<Occurrence>, function: &Tree) -> (info: ParamInfo)
    ensures
        info == param_info(symbols@, function@),
{
    let list = match get_items(function, "params") {
        None => {
            return ParamInfo { bindings: without_props(), bad: false };
        },
        Some(list) => list,
    };
    proof {
        lemma_list_model(list@, list@.len());
    }
    let ghost models = list_model(list@, list@.len());
    let mut rest = false;
    let mut plain: usize = 0;
    let mut first_plain: usize = 0;
    let mut n: usize = 0;
    while n < list.len()
        invariant
            n <= list@.len(),
            models == items(function@, "params"@),
            models.len() == list@.len(),
            forall|k: int| 0 <= k < list@.len() ==> #[trigger] models[k] == tree_model(list@[k]),
            rest == exists|i: int| 0 <= i < n && of_kind(#[trigger] models[i], "RestElement"@),
            plain == plain_params(models, n as int).len(),
            plain <= n,
            plain > 0 ==> first_plain < list@.len() && models[first_plain as int] == plain_params(models, n as int)[0],
        decreases list.len() - n,
    {
        assert(models[n as int] == tree_model(list@[n as int]));
        let param = &list[n];
        let is_rest = is_kind(param, "RestElement");
        let is_this = is_kind(param, "Identifier") && is_text(get_text(param, "name"), "this");
        if is_rest {
            assert(of_kind(models[n as int], "RestElement"@));
            rest = true;
        }
        if !is_rest && !is_this {
            if plain == 0 {
                first_plain = n;
            }
            plain += 1;
        }
        n += 1;
    }
    assert(rest == has_rest(models));
    if plain > 1 {
        return ParamInfo { bindings: without_props(), bad: true };
    }
    if plain == 0 {
        return ParamInfo { bindings: without_props(), bad: rest };
    }
    assert(models[first_plain as int] == tree_model(list@[first_plain as int]));
    let pattern = match strip_default(&list[first_plain]) {
        None => {
            assert(!of_kind(TreeModel::Null, "Identifier"@));
            assert(!of_kind(TreeModel::Null, "ObjectPattern"@));
            return ParamInfo { bindings: without_props(), bad: true };
        },
        Some(pattern) => pattern,
    };
    let mut info = ParamInfo { bindings: without_props(), bad: rest };
    if is_kind(pattern, "Identifier") {
        info.bindings.props = find_declared(symbols, pattern);
        return info;
    }
    if !is_kind(pattern, "ObjectPattern") {
        info.bad = true;
        return info;
    }
    let ghost start = info;
    if let Some(properties) = get_items(pattern, "properties") {
        proof {
            lemma_list_model(properties@, properties@.len());
        }
        let ghost property_models = list_model(properties@, properties@.len());
        let mut p: usize = 0;
        while p < properties.len()
            invariant
                p <= properties@.len(),
                property_models.len() == properties@.len(),
                forall|k: int|
                    0 <= k < properties@.len() ==> #[trigger] property_models[k] == tree_model(properties@[k]),
                info == after_properties(symbols@, property_models, p as int, start),
            decreases properties.len() - p,
        {
            assert(property_models[p as int] == tree_model(properties@[p as int]));
            let property = &properties[p];
            if is_kind(property, "RestElement") {
                info.bad = true;
            } else if !get_flag(property, "computed") && has_kind(get(property, "key"), "Identifier") {
                let key = optional_get_text(get(property, "key"), "name");
                if is_text(key, "className") {
                    match binding_of(symbols, property) {
                        Some(symbol) => {
                            info.bindings.class_name = symbol;
                        },
                        None => {
                            info.bad = true;
                        },
                    }
                } else if is_text(key, "children") {
                    match binding_of(symbols, property) {
                        Some(symbol) => {
                            info.bindings.children = symbol;
                        },
                        None => {
                            info.bad = true;
                        },
                    }
                }
            }
            p += 1;
        }
    }
    info
}

// ---------------------------------------------------------------------------
// Tree building
// ---------------------------------------------------------------------------

/// The model of a [`NodeKind`].
pub enum KindModel {
    Element { keys: Seq<(KeyModel, (usize, usize))> },
    ComponentUse { tag: TagModel, class_keys: Seq<(Seq<char>, (usize, usize))> },
    Slot,
}

/// The model of a [`Node`].
pub struct NodeModel {
    pub parent: Option<usize>,
    pub kind: KindModel,
}

pub open spec fn keys_model(keys: Seq<(SelectorKey, (usize, usize))>) -> Seq<(KeyModel, (usize, usize))> {
    keys.map_values(|key: (SelectorKey, (usize, usize))| (key.0@, key.1))
}

pub open spec fn classes_model(keys: Seq<(String, (usize, usize))>) -> Seq<(Seq<char>, (usize, usize))> {
    keys.map_values(|key: (String, (usize, usize))| (key.0@, key.1))
}

impl View for Node {
    type V = NodeModel;

    open spec fn view(&self) -> NodeModel {
        NodeModel {
            parent: self.parent,
            kind: match self.kind {
                NodeKind::Element { keys } => KindModel::Element { keys: keys_model(keys@) },
                NodeKind::ComponentUse { tag, class_keys } => KindModel::ComponentUse {
                    tag: tag@,
                    class_keys: classes_model(class_keys@),
                },
                NodeKind::Slot => KindModel::Slot,
            },
        }
    }
}

pub open spec fn nodes_model(nodes: Seq<Node>) -> Seq<NodeModel> {
    nodes.map_values(|node: Node| node@)
}

/// What was read of a `className` value.
pub struct PartModel {
    pub keys: Seq<(Seq<char>, (usize, usize))>,
    /// `props.className` is part of the value.
    pub forward: bool,
    pub out: OutModel,
}

/// One part of a `className`: a module key, a forwarded `props.className`, a
/// nested template, or an opaque expression.
pub open spec fn class_part(tree: TreeModel, at: SweepModel, part: PartModel) -> PartModel
    decreases tree, 0nat,
{
    if static_member(tree) && member_on(at.bound.symbols, at.bound.css_symbol, tree) is Some {
        PartModel {
            keys: part.keys.push((member_on(at.bound.symbols, at.bound.css_symbol, tree)->0, span_of(tree))),
            ..part
        }
    } else if static_member(tree) && member_on(at.bound.symbols, at.props.props, tree) == Some("className"@) {
        PartModel { forward: true, ..part }
    } else if names(at.bound.symbols, at.props.class_name, tree) {
        PartModel { forward: true, ..part }
    } else if of_kind(tree, "TemplateLiteral"@) {
        proof {
            lemma_field_smaller(tree, "expressions"@);
        }
        match field(tree, "expressions"@) {
            TreeModel::List(list) => class_parts(list, list.len(), at, part),
            _ => part,
        }
    } else if string_value(tree) is Some {
        part
    } else {
        PartModel { out: swept(tree, at, part.out), ..part }
    }
}

pub open spec fn class_parts(list: Seq<TreeModel>, n: nat, at: SweepModel, part: PartModel) -> PartModel
    decreases list, n,
{
    if n == 0 || n > list.len() {
        part
    } else {
        class_part(list[n - 1], at, class_parts(list, (n - 1) as nat, at, part))
    }
}

/// The expression in the braces of an attribute value or child; `Null` where
/// there are none, or nothing stands in them.
pub open spec fn contained(value: TreeModel) -> TreeModel {
    if of_kind(value, "JSXExpressionContainer"@) && !of_kind(field(value, "expression"@), "JSXEmptyExpression"@) {
        field(value, "expression"@)
    } else {
        TreeModel::Null
    }
}

fn get_contained<'a>(value: Option<&'a Tree>) -> (result: Option<&'a Tree>)
    ensures
        optional(result) == contained(optional(value)),
        result matches Some(tree) ==> *tree != Tree::Null && value is Some && decreases_to!(*(value->0) => *tree),
{
    match value {
        None => {
            assert(!of_kind(TreeModel::Null, "JSXExpressionContainer"@));
            None
        },
        Some(value) => {
            if !is_kind(value, "JSXExpressionContainer") {
                return None;
            }
            match get(value, "expression") {
                None => None,
                Some(expression) => {
                    let missing = matches!(expression, Tree::Null);
                    if missing || is_kind(expression, "JSXEmptyExpression") {
                        None
                    } else {
                        Some(expression)
                    }
                },
            }
        },
    }
}

/// The name of a plain attribute.
pub open spec fn attribute_name(item: TreeModel) -> Option<Seq<char>> {
    if of_kind(item, "JSXAttribute"@) && of_kind(field(item, "name"@), "JSXIdentifier"@) {
        text_field(field(item, "name"@), "name"@)
    } else {
        None
    }
}

pub fn get_attribute_name<'a>(item: &'a Tree) -> (result: Option<&'a String>)
    ensures
        optional_text(result) == attribute_name(item@),
{
    let name = get(item, "name");
    if is_kind(item, "JSXAttribute") && has_kind(name, "JSXIdentifier") {
        optional_get_text(name, "name")
    } else {
        None
    }
}

/// What was read of a host element's attributes.
pub struct AttributesModel {
    pub keys: Seq<(KeyModel, (usize, usize))>,
    pub forward: bool,
    pub out: OutModel,
}

pub open spec fn as_class_keys(keys: Seq<(Seq<char>, (usize, usize))>) -> Seq<(KeyModel, (usize, usize))> {
    keys.map_values(|key: (Seq<char>, (usize, usize))| (KeyModel::Class(key.0), key.1))
}

pub open spec fn host_attribute(item: TreeModel, at: SweepModel, read: AttributesModel) -> AttributesModel {
    let value = field(item, "value"@);
    let expression = contained(value);
    if of_kind(item, "JSXSpreadAttribute"@) {
        AttributesModel { out: swept(field(item, "argument"@), at, read.out), ..read }
    } else if attribute_name(item) is None {
        read
    } else if attribute_name(item) == Some("className"@) {
        if expression == TreeModel::Null {
            read
        } else {
            let part = class_part(expression, at, PartModel { keys: seq![], forward: false, out: read.out });
            AttributesModel {
                keys: read.keys + as_class_keys(part.keys),
                forward: read.forward || part.forward,
                out: part.out,
            }
        }
    } else if attribute_name(item) == Some("id"@) {
        if expression == TreeModel::Null {
            read
        } else if static_member(expression) && member_on(at.bound.symbols, at.bound.css_symbol, expression) is Some {
            AttributesModel {
                keys: read.keys.push(
                    (
                        KeyModel::Id(member_on(at.bound.symbols, at.bound.css_symbol, expression)->0),
                        span_of(expression),
                    ),
                ),
                ..read
            }
        } else {
            AttributesModel { out: swept(expression, at, read.out), ..read }
        }
    } else {
        AttributesModel { out: swept(value, at, read.out), ..read }
    }
}

pub open spec fn host_attributes(list: Seq<TreeModel>, n: int, at: SweepModel, read: AttributesModel) -> AttributesModel
    decreases n,
{
    if n <= 0 {
        read
    } else {
        host_attribute(list[n - 1], at, host_attributes(list, n - 1, at, read))
    }
}

/// What was read of a component invocation's attributes. A `className` that is
/// forwarded once more is not proven.
pub open spec fn use_attribute(item: TreeModel, at: SweepModel, read: PartModel) -> PartModel {
    let value = field(item, "value"@);
    if of_kind(item, "JSXSpreadAttribute"@) {
        PartModel { out: swept(field(item, "argument"@), at, read.out), ..read }
    } else if attribute_name(item) is None {
        read
    } else if attribute_name(item) == Some("className"@) {
        if contained(value) == TreeModel::Null {
            read
        } else {
            class_part(contained(value), at, read)
        }
    } else {
        PartModel { out: swept(value, at, read.out), ..read }
    }
}

pub open spec fn use_attributes(list: Seq<TreeModel>, n: int, at: SweepModel, read: PartModel) -> PartModel
    decreases n,
{
    if n <= 0 {
        read
    } else {
        use_attribute(list[n - 1], at, use_attributes(list, n - 1, at, read))
    }
}

/// The reading of a `className`.
struct ClassPart {
    keys: Vec<(String, (usize, usize))>,
    forward: bool,
}

impl ClassPart {
    spec fn model(self, out: OutModel) -> PartModel {
        PartModel { keys: classes_model(self.keys@), forward: self.forward, out }
    }
}

fn read_class_part(
    tree: &Tree,
    bound: &FileSymbols,
    props: PropBindings,
    part: &mut ClassPart,
    out: &mut FileOut,
    Ghost(count): Ghost<int>,
)
    requires
        bound.ok(count),
        old(out).ok(count),
    ensures
        final(part).model(final(out)@) == class_part(
            tree@,
            (SweepModel { bound: bound@, props, reason: Reason::Boundary }),
            old(part).model(old(out)@),
        ),
        final(out).ok(count),
    decreases tree,
{
    let ghost at = SweepModel { bound: bound@, props, reason: Reason::Boundary };
    if is_static_member(tree) {
        if let Some(name) = get_member_on(&bound.symbols, bound.css_symbol, tree) {
            let ghost before = part.keys@;
            let span = get_span(tree);
            part.keys.push((name.clone(), span));
            assert(classes_model(part.keys@) =~= classes_model(before).push((name@, span)));
            return ;
        }
        if is_text(get_member_on(&bound.symbols, props.props, tree), "className") {
            part.forward = true;
            return ;
        }
    }
    if is_named(&bound.symbols, props.class_name, tree) {
        part.forward = true;
        return ;
    }
    if is_kind(tree, "TemplateLiteral") {
        let ghost first_part = part.model(out@);
        if let Some(list) = get_items(tree, "expressions") {
            proof {
                lemma_list_model(list@, list@.len());
            }
            let ghost models = list_model(list@, list@.len());
            assert(models == items(tree@, "expressions"@));
            let mut n: usize = 0;
            while n < list.len()
                invariant
                    bound.ok(count),
                    out.ok(count),
                    at == (SweepModel { bound: bound@, props, reason: Reason::Boundary }),
                    n <= list@.len(),
                    decreases_to!(*tree => list@),
                    models.len() == list@.len(),
                    forall|k: int| 0 <= k < list@.len() ==> #[trigger] models[k] == tree_model(list@[k]),
                    part.model(out@) == class_parts(models, n as nat, at, first_part),
                decreases list.len() - n,
            {
                assert(models[n as int] == tree_model(list@[n as int]));
                assert(decreases_to!(list@ => list@[n as int]));
                read_class_part(&list[n], bound, props, part, out, Ghost(count));
                n += 1;
            }
        }
        return ;
    }
    if get_string(tree).is_some() {
        return ;
    }
    sweep(tree, bound, props, Reason::Boundary, out, Ghost(count));
}

fn sweep_optional(
    tree: Option<&Tree>,
    bound: &FileSymbols,
    props: PropBindings,
    reason: Reason,
    out: &mut FileOut,
    Ghost(count): Ghost<int>,
)
    requires
        bound.ok(count),
        old(out).ok(count),
    ensures
        final(out)@ == swept(optional(tree), (SweepModel { bound: bound@, props, reason }), old(out)@),
        final(out).ok(count),
{
    if let Some(tree) = tree {
        sweep(tree, bound, props, reason, out, Ghost(count));
    }
}

fn read_host_attributes(
    element: &Tree,
    bound: &FileSymbols,
    props: PropBindings,
    out: &mut FileOut,
    Ghost(count): Ghost<int>,
) -> (result: (Vec<(SelectorKey, (usize, usize))>, bool))
    requires
        bound.ok(count),
        old(out).ok(count),
    ensures
        ({
            let list = items(field(element@, "openingElement"@), "attributes"@);
            (AttributesModel { keys: keys_model(result.0@), forward: result.1, out: final(out)@ }) == host_attributes(
                list,
                list.len() as int,
                (SweepModel { bound: bound@, props, reason: Reason::Boundary }),
                (AttributesModel { keys: seq![], forward: false, out: old(out)@ }),
            )
        }),
        final(out).ok(count),
{
    let ghost at = SweepModel { bound: bound@, props, reason: Reason::Boundary };
    let ghost start = AttributesModel { keys: seq![], forward: false, out: out@ };
    let mut keys: Vec<(SelectorKey, (usize, usize))> = Vec::new();
    let mut forward = false;
    assert(keys_model(keys@) =~= seq![]);
    let opening = match get(element, "openingElement") {
        None => {
            return (keys, forward);
        },
        Some(opening) => opening,
    };
    let list = match get_items(opening, "attributes") {
        None => {
            return (keys, forward);
        },
        Some(list) => list,
    };
    proof {
        lemma_list_model(list@, list@.len());
    }
    let ghost models = list_model(list@, list@.len());
    let mut n: usize = 0;
    while n < list.len()
        invariant
            bound.ok(count),
            out.ok(count),
            at == (SweepModel { bound: bound@, props, reason: Reason::Boundary }),
            n <= list@.len(),
            models.len() == list@.len(),
            forall|k: int| 0 <= k < list@.len() ==> #[trigger] models[k] == tree_model(list@[k]),
            (AttributesModel { keys: keys_model(keys@), forward, out: out@ }) == host_attributes(
                models,
                n as int,
                at,
                start,
            ),
        decreases list.len() - n,
    {
        assert(models[n as int] == tree_model(list@[n as int]));
        let item = &list[n];
        let ghost read = AttributesModel { keys: keys_model(keys@), forward, out: out@ };
        if is_kind(item, "JSXSpreadAttribute") {
            sweep_optional(get(item, "argument"), bound, props, Reason::Boundary, out, Ghost(count));
        } else if let Some(name) = get_attribute_name(item) {
            let value = get(item, "value");
            if same(name.as_str(), "className") {
                if let Some(expression) = get_contained(value) {
                    let mut part = ClassPart { keys: Vec::new(), forward: false };
                    assert(classes_model(part.keys@) =~= seq![]);
                    read_class_part(expression, bound, props, &mut part, out, Ghost(count));
                    forward = forward || part.forward;
                    append_class_keys(&part.keys, &mut keys);
                }
            } else if same(name.as_str(), "id") {
                if let Some(expression) = get_contained(value) {
                    if is_static_member(expression) {
                        if let Some(id) = get_member_on(&bound.symbols, bound.css_symbol, expression) {
                            let ghost before = keys@;
                            let span = get_span(expression);
                            keys.push((SelectorKey::Id(id.clone()), span));
                            assert(keys_model(keys@) =~= keys_model(before).push((KeyModel::Id(id@), span)));
                        } else {
                            sweep(expression, bound, props, Reason::Boundary, out, Ghost(count));
                        }
                    } else {
                        sweep(expression, bound, props, Reason::Boundary, out, Ghost(count));
                    }
                }
            } else {
                sweep_optional(value, bound, props, Reason::Boundary, out, Ghost(count));
            }
        }
        n += 1;
    }
    (keys, forward)
}

fn append_class_keys(classes: &Vec<(String, (usize, usize))>, keys: &mut Vec<(SelectorKey, (usize, usize))>)
    ensures
        keys_model(final(keys)@) == keys_model(old(keys)@) + as_class_keys(classes_model(classes@)),
{
    let ghost first_keys = keys_model(keys@);
    let ghost added = as_class_keys(classes_model(classes@));
    let mut i: usize = 0;
    assert(first_keys + added.take(0) =~= first_keys);
    while i < classes.len()
        invariant
            i <= classes@.len(),
            added == as_class_keys(classes_model(classes@)),
            keys_model(keys@) == first_keys + added.take(i as int),
        decreases classes.len() - i,
    {
        let ghost before = keys_model(keys@);
        keys.push((SelectorKey::Class(classes[i].0.clone()), classes[i].1));
        assert(keys_model(keys@) =~= before.push(added[i as int]));
        assert(added.take(i + 1) =~= added.take(i as int).push(added[i as int]));
        assert(keys_model(keys@) =~= first_keys + added.take(i + 1));
        i += 1;
    }
    assert(added.take(i as int) =~= added);
}

fn read_use_attributes(
    element: &Tree,
    bound: &FileSymbols,
    props: PropBindings,
    out: &mut FileOut,
    Ghost(count): Ghost<int>,
) -> (part: ClassPart)
    requires
        bound.ok(count),
        old(out).ok(count),
    ensures
        ({
            let list = items(field(element@, "openingElement"@), "attributes"@);
            part.model(final(out)@) == use_attributes(
                list,
                list.len() as int,
                (SweepModel { bound: bound@, props, reason: Reason::Boundary }),
                (PartModel { keys: seq![], forward: false, out: old(out)@ }),
            )
        }),
        final(out).ok(count),
{
    let ghost at = SweepModel { bound: bound@, props, reason: Reason::Boundary };
    let ghost start = PartModel { keys: seq![], forward: false, out: out@ };
    let mut part = ClassPart { keys: Vec::new(), forward: false };
    assert(classes_model(part.keys@) =~= seq![]);
    let opening = match get(element, "openingElement") {
        None => {
            return part;
        },
        Some(opening) => opening,
    };
    let list = match get_items(opening, "attributes") {
        None => {
            return part;
        },
        Some(list) => list,
    };
    proof {
        lemma_list_model(list@, list@.len());
    }
    let ghost models = list_model(list@, list@.len());
    let mut n: usize = 0;
    while n < list.len()
        invariant
            bound.ok(count),
            out.ok(count),
            at == (SweepModel { bound: bound@, props, reason: Reason::Boundary }),
            n <= list@.len(),
            models.len() == list@.len(),
            forall|k: int| 0 <= k < list@.len() ==> #[trigger] models[k] == tree_model(list@[k]),
            part.model(out@) == use_attributes(models, n as int, at, start),
        decreases list.len() - n,
    {
        assert(models[n as int] == tree_model(list@[n as int]));
        let item = &list[n];
        if is_kind(item, "JSXSpreadAttribute") {
            sweep_optional(get(item, "argument"), bound, props, Reason::Boundary, out, Ghost(count));
        } else if let Some(name) = get_attribute_name(item) {
            let value = get(item, "value");
            if same(name.as_str(), "className") {
                if let Some(expression) = get_contained(value) {
                    read_class_part(expression, bound, props, &mut part, out, Ghost(count));
                }
            } else {
                sweep_optional(value, bound, props, Reason::Boundary, out, Ghost(count));
            }
        }
        n += 1;
    }
    part
}

/// A tree under construction.
pub struct BuildModel {
    pub nodes: Seq<NodeModel>,
    pub slots: Seq<usize>,
    pub forward_targets: Seq<usize>,
    pub out: OutModel,
}

/// Whether a tag name means a host element: lower case or hyphenated.
pub open spec fn host_name(name: Seq<char>) -> bool {
    name != "this"@ && (name.contains('-') || (name.len() > 0 && 'a' <= name[0] <= 'z'))
}

/// What a JSX element invokes; `None` for a host element.
pub open spec fn invoked(name: TreeModel, at: SweepModel) -> Option<TagModel> {
    if of_kind(name, "JSXIdentifier"@) {
        match text_field(name, "name"@) {
            Some(text) => if host_name(text) {
                None
            } else {
                Some(tag_of(at.bound, referenced(at.bound.symbols, name)))
            },
            None => Some(TagModel::Unknown),
        }
    } else {
        Some(TagModel::Unknown)
    }
}

pub open spec fn pushed(state: BuildModel, parent: Option<usize>, kind: KindModel) -> BuildModel {
    BuildModel { nodes: state.nodes.push(NodeModel { parent, kind }), ..state }
}

/// The index of the node that is pushed next.
pub open spec fn next_index(state: BuildModel) -> usize {
    state.nodes.len() as usize
}

pub open spec fn after_slot(state: BuildModel, parent: Option<usize>) -> BuildModel {
    BuildModel { slots: state.slots.push(next_index(state)), ..pushed(state, parent, KindModel::Slot) }
}

/// The state once an element's own node stands, and that node's index.
pub open spec fn opened(tree: TreeModel, parent: Option<usize>, at: SweepModel, state: BuildModel) -> BuildModel {
    let opening = field(tree, "openingElement"@);
    let name = field(opening, "name"@);
    let list = items(opening, "attributes"@);
    match invoked(name, at) {
        None => {
            let read = host_attributes(
                list,
                list.len() as int,
                at,
                AttributesModel { keys: seq![], forward: false, out: state.out },
            );
            let next = pushed(BuildModel { out: read.out, ..state }, parent, KindModel::Element { keys: read.keys });
            if read.forward {
                BuildModel { forward_targets: next.forward_targets.push(next_index(state)), ..next }
            } else {
                next
            }
        },
        Some(tag) => {
            let named = if of_kind(name, "JSXMemberExpression"@) {
                after_member_tag(at.bound, name, state.out)
            } else {
                state.out
            };
            let read = use_attributes(
                list,
                list.len() as int,
                at,
                PartModel { keys: seq![], forward: false, out: named },
            );
            // Chained forwarding into another component is not proven.
            let out = OutModel { forward_bad: read.out.forward_bad || read.forward, ..read.out };
            pushed(BuildModel { out, ..state }, parent, KindModel::ComponentUse { tag, class_keys: read.keys })
        },
    }
}

/// The nodes of an element and of everything in it.
pub open spec fn built_element(tree: TreeModel, parent: Option<usize>, at: SweepModel, state: BuildModel) -> BuildModel
    decreases tree, 0nat,
{
    let next = opened(tree, parent, at, state);
    proof {
        lemma_field_smaller(tree, "children"@);
    }
    match field(tree, "children"@) {
        TreeModel::List(list) => built_children(list, list.len(), Some(next_index(state)), at, next),
        _ => next,
    }
}

pub open spec fn built_children(
    list: Seq<TreeModel>,
    n: nat,
    parent: Option<usize>,
    at: SweepModel,
    state: BuildModel,
) -> BuildModel
    decreases list, n,
{
    if n == 0 || n > list.len() {
        state
    } else {
        built_child(list[n - 1], parent, at, built_children(list, (n - 1) as nat, parent, at, state))
    }
}

pub open spec fn built_child(tree: TreeModel, parent: Option<usize>, at: SweepModel, state: BuildModel) -> BuildModel
    decreases tree, 4nat,
{
    if of_kind(tree, "JSXElement"@) {
        built_element(tree, parent, at, state)
    } else if of_kind(tree, "JSXFragment"@) {
        proof {
            lemma_field_smaller(tree, "children"@);
        }
        match field(tree, "children"@) {
            TreeModel::List(list) => built_children(list, list.len(), parent, at, state),
            _ => state,
        }
    } else if of_kind(tree, "JSXExpressionContainer"@) {
        let expression = contained(tree);
        proof {
            lemma_field_smaller(tree, "expression"@);
        }
        if expression == TreeModel::Null {
            state
        } else {
            built_expression(expression, parent, at, state)
        }
    } else if of_kind(tree, "JSXSpreadChild"@) {
        BuildModel { out: swept(field(tree, "expression"@), at, state.out), ..state }
    } else {
        state
    }
}

/// An expression child: the children slot, a static `map`, or opaque content.
pub open spec fn built_expression(
    tree: TreeModel,
    parent: Option<usize>,
    at: SweepModel,
    state: BuildModel,
) -> BuildModel
    decreases tree, 3nat,
{
    if names(at.bound.symbols, at.props.children, tree) {
        after_slot(state, parent)
    } else if static_member(tree) && member_on(at.bound.symbols, at.props.props, tree) == Some("children"@) {
        after_slot(state, parent)
    } else if map_root(tree) is Some {
        built_map(tree, parent, at, state)
    } else {
        BuildModel { out: swept(tree, at, state.out), ..state }
    }
}

/// The callback of `{expr.map(cb)}`.
pub open spec fn map_callback(call: TreeModel) -> TreeModel {
    let callee = field(call, "callee"@);
    let callback = first(items(call, "arguments"@));
    if of_kind(call, "CallExpression"@) && static_member(callee) && text_field(field(callee, "property"@), "name"@)
        == Some("map"@) && (of_kind(callback, "ArrowFunctionExpression"@) || of_kind(callback, "FunctionExpression"@)) {
        callback
    } else {
        TreeModel::Null
    }
}

/// The JSX that the callback of `{expr.map(cb)}` statically returns.
pub open spec fn map_root(call: TreeModel) -> Option<TreeModel> {
    if map_callback(call) == TreeModel::Null {
        None
    } else {
        match qualified(map_callback(call)) {
            Ok(root) => Some(root),
            Err(_) => None,
        }
    }
}

/// Sweeps the arguments from the second to the `n`th, spreads aside.
pub open spec fn swept_arguments(list: Seq<TreeModel>, n: int, at: SweepModel, out: OutModel) -> OutModel
    decreases n,
{
    if n <= 1 {
        out
    } else {
        let rest = swept_arguments(list, n - 1, at, out);
        if of_kind(list[n - 1], "SpreadElement"@) {
            rest
        } else {
            swept(list[n - 1], at, rest)
        }
    }
}

/// Sweeps the first `n` statements, `return` aside.
pub open spec fn swept_statements(list: Seq<TreeModel>, n: int, at: SweepModel, out: OutModel) -> OutModel
    decreases n,
{
    if n <= 0 {
        out
    } else {
        let rest = swept_statements(list, n - 1, at, out);
        if of_kind(list[n - 1], "ReturnStatement"@) {
            rest
        } else {
            swept(list[n - 1], at, rest)
        }
    }
}

/// Sweeps what a qualified function holds beside its return.
pub open spec fn swept_beside(function: TreeModel, at: SweepModel, out: OutModel) -> OutModel {
    let params = items(function, "params"@);
    let after = swept_items(params, params.len(), at, out);
    let body = field(function, "body"@);
    if expression_arrow(function) {
        after
    } else {
        let statements = items(body, "body"@);
        swept_statements(statements, statements.len() as int, at, after)
    }
}

/// `{expr.map(cb)}` whose callback statically returns a single JSX expression
/// is part of the tree (a repeated static subtree).
pub open spec fn built_map(call: TreeModel, parent: Option<usize>, at: SweepModel, state: BuildModel) -> BuildModel
    decreases call, 2nat,
{
    let arguments = items(call, "arguments"@);
    let object = field(field(call, "callee"@), "object"@);
    let callback = map_callback(call);
    let out = swept_beside(
        callback,
        at,
        swept_arguments(arguments, arguments.len() as int, at, swept(object, at, state.out)),
    );
    match map_root(call) {
        Some(root) => {
            proof {
                lemma_map_root_smaller(call);
            }
            built_root(root, parent, at, BuildModel { out, ..state })
        },
        None => state,
    }
}

pub open spec fn built_root(tree: TreeModel, parent: Option<usize>, at: SweepModel, state: BuildModel) -> BuildModel
    decreases tree, 1nat,
{
    let root = inner(tree);
    proof {
        lemma_inner_not_larger(tree);
    }
    if of_kind(root, "JSXElement"@) {
        built_element(root, parent, at, state)
    } else {
        proof {
            lemma_field_smaller(root, "children"@);
        }
        match field(root, "children"@) {
            TreeModel::List(list) => built_children(list, list.len(), parent, at, state),
            _ => state,
        }
    }
}

pub proof fn lemma_inner_not_larger(tree: TreeModel)
    ensures
        inner(tree) == tree || decreases_to!(tree => inner(tree)),
    decreases tree,
{
    lemma_field_smaller(tree, "expression"@);
    if crate::syntax::wraps(tree) && field(tree, "expression"@) != TreeModel::Null {
        lemma_inner_not_larger(field(tree, "expression"@));
    }
}

proof fn lemma_item_smaller(tree: TreeModel, name: Seq<char>, i: int)
    requires
        0 <= i < items(tree, name).len(),
    ensures
        decreases_to!(tree => items(tree, name)[i]),
{
    lemma_field_smaller(tree, name);
    match field(tree, name) {
        TreeModel::List(list) => {
            assert(decreases_to!(field(tree, name) => field(tree, name)->List_0));
            assert(decreases_to!(list => list[i]));
        },
        _ => {},
    }
}

proof fn lemma_direct_return_smaller(body: TreeModel, i: int)
    requires
        0 <= i,
    ensures
        direct_return(items(body, "body"@), i) != TreeModel::Null ==> decreases_to!(body => direct_return(items(body, "body"@), i)),
    decreases items(body, "body"@).len() - i,
{
    let statements = items(body, "body"@);
    if i < statements.len() {
        lemma_item_smaller(body, "body"@, i);
        lemma_field_smaller(statements[i], "argument"@);
        lemma_direct_return_smaller(body, i + 1);
    }
}

proof fn lemma_qualified_smaller(function: TreeModel)
    ensures
        qualified(function) matches Ok(root) ==> decreases_to!(function => root),
{
    let body = field(function, "body"@);
    lemma_field_smaller(function, "body"@);
    lemma_direct_return_smaller(body, 0);
    if body == TreeModel::Null {
        assert(inner(body) == body);
        assert(!of_kind(body, "JSXElement"@) && !of_kind(body, "JSXFragment"@) && !of_kind(body, "BlockStatement"@));
    }
}

pub proof fn lemma_map_root_smaller(call: TreeModel)
    ensures
        map_root(call) matches Some(root) ==> decreases_to!(call => root),
{
    let callback = map_callback(call);
    if callback != TreeModel::Null {
        lemma_item_smaller(call, "arguments"@, 0);
        lemma_qualified_smaller(callback);
    }
}

/// A tree under construction.
struct Builder {
    nodes: Vec<Node>,
    slots: Vec<usize>,
    forward_targets: Vec<usize>,
    out: FileOut,
}

impl Builder {
    spec fn model(self) -> BuildModel {
        BuildModel {
            nodes: nodes_model(self.nodes@),
            slots: self.slots@,
            forward_targets: self.forward_targets@,
            out: self.out@,
        }
    }

    spec fn ok(self, count: int) -> bool {
        &&& nodes_ok(self.nodes@, count)
        &&& self.out.ok(count)
        &&& forall|i: int| 0 <= i < self.slots@.len() ==> #[trigger] self.slots@[i] < self.nodes@.len()
        &&& forall|i: int|
            0 <= i < self.forward_targets@.len() ==> #[trigger] self.forward_targets@[i] < self.nodes@.len()
    }

    spec fn holds(self, parent: Option<usize>) -> bool {
        parent matches Some(parent) ==> parent < self.nodes@.len()
    }

    fn push(&mut self, parent: Option<usize>, kind: NodeKind, Ghost(count): Ghost<int>) -> (index: usize)
        requires
            old(self).ok(count),
            old(self).holds(parent),
            kind matches NodeKind::ComponentUse { tag, class_keys } ==> tag_ok(tag, count),
        ensures
            final(self).ok(count),
            index == old(self).nodes@.len(),
            index == next_index(old(self).model()),
            final(self).nodes@.len() == old(self).nodes@.len() + 1,
            final(self).model() == pushed(old(self).model(), parent, (Node { parent, kind })@.kind),
    {
        let ghost before = self.nodes@;
        let index = self.nodes.len();
        let ghost node = Node { parent, kind };
        self.nodes.push(Node { parent, kind });
        assert(nodes_model(self.nodes@) =~= nodes_model(before).push(node@));
        assert(nodes_model(before).len() == before.len());
        index
    }
}

fn is_host_name(name: &String) -> (result: bool)
    ensures
        result == host_name(name@),
{
    if same(name.as_str(), "this") {
        return false;
    }
    if has_char(name.as_str(), '-') {
        return true;
    }
    if name.as_str().unicode_len() == 0 {
        return false;
    }
    let c = name.as_str().get_char(0);
    'a' <= c && c <= 'z'
}

/// What a JSX element invokes; `None` for a host element.
fn find_invoked(name: Option<&Tree>, bound: &FileSymbols, Ghost(count): Ghost<int>, Ghost(at): Ghost<SweepModel>) -> (
result: Option<TagRef>)
    requires
        bound.ok(count),
        at.bound == bound@,
    ensures
        match invoked(optional(name), at) {
            Some(tag) => result matches Some(found) && found@ == tag && tag_ok(found, count),
            None => result is None,
        },
{
    if let Some(name) = name {
        if is_kind(name, "JSXIdentifier") {
            if let Some(text) = get_text(name, "name") {
                if is_host_name(text) {
                    return None;
                }
                return Some(find_tag(bound, find_referenced(&bound.symbols, name), Ghost(count)));
            }
        }
    }
    Some(TagRef::Unknown)
}

fn open_element(
    tree: &Tree,
    parent: Option<usize>,
    bound: &FileSymbols,
    props: PropBindings,
    builder: &mut Builder,
    Ghost(count): Ghost<int>,
) -> (index: usize)
    requires
        bound.ok(count),
        old(builder).ok(count),
        old(builder).holds(parent),
    ensures
        final(builder).ok(count),
        final(builder).nodes@.len() == old(builder).nodes@.len() + 1,
        index == next_index(old(builder).model()),
        index < final(builder).nodes@.len(),
        final(builder).model() == opened(
            tree@,
            parent,
            (SweepModel { bound: bound@, props, reason: Reason::Boundary }),
            old(builder).model(),
        ),
{
    let ghost at = SweepModel { bound: bound@, props, reason: Reason::Boundary };
    let ghost state = builder.model();
    let name = match get(tree, "openingElement") {
        Some(opening) => get(opening, "name"),
        None => None,
    };
    assert(optional(name) == field(field(tree@, "openingElement"@), "name"@));
    match find_invoked(name, bound, Ghost(count), Ghost(at)) {
        None => {
            let (keys, forward) = read_host_attributes(tree, bound, props, &mut builder.out, Ghost(count));
            let index = builder.push(parent, NodeKind::Element { keys }, Ghost(count));
            if forward {
                builder.forward_targets.push(index);
            }
            index
        },
        Some(tag) => {
            if let Some(name) = name {
                if is_kind(name, "JSXMemberExpression") {
                    mark_namespace_member(bound, name, &mut builder.out);
                }
            }
            let part = read_use_attributes(tree, bound, props, &mut builder.out, Ghost(count));
            if part.forward {
                builder.out.forward_bad = true;
            }
            builder.push(parent, NodeKind::ComponentUse { tag, class_keys: part.keys }, Ghost(count))
        },
    }
}

fn build_element(
    tree: &Tree,
    parent: Option<usize>,
    bound: &FileSymbols,
    props: PropBindings,
    builder: &mut Builder,
    Ghost(count): Ghost<int>,
)
    requires
        bound.ok(count),
        old(builder).ok(count),
        old(builder).holds(parent),
    ensures
        final(builder).ok(count),
        final(builder).nodes@.len() >= old(builder).nodes@.len(),
        final(builder).model() == built_element(
            tree@,
            parent,
            (SweepModel { bound: bound@, props, reason: Reason::Boundary }),
            old(builder).model(),
        ),
    decreases tree, 0int,
{
    let index = open_element(tree, parent, bound, props, builder, Ghost(count));
    if let Some(children) = get_items(tree, "children") {
        proof {
            lemma_list_model(children@, children@.len());
        }
        build_children(children, Some(index), bound, props, builder, Ghost(count));
    }
}

fn build_children(
    list: &Vec<Tree>,
    parent: Option<usize>,
    bound: &FileSymbols,
    props: PropBindings,
    builder: &mut Builder,
    Ghost(count): Ghost<int>,
)
    requires
        bound.ok(count),
        old(builder).ok(count),
        old(builder).holds(parent),
    ensures
        final(builder).ok(count),
        final(builder).nodes@.len() >= old(builder).nodes@.len(),
        final(builder).model() == built_children(
            list_model(list@, list@.len()),
            list@.len(),
            parent,
            (SweepModel { bound: bound@, props, reason: Reason::Boundary }),
            old(builder).model(),
        ),
    decreases list@, 5int,
{
    let ghost at = SweepModel { bound: bound@, props, reason: Reason::Boundary };
    let ghost start = builder.model();
    let ghost least = builder.nodes@.len();
    proof {
        lemma_list_model(list@, list@.len());
    }
    let ghost models = list_model(list@, list@.len());
    let mut n: usize = 0;
    while n < list.len()
        invariant
            bound.ok(count),
            builder.ok(count),
            builder.holds(parent),
            builder.nodes@.len() >= least,
            at == (SweepModel { bound: bound@, props, reason: Reason::Boundary }),
            n <= list@.len(),
            models.len() == list@.len(),
            forall|k: int| 0 <= k < list@.len() ==> #[trigger] models[k] == tree_model(list@[k]),
            builder.model() == built_children(models, n as nat, parent, at, start),
        decreases list.len() - n,
    {
        assert(models[n as int] == tree_model(list@[n as int]));
        assert(decreases_to!(list@ => list@[n as int]));
        build_child(&list[n], parent, bound, props, builder, Ghost(count));
        n += 1;
    }
}

fn build_child(
    tree: &Tree,
    parent: Option<usize>,
    bound: &FileSymbols,
    props: PropBindings,
    builder: &mut Builder,
    Ghost(count): Ghost<int>,
)
    requires
        bound.ok(count),
        old(builder).ok(count),
        old(builder).holds(parent),
    ensures
        final(builder).ok(count),
        final(builder).nodes@.len() >= old(builder).nodes@.len(),
        final(builder).model() == built_child(
            tree@,
            parent,
            (SweepModel { bound: bound@, props, reason: Reason::Boundary }),
            old(builder).model(),
        ),
    decreases tree, 4int,
{
    if is_kind(tree, "JSXElement") {
        build_element(tree, parent, bound, props, builder, Ghost(count));
    } else if is_kind(tree, "JSXFragment") {
        if let Some(children) = get_items(tree, "children") {
            proof {
                lemma_list_model(children@, children@.len());
            }
            build_children(children, parent, bound, props, builder, Ghost(count));
        }
    } else if is_kind(tree, "JSXExpressionContainer") {
        if let Some(expression) = get_contained(Some(tree)) {
            build_expression_child(expression, parent, bound, props, builder, Ghost(count));
        }
    } else if is_kind(tree, "JSXSpreadChild") {
        sweep_optional(get(tree, "expression"), bound, props, Reason::Boundary, &mut builder.out, Ghost(count));
    }
}

fn push_slot(parent: Option<usize>, builder: &mut Builder, Ghost(count): Ghost<int>)
    requires
        old(builder).ok(count),
        old(builder).holds(parent),
    ensures
        final(builder).ok(count),
        final(builder).nodes@.len() >= old(builder).nodes@.len(),
        final(builder).model() == after_slot(old(builder).model(), parent),
{
    let index = builder.push(parent, NodeKind::Slot, Ghost(count));
    builder.slots.push(index);
}

fn build_expression_child(
    tree: &Tree,
    parent: Option<usize>,
    bound: &FileSymbols,
    props: PropBindings,
    builder: &mut Builder,
    Ghost(count): Ghost<int>,
)
    requires
        bound.ok(count),
        old(builder).ok(count),
        old(builder).holds(parent),
    ensures
        final(builder).ok(count),
        final(builder).nodes@.len() >= old(builder).nodes@.len(),
        final(builder).model() == built_expression(
            tree@,
            parent,
            (SweepModel { bound: bound@, props, reason: Reason::Boundary }),
            old(builder).model(),
        ),
    decreases tree, 3int,
{
    if is_named(&bound.symbols, props.children, tree) {
        push_slot(parent, builder, Ghost(count));
    } else if is_static_member(tree) && is_text(get_member_on(&bound.symbols, props.props, tree), "children") {
        push_slot(parent, builder, Ghost(count));
    } else if !try_map_call(tree, parent, bound, props, builder, Ghost(count)) {
        sweep(tree, bound, props, Reason::Boundary, &mut builder.out, Ghost(count));
    }
}

fn find_map_callback<'a>(call: &'a Tree) -> (result: Option<&'a Tree>)
    ensures
        optional(result) == map_callback(call@),
        result matches Some(callback) ==> callback@ != TreeModel::Null && decreases_to!(*call => *callback),
{
    if !is_kind(call, "CallExpression") {
        return None;
    }
    let callee = match get(call, "callee") {
        None => {
            assert(!static_member(TreeModel::Null));
            return None;
        },
        Some(callee) => callee,
    };
    if !is_static_member(callee) || !is_text(optional_get_text(get(callee, "property"), "name"), "map") {
        return None;
    }
    match get_first(get_items(call, "arguments")) {
        None => None,
        Some(callback) => {
            assert(!of_kind(TreeModel::Null, "ArrowFunctionExpression"@));
            assert(!of_kind(TreeModel::Null, "FunctionExpression"@));
            if is_kind(callback, "ArrowFunctionExpression") || is_kind(callback, "FunctionExpression") {
                Some(callback)
            } else {
                None
            }
        },
    }
}

fn sweep_arguments(
    call: &Tree,
    bound: &FileSymbols,
    props: PropBindings,
    out: &mut FileOut,
    Ghost(count): Ghost<int>,
)
    requires
        bound.ok(count),
        old(out).ok(count),
    ensures
        final(out).ok(count),
        ({
            let list = items(call@, "arguments"@);
            final(out)@ == swept_arguments(
                list,
                list.len() as int,
                (SweepModel { bound: bound@, props, reason: Reason::Boundary }),
                old(out)@,
            )
        }),
{
    let ghost at = SweepModel { bound: bound@, props, reason: Reason::Boundary };
    let ghost start = out@;
    let list = match get_items(call, "arguments") {
        None => {
            return ;
        },
        Some(list) => list,
    };
    proof {
        lemma_list_model(list@, list@.len());
    }
    let ghost models = list_model(list@, list@.len());
    if list.len() == 0 {
        return ;
    }
    let mut n: usize = 1;
    while n < list.len()
        invariant
            bound.ok(count),
            out.ok(count),
            at == (SweepModel { bound: bound@, props, reason: Reason::Boundary }),
            1 <= n <= list@.len(),
            models.len() == list@.len(),
            forall|k: int| 0 <= k < list@.len() ==> #[trigger] models[k] == tree_model(list@[k]),
            out@ == swept_arguments(models, n as int, at, start),
        decreases list.len() - n,
    {
        assert(models[n as int] == tree_model(list@[n as int]));
        if !is_kind(&list[n], "SpreadElement") {
            sweep(&list[n], bound, props, Reason::Boundary, out, Ghost(count));
        }
        n += 1;
    }
}

fn sweep_beside(
    function: &Tree,
    bound: &FileSymbols,
    props: PropBindings,
    out: &mut FileOut,
    Ghost(count): Ghost<int>,
)
    requires
        bound.ok(count),
        old(out).ok(count),
    ensures
        final(out).ok(count),
        final(out)@ == swept_beside(
            function@,
            (SweepModel { bound: bound@, props, reason: Reason::Boundary }),
            old(out)@,
        ),
{
    let ghost at = SweepModel { bound: bound@, props, reason: Reason::Boundary };
    if let Some(params) = get_items(function, "params") {
        proof {
            lemma_list_model(params@, params@.len());
        }
        sweep_list(params, bound, props, Reason::Boundary, out, Ghost(count));
    }
    if is_kind(function, "ArrowFunctionExpression") && get_flag(function, "expression") {
        return ;
    }
    let list = match get(function, "body") {
        None => {
            return ;
        },
        Some(body) => match get_items(body, "body") {
            None => {
                return ;
            },
            Some(list) => list,
        },
    };
    let ghost start = out@;
    proof {
        lemma_list_model(list@, list@.len());
    }
    let ghost models = list_model(list@, list@.len());
    let mut n: usize = 0;
    while n < list.len()
        invariant
            bound.ok(count),
            out.ok(count),
            at == (SweepModel { bound: bound@, props, reason: Reason::Boundary }),
            n <= list@.len(),
            models.len() == list@.len(),
            forall|k: int| 0 <= k < list@.len() ==> #[trigger] models[k] == tree_model(list@[k]),
            out@ == swept_statements(models, n as int, at, start),
        decreases list.len() - n,
    {
        assert(models[n as int] == tree_model(list@[n as int]));
        if !is_kind(&list[n], "ReturnStatement") {
            sweep(&list[n], bound, props, Reason::Boundary, out, Ghost(count));
        }
        n += 1;
    }
}

/// Builds `{expr.map(cb)}` into the tree where its callback statically returns
/// JSX, and says whether it does.
fn try_map_call(
    call: &Tree,
    parent: Option<usize>,
    bound: &FileSymbols,
    props: PropBindings,
    builder: &mut Builder,
    Ghost(count): Ghost<int>,
) -> (built: bool)
    requires
        bound.ok(count),
        old(builder).ok(count),
        old(builder).holds(parent),
    ensures
        final(builder).ok(count),
        final(builder).nodes@.len() >= old(builder).nodes@.len(),
        built == (map_root(call@) is Some),
        !built ==> final(builder).model() == old(builder).model(),
        built ==> final(builder).model() == built_map(
            call@,
            parent,
            (SweepModel { bound: bound@, props, reason: Reason::Boundary }),
            old(builder).model(),
        ),
    decreases call, 2int,
{
    let callback = match find_map_callback(call) {
        None => {
            return false;
        },
        Some(callback) => callback,
    };
    let root = match qualify(callback) {
        Err(_) => {
            return false;
        },
        Ok(root) => root,
    };
    let object = match get(call, "callee") {
        Some(callee) => get(callee, "object"),
        None => None,
    };
    assert(optional(object) == field(field(call@, "callee"@), "object"@));
    sweep_optional(object, bound, props, Reason::Boundary, &mut builder.out, Ghost(count));
    sweep_arguments(call, bound, props, &mut builder.out, Ghost(count));
    sweep_beside(callback, bound, props, &mut builder.out, Ghost(count));
    build_root(root, parent, bound, props, builder, Ghost(count));
    true
}

fn build_root(
    tree: &Tree,
    parent: Option<usize>,
    bound: &FileSymbols,
    props: PropBindings,
    builder: &mut Builder,
    Ghost(count): Ghost<int>,
)
    requires
        bound.ok(count),
        old(builder).ok(count),
        old(builder).holds(parent),
    ensures
        final(builder).ok(count),
        final(builder).nodes@.len() >= old(builder).nodes@.len(),
        final(builder).model() == built_root(
            tree@,
            parent,
            (SweepModel { bound: bound@, props, reason: Reason::Boundary }),
            old(builder).model(),
        ),
    decreases tree, 1int,
{
    let root = get_inner(tree);
    if is_kind(root, "JSXElement") {
        build_element(root, parent, bound, props, builder, Ghost(count));
    } else if let Some(children) = get_items(root, "children") {
        proof {
            lemma_list_model(children@, children@.len());
        }
        build_children(children, parent, bound, props, builder, Ghost(count));
    }
}

// ---------------------------------------------------------------------------
// Components and files
// ---------------------------------------------------------------------------

/// The model of a [`Comp`].
pub struct CompModel {
    pub exported: bool,
    pub body: Result<Seq<NodeModel>, Reason>,
    pub slots: Seq<usize>,
    pub forward: Forward,
    pub children_bad: bool,
}

impl View for Comp {
    type V = CompModel;

    open spec fn view(&self) -> CompModel {
        CompModel {
            exported: self.exported,
            body: match self.body {
                Ok(nodes) => Ok(nodes_model(nodes@)),
                Err(reason) => Err(reason),
            },
            slots: self.slots@,
            forward: self.forward,
            children_bad: self.children_bad,
        }
    }
}

pub open spec fn comps_model(comps: Seq<Comp>) -> Seq<CompModel> {
    comps.map_values(|comp: Comp| comp@)
}

/// A component of which nothing is proven.
pub open spec fn opaque_comp(exported: bool) -> CompModel {
    CompModel {
        exported,
        body: Err(Reason::Hoc),
        slots: seq![],
        forward: Forward::No,
        children_bad: false,
    }
}

fn make_opaque(exported: bool) -> (comp: Comp)
    ensures
        comp@ == opaque_comp(exported),
        comp.body is Err,
{
    Comp { exported, body: Err(Reason::Hoc), slots: Vec::new(), forward: Forward::No, children_bad: false }
}

/// Where `props.className` lands in a component.
pub open spec fn forward_of(state: BuildModel) -> Forward {
    if state.out.forward_bad || state.forward_targets.len() > 1 {
        Forward::Bad
    } else if state.forward_targets.len() == 1 {
        Forward::Target(state.forward_targets[0])
    } else {
        Forward::No
    }
}

/// The tree of a component with the sweep's records, before the flags on its
/// props are taken off.
pub open spec fn component_built(function: TreeModel, root: TreeModel, bound: SymbolsModel, out: OutModel) -> BuildModel {
    let info = param_info(bound.symbols, function);
    let at = SweepModel { bound, props: info.bindings, reason: Reason::Boundary };
    let start = OutModel { forward_bad: info.bad, children_bad: info.bad, ..out };
    built_root(
        root,
        None,
        at,
        BuildModel { nodes: seq![], slots: seq![], forward_targets: seq![], out: swept_beside(function, at, start) },
    )
}

/// What a function component is, and what reading it records.
pub open spec fn component(
    function: TreeModel,
    exported: bool,
    bound: SymbolsModel,
    out: OutModel,
) -> (CompModel, OutModel) {
    match qualified(function) {
        Err(reason) => {
            let at = SweepModel { bound, props: no_props(), reason };
            let params = items(function, "params"@);
            (
                CompModel { body: Err(reason), ..opaque_comp(exported) },
                swept(field(function, "body"@), at, swept_items(params, params.len(), at, out)),
            )
        },
        Ok(root) => {
            let state = component_built(function, root, bound, out);
            (
                CompModel {
                    exported,
                    body: Ok(state.nodes),
                    slots: state.slots,
                    forward: forward_of(state),
                    children_bad: state.out.children_bad,
                },
                OutModel { forward_bad: false, children_bad: false, ..state.out },
            )
        },
    }
}

fn build_component(
    function: &Tree,
    exported: bool,
    bound: &FileSymbols,
    out: FileOut,
    Ghost(count): Ghost<int>,
) -> (result: (Comp, FileOut))
    requires
        bound.ok(count),
        out.ok(count),
    ensures
        (result.0@, result.1@) == component(function@, exported, bound@, out@),
        comp_ok(result.0, count),
        result.1.ok(count),
{
    let mut out = out;
    match qualify(function) {
        Err(reason) => {
            if let Some(params) = get_items(function, "params") {
                proof {
                    lemma_list_model(params@, params@.len());
                }
                sweep_list(params, bound, without_props(), reason, &mut out, Ghost(count));
            }
            sweep_optional(get(function, "body"), bound, without_props(), reason, &mut out, Ghost(count));
            let mut comp = make_opaque(exported);
            comp.body = Err(reason);
            (comp, out)
        },
        Ok(root) => {
            let info = analyze_params(&bound.symbols, function);
            out.forward_bad = info.bad;
            out.children_bad = info.bad;
            sweep_beside(function, bound, info.bindings, &mut out, Ghost(count));
            let mut builder = Builder { nodes: Vec::new(), slots: Vec::new(), forward_targets: Vec::new(), out };
            assert(nodes_model(builder.nodes@) =~= seq![]);
            build_root(root, None, bound, info.bindings, &mut builder, Ghost(count));
            let ghost state = builder.model();
            let forward = if builder.out.forward_bad || builder.forward_targets.len() > 1 {
                Forward::Bad
            } else if builder.forward_targets.len() == 1 {
                Forward::Target(builder.forward_targets[0])
            } else {
                Forward::No
            };
            assert(forward == forward_of(state));
            let Builder { nodes, slots, forward_targets: _, out: built } = builder;
            let mut out = built;
            let children_bad = out.children_bad;
            out.forward_bad = false;
            out.children_bad = false;
            (Comp { exported, body: Ok(nodes), slots, forward, children_bad }, out)
        },
    }
}

/// The model of an [`ImportedName`].
pub enum ImportedModel {
    Default,
    Named(Seq<char>),
}

impl View for ImportedName {
    type V = ImportedModel;

    open spec fn view(&self) -> ImportedModel {
        match self {
            ImportedName::Default => ImportedModel::Default,
            ImportedName::Named(name) => ImportedModel::Named(name@),
        }
    }
}

/// What has been read of a file's statements.
pub struct ReadModel {
    pub bound: SymbolsModel,
    pub comps: Seq<CompModel>,
    pub named_exports: Seq<(Seq<char>, usize)>,
    pub default_export: Option<usize>,
    pub imports: Seq<(Seq<char>, (Seq<char>, ImportedModel))>,
    /// The functions that are components, with their indices.
    pub builds: Seq<(usize, TreeModel)>,
    /// What is swept once all components are known.
    pub sweeps: Seq<(TreeModel, Reason)>,
    pub specifiers: Seq<TreeModel>,
    pub deferred_default: TreeModel,
    pub unsound: bool,
}

/// The symbol that an optional declaration identifier binds.
pub open spec fn with_comp_symbol(bound: SymbolsModel, id: TreeModel, index: usize) -> SymbolsModel {
    match id {
        TreeModel::Null => bound,
        _ => match declared(bound.symbols, id) {
            Some(symbol) => SymbolsModel { comp_symbols: bound.comp_symbols.push((symbol, index)), ..bound },
            None => bound,
        },
    }
}

/// Registers a component under its declaration identifier.
pub open spec fn registered(read: ReadModel, id: TreeModel, exported: bool) -> ReadModel {
    let index = read.comps.len() as usize;
    ReadModel {
        comps: read.comps.push(opaque_comp(exported)),
        bound: with_comp_symbol(read.bound, id, index),
        ..read
    }
}

/// Registers a function component.
pub open spec fn registered_function(read: ReadModel, id: TreeModel, function: TreeModel, exported: bool) -> ReadModel {
    let index = read.comps.len() as usize;
    ReadModel { builds: read.builds.push((index, function)), ..registered(read, id, exported) }
}

/// Exports the component that is registered next under the identifier's name.
pub open spec fn exported_as(read: ReadModel, id: TreeModel) -> ReadModel {
    match text_field(id, "name"@) {
        Some(name) => ReadModel {
            named_exports: read.named_exports.push((name, (read.comps.len() - 1) as usize)),
            ..read
        },
        None => read,
    }
}

pub open spec fn after_sweep(read: ReadModel, tree: TreeModel, reason: Reason) -> ReadModel {
    ReadModel { sweeps: read.sweeps.push((tree, reason)), ..read }
}

/// The name that a module exports or imports something under.
pub open spec fn export_name(name: TreeModel) -> Option<Seq<char>> {
    if of_kind(name, "Literal"@) {
        text_field(name, "value"@)
    } else {
        text_field(name, "name"@)
    }
}

pub open spec fn after_import(
    read: ReadModel,
    local: TreeModel,
    source: Seq<char>,
    imported: ImportedModel,
) -> ReadModel {
    match (declared(read.bound.symbols, local), text_field(local, "name"@)) {
        (Some(symbol), Some(name)) => ReadModel {
            imports: read.imports.push((name, (source, imported))),
            bound: SymbolsModel { import_symbols: read.bound.import_symbols.push((symbol, name)), ..read.bound },
            ..read
        },
        _ => read,
    }
}

pub open spec fn after_specifier(read: ReadModel, specifier: TreeModel, source: Seq<char>, is_css: bool) -> ReadModel {
    let local = field(specifier, "local"@);
    if of_kind(specifier, "ImportDefaultSpecifier"@) {
        if is_css {
            ReadModel {
                bound: SymbolsModel { css_symbol: declared(read.bound.symbols, local), ..read.bound },
                ..read
            }
        } else {
            after_import(read, local, source, ImportedModel::Default)
        }
    } else if is_css {
        ReadModel { unsound: true, ..read }
    } else if of_kind(specifier, "ImportSpecifier"@) {
        match export_name(field(specifier, "imported"@)) {
            Some(name) => after_import(read, local, source, ImportedModel::Named(name)),
            None => read,
        }
    } else {
        match declared(read.bound.symbols, local) {
            Some(symbol) => ReadModel {
                bound: SymbolsModel { ns_symbols: read.bound.ns_symbols.push((symbol, source)), ..read.bound },
                ..read
            },
            None => read,
        }
    }
}

pub open spec fn after_specifiers(
    read: ReadModel,
    list: Seq<TreeModel>,
    n: int,
    source: Seq<char>,
    is_css: bool,
) -> ReadModel
    decreases n,
{
    if n <= 0 {
        read
    } else {
        after_specifier(after_specifiers(read, list, n - 1, source, is_css), list[n - 1], source, is_css)
    }
}

pub open spec fn after_declarator(read: ReadModel, declarator: TreeModel, exported: bool) -> ReadModel {
    let id = field(declarator, "id"@);
    let init = field(declarator, "init"@);
    let value = inner(init);
    if init == TreeModel::Null {
        read
    } else if !of_kind(id, "Identifier"@) {
        after_sweep(read, init, Reason::Boundary)
    } else if of_kind(value, "ArrowFunctionExpression"@) || of_kind(value, "FunctionExpression"@) {
        let next = registered_function(read, id, value, exported);
        if exported {
            exported_as(next, id)
        } else {
            next
        }
    } else if of_kind(value, "CallExpression"@) {
        // HOC-produced binding: usable as a tag, never provable.
        let next = registered(read, id, exported);
        after_sweep(
            if exported {
                exported_as(next, id)
            } else {
                next
            },
            init,
            Reason::Hoc,
        )
    } else {
        after_sweep(read, init, Reason::Boundary)
    }
}

pub open spec fn after_declarators(read: ReadModel, list: Seq<TreeModel>, n: int, exported: bool) -> ReadModel
    decreases n,
{
    if n <= 0 {
        read
    } else {
        after_declarator(after_declarators(read, list, n - 1, exported), list[n - 1], exported)
    }
}

pub open spec fn declared_function(tree: TreeModel) -> bool {
    of_kind(tree, "FunctionDeclaration"@) || of_kind(tree, "TSDeclareFunction"@)
}

pub open spec fn after_export(read: ReadModel, statement: TreeModel) -> ReadModel {
    let declaration = field(statement, "declaration"@);
    if field(statement, "source"@) != TreeModel::Null {
        // Re-exports are not followed; importers fail to resolve, which is the
        // conservative direction.
        read
    } else {
        let next = if declared_function(declaration) {
            exported_as(
                registered_function(read, field(declaration, "id"@), declaration, true),
                field(declaration, "id"@),
            )
        } else if of_kind(declaration, "VariableDeclaration"@) {
            let list = items(declaration, "declarations"@);
            after_declarators(read, list, list.len() as int, true)
        } else {
            read
        };
        ReadModel { specifiers: next.specifiers + items(statement, "specifiers"@), ..next }
    }
}

pub open spec fn after_default(read: ReadModel, declaration: TreeModel) -> ReadModel {
    if declared_function(declaration) {
        ReadModel {
            default_export: Some(read.comps.len() as usize),
            ..registered_function(read, field(declaration, "id"@), declaration, true)
        }
    } else if of_kind(declaration, "ArrowFunctionExpression"@) {
        ReadModel {
            default_export: Some(read.comps.len() as usize),
            ..registered_function(read, TreeModel::Null, declaration, true)
        }
    } else if of_kind(declaration, "Identifier"@) {
        ReadModel { deferred_default: declaration, ..read }
    } else if declaration == TreeModel::Null || of_kind(declaration, "TSInterfaceDeclaration"@) {
        read
    } else {
        after_sweep(read, declaration, Reason::Boundary)
    }
}

/// Statements that hold nothing that runs.
pub open spec fn inert(statement: TreeModel) -> bool {
    ||| of_kind(statement, "ExportAllDeclaration"@)
    ||| of_kind(statement, "TSTypeAliasDeclaration"@)
    ||| of_kind(statement, "TSInterfaceDeclaration"@)
    ||| of_kind(statement, "TSEnumDeclaration"@)
    ||| of_kind(statement, "TSModuleDeclaration"@)
    ||| of_kind(statement, "TSImportEqualsDeclaration"@)
}

pub open spec fn after_import_declaration(read: ReadModel, statement: TreeModel) -> ReadModel {
    match string_value(field(statement, "source"@)) {
        None => read,
        Some(source) => {
            let list = items(statement, "specifiers"@);
            let is_css = resolved(read.bound.file_path, source) == read.bound.css_target;
            after_specifiers(read, list, list.len() as int, source, is_css)
        },
    }
}

pub open spec fn after_statement(read: ReadModel, statement: TreeModel) -> ReadModel {
    if of_kind(statement, "ImportDeclaration"@) {
        after_import_declaration(read, statement)
    } else if declared_function(statement) {
        registered_function(read, field(statement, "id"@), statement, false)
    } else if of_kind(statement, "VariableDeclaration"@) {
        let list = items(statement, "declarations"@);
        after_declarators(read, list, list.len() as int, false)
    } else if of_kind(statement, "ExportNamedDeclaration"@) {
        after_export(read, statement)
    } else if of_kind(statement, "ExportDefaultDeclaration"@) {
        after_default(read, field(statement, "declaration"@))
    } else if inert(statement) {
        read
    } else {
        after_sweep(read, statement, Reason::Boundary)
    }
}

pub open spec fn after_statements(read: ReadModel, list: Seq<TreeModel>, n: int) -> ReadModel
    decreases n,
{
    if n <= 0 {
        read
    } else {
        after_statement(after_statements(read, list, n - 1), list[n - 1])
    }
}

/// The component that an identifier refers to.
pub open spec fn comp_named(bound: SymbolsModel, identifier: TreeModel) -> Option<usize> {
    if of_kind(identifier, "Identifier"@) {
        match referenced(bound.symbols, identifier) {
            Some(symbol) => comp_bound(bound.comp_symbols, symbol, bound.comp_symbols.len() as int),
            None => None,
        }
    } else {
        None
    }
}

pub open spec fn marked_exported(comps: Seq<CompModel>, index: usize) -> Seq<CompModel> {
    comps.update(index as int, CompModel { exported: true, ..comps[index as int] })
}

/// An `export { local as exported }`.
pub open spec fn after_export_specifier(read: ReadModel, specifier: TreeModel) -> ReadModel {
    match (comp_named(read.bound, field(specifier, "local"@)), export_name(field(specifier, "exported"@))) {
        (Some(index), Some(name)) => {
            let next = ReadModel { comps: marked_exported(read.comps, index), ..read };
            if name == "default"@ {
                ReadModel { default_export: Some(index), ..next }
            } else {
                ReadModel { named_exports: next.named_exports.push((name, index)), ..next }
            }
        },
        _ => read,
    }
}

pub open spec fn after_export_specifiers(read: ReadModel, list: Seq<TreeModel>, n: int) -> ReadModel
    decreases n,
{
    if n <= 0 {
        read
    } else {
        after_export_specifier(after_export_specifiers(read, list, n - 1), list[n - 1])
    }
}

pub open spec fn after_deferred_default(read: ReadModel) -> ReadModel {
    match comp_named(read.bound, read.deferred_default) {
        Some(index) => ReadModel {
            comps: marked_exported(read.comps, index),
            default_export: Some(index),
            ..read
        },
        None => read,
    }
}

/// Everything that the statements of a module declare.
pub open spec fn read_module(path: Seq<char>, css_path: Seq<char>, module: ModuleModel) -> ReadModel {
    let start = ReadModel {
        bound: SymbolsModel {
            symbols: module.symbols,
            file_path: path,
            css_target: normalized(css_path),
            css_symbol: None,
            comp_symbols: seq![],
            import_symbols: seq![],
            ns_symbols: seq![],
        },
        comps: seq![],
        named_exports: seq![],
        default_export: None,
        imports: seq![],
        builds: seq![],
        sweeps: seq![],
        specifiers: seq![],
        deferred_default: TreeModel::Null,
        unsound: false,
    };
    let statements = items(module.tree, "body"@);
    let read = after_statements(start, statements, statements.len() as int);
    after_deferred_default(after_export_specifiers(read, read.specifiers, read.specifiers.len() as int))
}

/// The components built from the first `n` functions, with what that records.
pub open spec fn built_components(
    bound: SymbolsModel,
    builds: Seq<(usize, TreeModel)>,
    n: int,
    comps: Seq<CompModel>,
    out: OutModel,
) -> (Seq<CompModel>, OutModel)
    decreases n,
{
    if n <= 0 {
        (comps, out)
    } else {
        let (before, recorded) = built_components(bound, builds, n - 1, comps, out);
        let (index, function) = builds[n - 1];
        let (comp, next) = component(function, before[index as int].exported, bound, recorded);
        (before.update(index as int, comp), next)
    }
}

pub open spec fn swept_regions(
    bound: SymbolsModel,
    sweeps: Seq<(TreeModel, Reason)>,
    n: int,
    out: OutModel,
) -> OutModel
    decreases n,
{
    if n <= 0 {
        out
    } else {
        let (tree, reason) = sweeps[n - 1];
        swept(
            tree,
            SweepModel { bound, props: no_props(), reason },
            swept_regions(bound, sweeps, n - 1, out),
        )
    }
}

/// The model of a [`FileIr`].
pub struct FileModel {
    pub path: Seq<char>,
    pub comps: Seq<CompModel>,
    pub named_exports: Seq<(Seq<char>, usize)>,
    pub default_export: Option<usize>,
    pub imports: Seq<(Seq<char>, (Seq<char>, ImportedModel))>,
    pub boundary_usages: Seq<(Seq<char>, (usize, usize), Reason)>,
    pub rendered_marks: Seq<(TagModel, Reason)>,
    pub ns_member_specs: Seq<Seq<char>>,
    pub unsound: bool,
}

pub open spec fn exports_model(list: Seq<(String, usize)>) -> Seq<(Seq<char>, usize)> {
    list.map_values(|entry: (String, usize)| (entry.0@, entry.1))
}

pub open spec fn imports_model(list: Seq<(String, (String, ImportedName))>) -> Seq<(
    Seq<char>,
    (Seq<char>, ImportedModel),
)> {
    list.map_values(|entry: (String, (String, ImportedName))| (entry.0@, (entry.1.0@, entry.1.1@)))
}

impl View for FileIr {
    type V = FileModel;

    open spec fn view(&self) -> FileModel {
        FileModel {
            path: self.path@,
            comps: comps_model(self.comps@),
            named_exports: exports_model(self.named_exports@),
            default_export: self.default_export,
            imports: imports_model(self.imports@),
            boundary_usages: boundary_model(self.boundary_usages@),
            rendered_marks: marks_model(self.rendered_marks@),
            ns_member_specs: crate::text::texts(self.ns_member_specs@),
            unsound: self.unsound,
        }
    }
}

/// What the component graph reads of a module.
pub open spec fn extracted(path: Seq<char>, css_path: Seq<char>, module: ModuleModel) -> FileModel {
    let read = read_module(path, css_path, module);
    let start = OutModel {
        boundary_usages: seq![],
        rendered_marks: seq![],
        ns_member_specs: seq![],
        unsound: read.unsound,
        forward_bad: false,
        children_bad: false,
    };
    let (comps, built) = built_components(read.bound, read.builds, read.builds.len() as int, read.comps, start);
    let out = swept_regions(read.bound, read.sweeps, read.sweeps.len() as int, built);
    FileModel {
        path,
        comps,
        named_exports: read.named_exports,
        default_export: read.default_export,
        imports: read.imports,
        boundary_usages: out.boundary_usages,
        rendered_marks: out.rendered_marks,
        ns_member_specs: out.ns_member_specs,
        unsound: out.unsound,
    }
}

/// What has been read of a file's statements.
struct Reading<'a> {
    bound: FileSymbols,
    comps: Vec<Comp>,
    named_exports: Vec<(String, usize)>,
    default_export: Option<usize>,
    imports: Vec<(String, (String, ImportedName))>,
    builds: Vec<(usize, &'a Tree)>,
    sweeps: Vec<(&'a Tree, Reason)>,
    specifiers: Vec<&'a Tree>,
    deferred_default: Option<&'a Tree>,
    unsound: bool,
}

spec fn builds_model(list: Seq<(usize, &Tree)>) -> Seq<(usize, TreeModel)> {
    list.map_values(|entry: (usize, &Tree)| (entry.0, entry.1@))
}

spec fn sweeps_model(list: Seq<(&Tree, Reason)>) -> Seq<(TreeModel, Reason)> {
    list.map_values(|entry: (&Tree, Reason)| (entry.0@, entry.1))
}

spec fn trees_model(list: Seq<&Tree>) -> Seq<TreeModel> {
    list.map_values(|tree: &Tree| tree@)
}

impl<'a> Reading<'a> {
    spec fn model(self) -> ReadModel {
        ReadModel {
            bound: self.bound@,
            comps: comps_model(self.comps@),
            named_exports: exports_model(self.named_exports@),
            default_export: self.default_export,
            imports: imports_model(self.imports@),
            builds: builds_model(self.builds@),
            sweeps: sweeps_model(self.sweeps@),
            specifiers: trees_model(self.specifiers@),
            deferred_default: optional(self.deferred_default),
            unsound: self.unsound,
        }
    }

    spec fn ok(self) -> bool {
        let count = self.comps@.len() as int;
        &&& self.bound.ok(count)
        &&& forall|i: int| 0 <= i < count ==> (#[trigger] self.comps@[i]).body is Err
        &&& forall|i: int| 0 <= i < self.named_exports@.len() ==> (#[trigger] self.named_exports@[i]).1 < count
        &&& self.default_export matches Some(index) ==> index < count
        &&& forall|i: int| 0 <= i < self.builds@.len() ==> (#[trigger] self.builds@[i]).0 < count
    }

    fn register(&mut self, id: Option<&Tree>, exported: bool) -> (index: usize)
        requires
            old(self).ok(),
        ensures
            final(self).ok(),
            index == old(self).comps@.len(),
            final(self).comps@.len() == index + 1,
            final(self).model() == registered(old(self).model(), optional(id), exported),
    {
        let ghost before = self.comps@;
        let index = self.comps.len();
        let comp = make_opaque(exported);
        let ghost pushed_comp = comp;
        self.comps.push(comp);
        assert(comps_model(self.comps@) =~= comps_model(before).push(pushed_comp@));
        assert(comps_model(before).len() == before.len());
        if let Some(id) = id {
            let missing = matches!(id, Tree::Null);
            if !missing {
                if let Some(symbol) = find_declared(&self.bound.symbols, id) {
                    self.bound.comp_symbols.push((symbol, index));
                }
            }
        }
        index
    }

    fn register_function(&mut self, id: Option<&Tree>, function: &'a Tree, exported: bool) -> (index: usize)
        requires
            old(self).ok(),
        ensures
            final(self).ok(),
            index == old(self).comps@.len(),
            final(self).comps@.len() == index + 1,
            final(self).model() == registered_function(old(self).model(), optional(id), function@, exported),
    {
        let ghost before = self.builds@;
        assert(comps_model(self.comps@).len() == self.comps@.len());
        let index = self.register(id, exported);
        self.builds.push((index, function));
        assert(builds_model(self.builds@) =~= builds_model(before).push((index, function@)));
        index
    }

    fn export_as(&mut self, id: Option<&Tree>)
        requires
            old(self).ok(),
            old(self).comps@.len() > 0,
        ensures
            final(self).ok(),
            final(self).model() == exported_as(old(self).model(), optional(id)),
    {
        assert(comps_model(self.comps@).len() == self.comps@.len());
        if let Some(name) = optional_get_text(id, "name") {
            let ghost before = self.named_exports@;
            let index = self.comps.len() - 1;
            self.named_exports.push((name.clone(), index));
            assert(exports_model(self.named_exports@) =~= exports_model(before).push((name@, index)));
        }
    }

    fn defer_sweep(&mut self, tree: &'a Tree, reason: Reason)
        requires
            old(self).ok(),
        ensures
            final(self).ok(),
            final(self).model() == after_sweep(old(self).model(), tree@, reason),
    {
        let ghost before = self.sweeps@;
        self.sweeps.push((tree, reason));
        assert(sweeps_model(self.sweeps@) =~= sweeps_model(before).push((tree@, reason)));
    }

    fn read_import(&mut self, local: Option<&Tree>, source: &String, imported: ImportedName)
        requires
            old(self).ok(),
        ensures
            final(self).ok(),
            final(self).model() == after_import(old(self).model(), optional(local), source@, imported@),
    {
        let local = match local {
            None => {
                return ;
            },
            Some(local) => local,
        };
        if let Some(symbol) = find_declared(&self.bound.symbols, local) {
            if let Some(name) = get_text(local, "name") {
                let ghost before = self.imports@;
                let ghost names_before = self.bound.import_symbols@;
                let ghost entry = (name@, (source@, imported@));
                self.imports.push((name.clone(), (source.clone(), imported)));
                self.bound.import_symbols.push((symbol, name.clone()));
                assert(imports_model(self.imports@) =~= imports_model(before).push(entry));
                assert(named_model(self.bound.import_symbols@) =~= named_model(names_before).push((symbol, name@)));
            }
        }
    }

    fn read_specifier(&mut self, specifier: &Tree, source: &String, is_css: bool)
        requires
            old(self).ok(),
        ensures
            final(self).ok(),
            final(self).model() == after_specifier(old(self).model(), specifier@, source@, is_css),
    {
        let local = get(specifier, "local");
        if is_kind(specifier, "ImportDefaultSpecifier") {
            if is_css {
                self.bound.css_symbol = optional_declared(&self.bound.symbols, local);
            } else {
                self.read_import(local, source, ImportedName::Default);
            }
        } else if is_css {
            self.unsound = true;
        } else if is_kind(specifier, "ImportSpecifier") {
            if let Some(name) = get_export_name(get(specifier, "imported")) {
                self.read_import(local, source, ImportedName::Named(name.clone()));
            }
        } else if let Some(symbol) = optional_declared(&self.bound.symbols, local) {
            let ghost before = self.bound.ns_symbols@;
            self.bound.ns_symbols.push((symbol, source.clone()));
            assert(named_model(self.bound.ns_symbols@) =~= named_model(before).push((symbol, source@)));
        }
    }

    fn read_import_declaration(&mut self, statement: &Tree)
        requires
            old(self).ok(),
        ensures
            final(self).ok(),
            final(self).model() == after_import_declaration(old(self).model(), statement@),
    {
        let source = match optional_string(get(statement, "source")) {
            None => {
                return ;
            },
            Some(source) => source,
        };
        let is_css = resolve_import(self.bound.file_path.as_str(), source.as_str()).same(&self.bound.css_target);
        let ghost start = self.model();
        if let Some(list) = get_items(statement, "specifiers") {
            proof {
                lemma_list_model(list@, list@.len());
            }
            let ghost models = list_model(list@, list@.len());
            let mut n: usize = 0;
            while n < list.len()
                invariant
                    self.ok(),
                    n <= list@.len(),
                    models.len() == list@.len(),
                    forall|k: int| 0 <= k < list@.len() ==> #[trigger] models[k] == tree_model(list@[k]),
                    self.model() == after_specifiers(start, models, n as int, source@, is_css),
                decreases list.len() - n,
            {
                assert(models[n as int] == tree_model(list@[n as int]));
                self.read_specifier(&list[n], source, is_css);
                n += 1;
            }
        }
    }

    fn read_declarators(&mut self, declaration: &'a Tree, exported: bool)
        requires
            old(self).ok(),
        ensures
            final(self).ok(),
            ({
                let list = items(declaration@, "declarations"@);
                final(self).model() == after_declarators(old(self).model(), list, list.len() as int, exported)
            }),
    {
        let ghost start = self.model();
        let list = match get_items(declaration, "declarations") {
            None => {
                return ;
            },
            Some(list) => list,
        };
        proof {
            lemma_list_model(list@, list@.len());
        }
        let ghost models = list_model(list@, list@.len());
        let mut n: usize = 0;
        while n < list.len()
            invariant
                self.ok(),
                n <= list@.len(),
                models.len() == list@.len(),
                forall|k: int| 0 <= k < list@.len() ==> #[trigger] models[k] == tree_model(list@[k]),
                self.model() == after_declarators(start, models, n as int, exported),
            decreases list.len() - n,
        {
            assert(models[n as int] == tree_model(list@[n as int]));
            self.read_declarator(&list[n], exported);
            n += 1;
        }
    }

    fn read_declarator(&mut self, declarator: &'a Tree, exported: bool)
        requires
            old(self).ok(),
        ensures
            final(self).ok(),
            final(self).model() == after_declarator(old(self).model(), declarator@, exported),
    {
        let id = get(declarator, "id");
        let init = match get(declarator, "init") {
            None => {
                return ;
            },
            Some(init) => init,
        };
        if let Tree::Null = init {
            return ;
        }
        if !has_kind(id, "Identifier") {
            self.defer_sweep(init, Reason::Boundary);
            return ;
        }
        let value = get_inner(init);
        if is_kind(value, "ArrowFunctionExpression") || is_kind(value, "FunctionExpression") {
            self.register_function(id, value, exported);
            if exported {
                self.export_as(id);
            }
        } else if is_kind(value, "CallExpression") {
            self.register(id, exported);
            if exported {
                self.export_as(id);
            }
            self.defer_sweep(init, Reason::Hoc);
        } else {
            self.defer_sweep(init, Reason::Boundary);
        }
    }

    fn read_export(&mut self, statement: &'a Tree)
        requires
            old(self).ok(),
        ensures
            final(self).ok(),
            final(self).model() == after_export(old(self).model(), statement@),
    {
        let re_export = match get(statement, "source") {
            None => false,
            Some(source) => !matches!(source, Tree::Null),
        };
        if re_export {
            return ;
        }
        if let Some(declaration) = get(statement, "declaration") {
            if is_kind(declaration, "FunctionDeclaration") || is_kind(declaration, "TSDeclareFunction") {
                let id = get(declaration, "id");
                self.register_function(id, declaration, true);
                self.export_as(id);
            } else if is_kind(declaration, "VariableDeclaration") {
                self.read_declarators(declaration, true);
            }
        } else {
            assert(!declared_function(TreeModel::Null));
            assert(!of_kind(TreeModel::Null, "VariableDeclaration"@));
        }
        let ghost read = self.model();
        let list = match get_items(statement, "specifiers") {
            None => {
                assert(read.specifiers + items(statement@, "specifiers"@) =~= read.specifiers);
                return ;
            },
            Some(list) => list,
        };
        proof {
            lemma_list_model(list@, list@.len());
        }
        let ghost models = list_model(list@, list@.len());
        assert(read.specifiers + models.take(0) =~= read.specifiers);
        let mut n: usize = 0;
        while n < list.len()
            invariant
                self.ok(),
                n <= list@.len(),
                models.len() == list@.len(),
                forall|k: int| 0 <= k < list@.len() ==> #[trigger] models[k] == tree_model(list@[k]),
                self.model() == (ReadModel { specifiers: read.specifiers + models.take(n as int), ..read }),
            decreases list.len() - n,
        {
            assert(models[n as int] == tree_model(list@[n as int]));
            let ghost before = self.specifiers@;
            self.specifiers.push(&list[n]);
            assert(trees_model(self.specifiers@) =~= trees_model(before).push(models[n as int]));
            assert(models.take(n + 1) =~= models.take(n as int).push(models[n as int]));
            assert(read.specifiers + models.take(n + 1) =~= (read.specifiers + models.take(n as int)).push(
                models[n as int],
            ));
            n += 1;
        }
        assert(models.take(n as int) =~= models);
    }

    fn read_default(&mut self, declaration: Option<&'a Tree>)
        requires
            old(self).ok(),
        ensures
            final(self).ok(),
            final(self).model() == after_default(old(self).model(), optional(declaration)),
    {
        let declaration = match declaration {
            None => {
                return ;
            },
            Some(declaration) => declaration,
        };
        assert(comps_model(self.comps@).len() == self.comps@.len());
        if is_kind(declaration, "FunctionDeclaration") || is_kind(declaration, "TSDeclareFunction") {
            let index = self.register_function(get(declaration, "id"), declaration, true);
            self.default_export = Some(index);
        } else if is_kind(declaration, "ArrowFunctionExpression") {
            let index = self.register_function(None, declaration, true);
            self.default_export = Some(index);
        } else if is_kind(declaration, "Identifier") {
            self.deferred_default = Some(declaration);
        } else if !matches!(declaration, Tree::Null) && !is_kind(declaration, "TSInterfaceDeclaration") {
            self.defer_sweep(declaration, Reason::Boundary);
        }
    }

    fn read_statement(&mut self, statement: &'a Tree)
        requires
            old(self).ok(),
        ensures
            final(self).ok(),
            final(self).model() == after_statement(old(self).model(), statement@),
    {
        if is_kind(statement, "ImportDeclaration") {
            self.read_import_declaration(statement);
        } else if is_kind(statement, "FunctionDeclaration") || is_kind(statement, "TSDeclareFunction") {
            self.register_function(get(statement, "id"), statement, false);
        } else if is_kind(statement, "VariableDeclaration") {
            self.read_declarators(statement, false);
        } else if is_kind(statement, "ExportNamedDeclaration") {
            self.read_export(statement);
        } else if is_kind(statement, "ExportDefaultDeclaration") {
            self.read_default(get(statement, "declaration"));
        } else if is_kind(statement, "ExportAllDeclaration") || is_kind(statement, "TSTypeAliasDeclaration")
            || is_kind(statement, "TSInterfaceDeclaration") || is_kind(statement, "TSEnumDeclaration") || is_kind(
            statement,
            "TSModuleDeclaration",
        ) || is_kind(statement, "TSImportEqualsDeclaration") {
        } else {
            self.defer_sweep(statement, Reason::Boundary);
        }
    }

    fn mark_exported(&mut self, index: usize)
        requires
            old(self).ok(),
            index < old(self).comps@.len(),
        ensures
            final(self).ok(),
            final(self).comps@.len() == old(self).comps@.len(),
            final(self).specifiers == old(self).specifiers,
            final(self).model() == (ReadModel {
                comps: marked_exported(old(self).model().comps, index),
                ..old(self).model()
            }),
    {
        let ghost before = self.comps@;
        self.comps[index].exported = true;
        assert(comps_model(self.comps@) =~= marked_exported(comps_model(before), index));
    }

    fn find_comp_named(&self, identifier: Option<&Tree>) -> (result: Option<usize>)
        requires
            self.ok(),
        ensures
            result == comp_named(self.bound@, optional(identifier)),
            result matches Some(index) ==> index < self.comps@.len(),
    {
        if let Some(identifier) = identifier {
            if is_kind(identifier, "Identifier") {
                if let Some(symbol) = find_referenced(&self.bound.symbols, identifier) {
                    return find_comp(&self.bound.comp_symbols, symbol);
                }
            }
        }
        None
    }

    fn read_export_specifier(&mut self, specifier: &Tree)
        requires
            old(self).ok(),
        ensures
            final(self).ok(),
            final(self).specifiers == old(self).specifiers,
            final(self).model() == after_export_specifier(old(self).model(), specifier@),
    {
        if let Some(index) = self.find_comp_named(get(specifier, "local")) {
            if let Some(name) = get_export_name(get(specifier, "exported")) {
                self.mark_exported(index);
                if same(name.as_str(), "default") {
                    self.default_export = Some(index);
                } else {
                    let ghost before = self.named_exports@;
                    self.named_exports.push((name.clone(), index));
                    assert(exports_model(self.named_exports@) =~= exports_model(before).push((name@, index)));
                }
            }
        }
    }
}

fn optional_declared(symbols: &Vec<Occurrence>, identifier: Option<&Tree>) -> (result: Option<usize>)
    ensures
        result == declared(symbols@, optional(identifier)),
{
    match identifier {
        Some(identifier) => find_declared(symbols, identifier),
        None => find_declared(symbols, &Tree::Null),
    }
}

fn get_export_name<'a>(name: Option<&'a Tree>) -> (result: Option<&'a String>)
    ensures
        optional_text(result) == export_name(optional(name)),
{
    match name {
        None => None,
        Some(name) => if is_kind(name, "Literal") {
            get_text(name, "value")
        } else {
            get_text(name, "name")
        },
    }
}

/// Reads a module into what the component graph needs of it.
pub fn extract_module(path: &str, css_path: &str, module: Module) -> (file: FileIr)
    ensures
        file@ == extracted(path@, css_path@, module@),
        file_ok(file),
{
    let Module { tree, symbols } = module;
    let bound = FileSymbols {
        symbols,
        file_path: path.to_owned(),
        css_target: normalize_path(css_path),
        css_symbol: None,
        comp_symbols: Vec::new(),
        import_symbols: Vec::new(),
        ns_symbols: Vec::new(),
    };
    let mut reading = Reading {
        bound,
        comps: Vec::new(),
        named_exports: Vec::new(),
        default_export: None,
        imports: Vec::new(),
        builds: Vec::new(),
        sweeps: Vec::new(),
        specifiers: Vec::new(),
        deferred_default: None,
        unsound: false,
    };
    assert(named_model(reading.bound.import_symbols@) =~= seq![]);
    assert(named_model(reading.bound.ns_symbols@) =~= seq![]);
    assert(comps_model(reading.comps@) =~= seq![]);
    assert(exports_model(reading.named_exports@) =~= seq![]);
    assert(imports_model(reading.imports@) =~= seq![]);
    assert(builds_model(reading.builds@) =~= seq![]);
    assert(sweeps_model(reading.sweeps@) =~= seq![]);
    assert(trees_model(reading.specifiers@) =~= seq![]);
    let ghost start = reading.model();
    let ghost statements = items(tree@, "body"@);
    if let Some(list) = get_items(&tree, "body") {
        proof {
            lemma_list_model(list@, list@.len());
        }
        let ghost models = list_model(list@, list@.len());
        let mut n: usize = 0;
        while n < list.len()
            invariant
                reading.ok(),
                n <= list@.len(),
                models.len() == list@.len(),
                forall|k: int| 0 <= k < list@.len() ==> #[trigger] models[k] == tree_model(list@[k]),
                reading.model() == after_statements(start, models, n as int),
            decreases list.len() - n,
        {
            assert(models[n as int] == tree_model(list@[n as int]));
            reading.read_statement(&list[n]);
            n += 1;
        }
    }
    let ghost read = reading.model();
    assert(read == after_statements(start, statements, statements.len() as int));
    assert(trees_model(reading.specifiers@).len() == reading.specifiers@.len());
    let ghost specifiers = reading.specifiers@;
    let mut s: usize = 0;
    while s < reading.specifiers.len()
        invariant
            reading.ok(),
            reading.specifiers@ == specifiers,
            read.specifiers == trees_model(specifiers),
            s <= specifiers.len(),
            reading.model() == after_export_specifiers(read, read.specifiers, s as int),
        decreases specifiers.len() - s,
    {
        let specifier = reading.specifiers[s];
        assert(read.specifiers[s as int] == specifier@);
        reading.read_export_specifier(specifier);
        s += 1;
    }
    if let Some(index) = reading.find_comp_named(reading.deferred_default) {
        reading.mark_exported(index);
        reading.default_export = Some(index);
    }
    let ghost whole = reading.model();
    let Reading { bound, comps, named_exports, default_export, imports, builds, sweeps, specifiers: _, deferred_default: _, unsound } =
        reading;
    let ghost count = comps@.len() as int;
    let mut out = FileOut {
        boundary_usages: Vec::new(),
        rendered_marks: Vec::new(),
        ns_member_specs: Vec::new(),
        unsound,
        forward_bad: false,
        children_bad: false,
    };
    assert(boundary_model(out.boundary_usages@) =~= seq![]);
    assert(marks_model(out.rendered_marks@) =~= seq![]);
    assert(crate::text::texts(out.ns_member_specs@) =~= seq![]);
    let ghost first_out = out@;
    let mut comps = comps;
    let ghost first_comps = comps_model(comps@);
    assert(builds_model(builds@).len() == builds@.len());
    let mut b: usize = 0;
    while b < builds.len()
        invariant
            bound.ok(count),
            out.ok(count),
            comps@.len() == count,
            whole.bound == bound@,
            whole.builds == builds_model(builds@),
            forall|i: int| 0 <= i < count ==> comp_ok(#[trigger] comps@[i], count),
            forall|i: int| 0 <= i < builds@.len() ==> (#[trigger] builds@[i]).0 < count,
            b <= builds@.len(),
            (comps_model(comps@), out@) == built_components(
                whole.bound,
                whole.builds,
                b as int,
                first_comps,
                first_out,
            ),
        decreases builds.len() - b,
    {
        let (index, function) = builds[b];
        assert(whole.builds[b as int] == (index, function@));
        let exported = comps[index].exported;
        let ghost before = comps@;
        assert(comps_model(before)[index as int].exported == exported);
        let (comp, recorded) = build_component(function, exported, &bound, out, Ghost(count));
        out = recorded;
        let ghost built = comp;
        comps.set(index, comp);
        assert(comps_model(comps@) =~= comps_model(before).update(index as int, built@));
        b += 1;
    }
    let ghost built_out = out@;
    assert(sweeps_model(sweeps@).len() == sweeps@.len());
    let mut w: usize = 0;
    while w < sweeps.len()
        invariant
            bound.ok(count),
            out.ok(count),
            whole.bound == bound@,
            whole.sweeps == sweeps_model(sweeps@),
            w <= sweeps@.len(),
            out@ == swept_regions(whole.bound, whole.sweeps, w as int, built_out),
        decreases sweeps.len() - w,
    {
        let (region, reason) = sweeps[w];
        assert(whole.sweeps[w as int] == (region@, reason));
        sweep(region, &bound, without_props(), reason, &mut out, Ghost(count));
        w += 1;
    }
    FileIr {
        path: path.to_owned(),
        comps,
        named_exports,
        default_export,
        imports,
        boundary_usages: out.boundary_usages,
        rendered_marks: out.rendered_marks,
        ns_member_specs: out.ns_member_specs,
        unsound: out.unsound,
    }
}

/// What the component graph reads of the file at `path`; `None` where it does
/// not parse.
pub fn extract_file(path: &str, source: &str, css_path: &str) -> (result: Option<FileIr>)
    ensures
        match module_at(path@, source@) {
            Ok(module) => result matches Some(file) && file@ == extracted(path@, css_path@, module) && file_ok(file),
            Err(_) => result is None,
        },
{
    match parse_module(path, source) {
        Ok(module) => Some(extract_module(path, css_path, module)),
        Err(_) => None,
    }
}

/// What is read of the first `n` files, files that do not parse aside.
pub open spec fn world_files(files: Seq<(&str, &str)>, css_path: Seq<char>, n: int) -> Seq<FileModel>
    decreases n,
{
    if n <= 0 {
        seq![]
    } else {
        let rest = world_files(files, css_path, n - 1);
        match module_at(files[n - 1].0@, files[n - 1].1@) {
            Ok(module) => rest.push(extracted(files[n - 1].0@, css_path, module)),
            Err(_) => rest,
        }
    }
}

/// Whether one of the files does not parse.
pub open spec fn some_unread(files: Seq<(&str, &str)>) -> bool {
    exists|i: int| 0 <= i < files.len() && module_at((#[trigger] files[i]).0@, files[i].1@) is Err
}

pub open spec fn files_model(files: Seq<FileIr>) -> Seq<FileModel> {
    files.map_values(|file: FileIr| file@)
}

/// The world that the files make.
pub open spec fn is_world(world: World, files: Seq<(&str, &str)>, css_path: Seq<char>) -> bool {
    &&& world_ok(world)
    &&& files_model(world.files@) == world_files(files, css_path, files.len() as int)
    &&& world.parse_failure == some_unread(files)
}

/// Build the [`PreparedWorld`] (per-file extraction plus cross-file linking).
pub fn prepare(files: &[(&str, &str)], css_path: &str) -> (prepared: PreparedWorld)
    ensures
        prepared.ok(),
        is_world(prepared.world, files@, css_path@),
{
    let mut world = World { files: Vec::new(), parse_failure: false };
    assert(files_model(world.files@) =~= seq![]);
    let mut n: usize = 0;
    while n < files.len()
        invariant
            n <= files@.len(),
            world_ok(world),
            files_model(world.files@) == world_files(files@, css_path@, n as int),
            world.parse_failure == exists|i: int|
                0 <= i < n && module_at((#[trigger] files@[i]).0@, files@[i].1@) is Err,
        decreases files.len() - n,
    {
        match extract_file(files[n].0, files[n].1, css_path) {
            Some(file) => {
                let ghost before = world.files@;
                let ghost added = file;
                world.files.push(file);
                assert(files_model(world.files@) =~= files_model(before).push(added@));
            },
            None => {
                assert(module_at(files@[n as int].0@, files@[n as int].1@) is Err);
                world.parse_failure = true;
            },
        }
        n += 1;
    }
    let linked = link(&world);
    PreparedWorld { world, linked }
}

/// The outcome answers the question about the world that the files make.
pub open spec fn answers_for(
    outcome: ProofOutcome,
    files: Seq<(&str, &str)>,
    css_path: Seq<char>,
    ancestor: KeyModel,
    relation: Relation,
    target: KeyModel,
    closed_world: bool,
) -> bool {
    exists|world: World|
        is_world(world, files, css_path) && #[trigger] outcome_ok(
            outcome,
            (Question { world, relation, ancestor, closed_world }),
            target,
        )
}

/// Like [`prove`], but `closed_world: false` marks exported components as
/// having unknown render sites (`exported-render-sites-unknown`).
pub fn prove_in_world(
    files: &[(&str, &str)],
    css_path: &str,
    ancestor: &SelectorKey,
    relation: Relation,
    target: &SelectorKey,
    closed_world: bool,
) -> (outcome: ProofOutcome)
    ensures
        answers_for(outcome, files@, css_path@, ancestor@, relation, target@, closed_world),
{
    let prepared = prepare(files, css_path);
    prove_prepared(&prepared, ancestor, relation, target, closed_world)
}

/// Prove `ancestor relation target` for every usage of `target` under the
/// closed-world assumption: `files` is the whole scanned project, so every
/// render site of every component can be enumerated within it.
pub fn prove(
    files: &[(&str, &str)],
    css_path: &str,
    ancestor: &SelectorKey,
    relation: Relation,
    target: &SelectorKey,
) -> (outcome: ProofOutcome)
    ensures
        answers_for(outcome, files@, css_path@, ancestor@, relation, target@, true),
{
    prove_in_world(files, css_path, ancestor, relation, target, true)
}

} // verus!
