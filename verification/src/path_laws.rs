//! Paths, and what imports name.
use crate::js_imports::{
    after_import, hits, imported, imported_fields, imported_items, imports_of, no_imports, references_to, with_specifiers,
    Binding, ImportsModel, TargetModel,
};
use crate::markup_laws::stays_ahead;
use crate::path::{
    entered, extension, is_absolute, is_probe, last_dot, normalized, resolved, segments_of, significant_end, walked,
    walked_all, PathModel,
};
use crate::syntax::{declared, field, items, of_kind, span_of, string_value, Occurrence};
use crate::tree::TreeModel;
use vstd::prelude::*;

verus! {

// ---------------------------------------------------------------------------
// Paths
// ---------------------------------------------------------------------------

/// The segment names a file or a folder.
pub open spec fn is_name(segment: Seq<char>) -> bool {
    segment.len() > 0 && segment != "."@ && segment != ".."@
}

proof fn lemma_walked_names(parts: Seq<Seq<char>>, segments: Seq<Seq<char>>, n: int)
    requires
        0 <= n <= segments.len(),
        forall|i: int| 0 <= i < segments.len() ==> is_name(#[trigger] segments[i]),
    ensures
        walked(parts, segments, n) == parts + segments.take(n),
    decreases n,
{
    if n > 0 {
        lemma_walked_names(parts, segments, n - 1);
        assert(segments.take(n) =~= segments.take(n - 1).push(segments[n - 1]));
        assert(walked(parts, segments, n) =~= parts + segments.take(n));
    } else {
        assert(walked(parts, segments, n) =~= parts + segments.take(n));
    }
}

/// Names are entered one after another; `.` and nothing stay where they are, and
/// `..` leaves what was entered last.
pub proof fn paths_are_walked_name_by_name(parts: Seq<Seq<char>>, segments: Seq<Seq<char>>, name: Seq<char>)
    requires
        forall|i: int| 0 <= i < segments.len() ==> is_name(#[trigger] segments[i]),
        is_name(name),
    ensures
        walked_all(parts, segments) == parts + segments,
        walked_all(parts, seq!["."@] + segments) == parts + segments,
        walked_all(parts, seq![Seq::<char>::empty()] + segments) == parts + segments,
        walked_all(parts.push(name), seq![".."@] + segments) == parts + segments,
{
    reveal_strlit(".");
    reveal_strlit("..");
    assert(".."@.len() == 2 && "."@.len() == 1);
    let n = segments.len() as int;
    lemma_walked_names(parts, segments, n);
    assert(segments.take(n) =~= segments);
    lemma_walked_behind(parts, "."@, segments, n);
    lemma_walked_behind(parts, Seq::<char>::empty(), segments, n);
    lemma_walked_behind(parts.push(name), ".."@, segments, n);
    assert(entered(parts.push(name), ".."@) =~= parts);
}

proof fn lemma_walked_behind(parts: Seq<Seq<char>>, first: Seq<char>, segments: Seq<Seq<char>>, n: int)
    requires
        0 <= n <= segments.len(),
    ensures
        walked(parts, seq![first] + segments, n + 1) == walked(entered(parts, first), segments, n),
    decreases n,
{
    let all = seq![first] + segments;
    if n > 0 {
        lemma_walked_behind(parts, first, segments, n - 1);
        assert(all[n] == segments[n - 1]);
    } else {
        assert(walked(parts, all, 0) == parts);
        assert(all[0] == first);
    }
}

proof fn lemma_significant_all(segments: Seq<Seq<char>>)
    requires
        segments.len() > 0,
        is_name(segments.last()),
    ensures
        significant_end(segments, segments.len() as int) == segments.len(),
{
}

/// A relative specifier is read from the folder of the file that holds it: the
/// path names the file's folders, and then what the specifier enters.
pub proof fn imports_are_read_from_the_folder(path: Seq<char>, import: Seq<char>, names: Seq<Seq<char>>)
    requires
        segments_of(path).len() > 0,
        !is_absolute(path),
        forall|i: int| 0 <= i < segments_of(path).len() ==> is_name(#[trigger] segments_of(path)[i]),
        forall|i: int| 0 <= i < names.len() ==> is_name(#[trigger] names[i]),
        !is_absolute(import),
    ensures
        segments_of(import) == names ==> resolved(path, import) == (PathModel {
            absolute: false,
            parts: segments_of(path).drop_last() + names,
        }),
        segments_of(import) == seq!["."@] + names ==> resolved(path, import) == (PathModel {
            absolute: false,
            parts: segments_of(path).drop_last() + names,
        }),
        segments_of(import) == seq![".."@] + names && segments_of(path).len() > 1 ==> resolved(path, import) == (
        PathModel { absolute: false, parts: segments_of(path).drop_last().drop_last() + names }),
{
    let segments = segments_of(path);
    let n = segments.len() as int;
    lemma_significant_all(segments);
    let none = Seq::<Seq<char>>::empty();
    lemma_walked_names(none, segments, n - 1);
    let folder = segments.drop_last();
    assert(none + segments.take(n - 1) =~= folder);
    reveal_strlit("x");
    let name = "x"@;
    reveal_strlit(".");
    reveal_strlit("..");
    assert(name[0] == 'x');
    assert("."@[0] == '.');
    assert(name.len() == 1 && ".."@.len() == 2);
    assert(is_name(name));
    paths_are_walked_name_by_name(folder, names, name);
    if n > 1 {
        let outer = folder.drop_last();
        assert(is_name(segments[n - 2]));
        assert(folder.last() == segments[n - 2]);
        paths_are_walked_name_by_name(outer, names, folder.last());
        assert(outer.push(folder.last()) =~= folder);
    }
}

/// An absolute specifier names the same file from everywhere.
pub proof fn absolute_imports_need_no_folder(path: Seq<char>, other: Seq<char>, import: Seq<char>)
    requires
        is_absolute(import),
    ensures
        resolved(path, import) == resolved(other, import),
        resolved(path, import).absolute,
{
}

/// A specifier may leave out the extension of a script, or name a folder with an
/// index file; it always may name the file itself.
pub proof fn specifiers_may_leave_extensions_out(base: PathModel, k: int)
    requires
        0 <= k < 6,
        base.parts.len() > 0,
    ensures
        is_probe(base, base),
        ({
            let extensions = seq!["tsx"@, "ts"@, "jsx"@, "js"@, "mjs"@, "cjs"@];
            let last = base.parts.last();
            &&& is_probe(
                base,
                PathModel { parts: base.parts.update(base.parts.len() - 1, last + "."@ + extensions[k]), ..base },
            )
            &&& is_probe(base, PathModel { parts: base.parts.push("index."@ + extensions[k]), ..base })
        }),
{
    reveal_strlit(".");
    let extensions = seq!["tsx"@, "ts"@, "jsx"@, "js"@, "mjs"@, "cjs"@];
    let probes = crate::path::probe_extensions();
    assert(probes =~= extensions);
    let last = base.parts.last();
    let named = PathModel { parts: base.parts.update(base.parts.len() - 1, last + "."@ + extensions[k]), ..base };
    assert("."@ =~= seq!['.']);
    assert(last + "."@ + extensions[k] =~= last + (seq!['.'] + extensions[k]));
    assert(named.parts =~= crate::path::with_extension(base, probes[k]).parts);
    assert(named == crate::path::with_extension(base, probes[k]));
    assert(PathModel { parts: base.parts.push("index."@ + extensions[k]), ..base } == crate::path::with_index(
        base,
        probes[k],
    ));
}

proof fn lemma_last_dot(name: Seq<char>, n: int, dot: int)
    requires
        0 <= dot < n <= name.len(),
        name[dot] == '.',
        forall|i: int| dot < i < n ==> #[trigger] name[i] != '.',
    ensures
        last_dot(name, n) == Some(dot),
    decreases n,
{
    if n - 1 > dot {
        lemma_last_dot(name, n - 1, dot);
    }
}

/// The extension of a path is what stands behind the last point of its last
/// name.
pub proof fn extensions_follow_the_last_point(path: Seq<char>, stem: Seq<char>, suffix: Seq<char>)
    requires
        stem.len() > 0,
        !suffix.contains('.'),
        suffix.len() > 0,
        segments_of(path).len() > 0,
        segments_of(path).last() == stem + seq!['.'] + suffix,
    ensures
        extension(path) == Some(suffix),
{
    reveal_strlit(".");
    reveal_strlit("..");
    let segments = segments_of(path);
    let name = segments.last();
    assert(name.len() >= 3);
    assert("."@.len() == 1 && ".."@.len() == 2);
    lemma_significant_all(segments);
    assert forall|i: int| stem.len() < i < name.len() implies #[trigger] name[i] != '.' by {
        assert(name[i] == suffix[i - stem.len() - 1]);
        assert(suffix.contains(suffix[i - stem.len() - 1]));
    }
    lemma_last_dot(name, name.len() as int, stem.len() as int);
    assert(name.skip(stem.len() + 1 as int) =~= suffix);
}

// ---------------------------------------------------------------------------
// Imports of a CSS Module
// ---------------------------------------------------------------------------

/// What was found stays found.
pub open spec fn keeps(before: ImportsModel, after: ImportsModel) -> bool {
    &&& stays_ahead(before.bindings, after.bindings)
    &&& before.unsupported_shape ==> after.unsupported_shape
    &&& before.warning_span is Some ==> after.warning_span == before.warning_span
}

proof fn lemma_keeps(a: ImportsModel, b: ImportsModel, c: ImportsModel)
    requires
        keeps(a, b),
        keeps(b, c),
    ensures
        keeps(a, c),
{
    assert forall|i: int| 0 <= i < a.bindings.len() implies #[trigger] c.bindings[i] == a.bindings[i] by {
        assert(c.bindings[i] == b.bindings[i]);
    }
}

proof fn lemma_specifiers_keep(at: TargetModel, span: (usize, usize), specifiers: Seq<TreeModel>, n: int, out: ImportsModel)
    ensures
        keeps(out, with_specifiers(at, span, specifiers, n, out)),
    decreases n,
{
    if n > 0 {
        lemma_specifiers_keep(at, span, specifiers, n - 1, out);
        let before = with_specifiers(at, span, specifiers, n - 1, out);
        assert(keeps(before, with_specifiers(at, span, specifiers, n, out)));
        lemma_keeps(out, before, with_specifiers(at, span, specifiers, n, out));
    }
}

proof fn lemma_import_keeps(at: TargetModel, tree: TreeModel, out: ImportsModel)
    ensures
        keeps(out, after_import(at, tree, out)),
{
    let specifiers = items(tree, "specifiers"@);
    let span = span_of(tree);
    let seen = ImportsModel { warning_span: crate::js_imports::first_span(out.warning_span, span), ..out };
    let ready = ImportsModel { unsupported_shape: seen.unsupported_shape || specifiers.len() != 1, ..seen };
    lemma_specifiers_keep(at, span, specifiers, specifiers.len() as int, ready);
    assert(keeps(out, ready));
    lemma_keeps(out, ready, with_specifiers(at, span, specifiers, specifiers.len() as int, ready));
}

proof fn lemma_imported_keeps(at: TargetModel, tree: TreeModel, out: ImportsModel)
    ensures
        keeps(out, imported(at, tree, out)),
    decreases tree, 0nat,
{
    match tree {
        TreeModel::List(list) => {
            lemma_imported_items_keep(at, list, list.len(), out);
        },
        TreeModel::Node(fields) => {
            lemma_import_keeps(at, tree, out);
            let own = after_import(at, tree, out);
            lemma_imported_fields_keep(at, fields, fields.len(), own);
            lemma_keeps(out, own, imported(at, tree, out));
        },
        _ => {},
    }
}

proof fn lemma_imported_items_keep(at: TargetModel, list: Seq<TreeModel>, n: nat, out: ImportsModel)
    ensures
        keeps(out, imported_items(at, list, n, out)),
    decreases list, n,
{
    if n > 0 && n <= list.len() {
        lemma_imported_items_keep(at, list, (n - 1) as nat, out);
        let before = imported_items(at, list, (n - 1) as nat, out);
        lemma_imported_keeps(at, list[n - 1], before);
        lemma_keeps(out, before, imported_items(at, list, n, out));
    }
}

proof fn lemma_imported_fields_keep(at: TargetModel, fields: Seq<(Seq<char>, TreeModel)>, n: nat, out: ImportsModel)
    ensures
        keeps(out, imported_fields(at, fields, n, out)),
    decreases fields, n,
{
    if n > 0 && n <= fields.len() {
        lemma_imported_fields_keep(at, fields, (n - 1) as nat, out);
        let before = imported_fields(at, fields, (n - 1) as nat, out);
        lemma_imported_keeps(at, fields[n - 1].1, before);
        lemma_keeps(out, before, imported_fields(at, fields, n, out));
    }
}

/// The node stands somewhere in the tree.
pub open spec fn holds_node(tree: TreeModel, node: TreeModel) -> bool
    decreases tree, 0nat,
{
    match tree {
        TreeModel::List(list) => items_hold(list, list.len(), node),
        TreeModel::Node(fields) => tree == node || fields_hold(fields, fields.len(), node),
        _ => false,
    }
}

pub open spec fn items_hold(list: Seq<TreeModel>, n: nat, node: TreeModel) -> bool
    decreases list, n,
{
    n != 0 && n <= list.len() && (items_hold(list, (n - 1) as nat, node) || holds_node(list[n - 1], node))
}

pub open spec fn fields_hold(fields: Seq<(Seq<char>, TreeModel)>, n: nat, node: TreeModel) -> bool
    decreases fields, n,
{
    n != 0 && n <= fields.len() && (fields_hold(fields, (n - 1) as nat, node) || holds_node(fields[n - 1].1, node))
}

/// What the node imports is found.
pub open spec fn is_found(at: TargetModel, node: TreeModel, result: ImportsModel) -> bool {
    exists|before: ImportsModel| #[trigger] keeps(after_import(at, node, before), result)
}

proof fn lemma_found(at: TargetModel, tree: TreeModel, node: TreeModel, out: ImportsModel)
    requires
        holds_node(tree, node),
    ensures
        is_found(at, node, imported(at, tree, out)),
    decreases tree, 0nat,
{
    match tree {
        TreeModel::List(list) => {
            lemma_found_items(at, list, list.len(), node, out);
        },
        TreeModel::Node(fields) => {
            let own = after_import(at, tree, out);
            lemma_imported_fields_keep(at, fields, fields.len(), own);
            if tree == node {
                assert(keeps(after_import(at, node, out), imported(at, tree, out)));
            } else {
                lemma_found_fields(at, fields, fields.len(), node, own);
            }
        },
        _ => {},
    }
}

proof fn lemma_found_items(at: TargetModel, list: Seq<TreeModel>, n: nat, node: TreeModel, out: ImportsModel)
    requires
        items_hold(list, n, node),
    ensures
        is_found(at, node, imported_items(at, list, n, out)),
    decreases list, n,
{
    let before = imported_items(at, list, (n - 1) as nat, out);
    if items_hold(list, (n - 1) as nat, node) {
        lemma_found_items(at, list, (n - 1) as nat, node, out);
        lemma_imported_keeps(at, list[n - 1], before);
        let first = choose|first: ImportsModel| #[trigger] keeps(after_import(at, node, first), before);
        lemma_keeps(after_import(at, node, first), before, imported_items(at, list, n, out));
    } else {
        lemma_found(at, list[n - 1], node, before);
    }
}

proof fn lemma_found_fields(
    at: TargetModel,
    fields: Seq<(Seq<char>, TreeModel)>,
    n: nat,
    node: TreeModel,
    out: ImportsModel,
)
    requires
        fields_hold(fields, n, node),
    ensures
        is_found(at, node, imported_fields(at, fields, n, out)),
    decreases fields, n,
{
    let before = imported_fields(at, fields, (n - 1) as nat, out);
    if fields_hold(fields, (n - 1) as nat, node) {
        lemma_found_fields(at, fields, (n - 1) as nat, node, out);
        lemma_imported_keeps(at, fields[n - 1].1, before);
        let first = choose|first: ImportsModel| #[trigger] keeps(after_import(at, node, first), before);
        lemma_keeps(after_import(at, node, first), before, imported_fields(at, fields, n, out));
    } else {
        lemma_found(at, fields[n - 1].1, node, before);
    }
}

/// Every way in which a script names the CSS Module is found, wherever it
/// stands: a default import binds its name, and any other form of import or
/// export makes the module unsupported there.
pub proof fn every_import_of_the_module_is_found(
    file_path: Seq<char>,
    css_path: Seq<char>,
    symbols: Seq<Occurrence>,
    tree: TreeModel,
    node: TreeModel,
    specifier: Seq<char>,
)
    requires
        holds_node(tree, node),
        string_value(field(node, "source"@)) == Some(specifier),
        resolved(file_path, specifier) == normalized(css_path),
        of_kind(node, "ImportDeclaration"@) || of_kind(node, "ExportNamedDeclaration"@) || of_kind(
            node,
            "ExportAllDeclaration"@,
        ),
    ensures
        ({
            let found = imports_of(file_path, css_path, symbols, tree);
            let specifiers = items(node, "specifiers"@);
            let symbol = declared(symbols, field(specifiers[0], "local"@));
            &&& found.warning_span is Some
            &&& if of_kind(node, "ImportDeclaration"@) && specifiers.len() == 1 && of_kind(
                specifiers[0],
                "ImportDefaultSpecifier"@,
            ) && symbol is Some {
                found.bindings.contains((symbol->0, span_of(node)))
            } else {
                found.unsupported_shape
            }
        }),
{
    reveal_strlit("ImportDeclaration");
    reveal_strlit("ExportNamedDeclaration");
    reveal_strlit("ExportAllDeclaration");
    assert("ImportDeclaration"@.len() == 17);
    assert("ExportNamedDeclaration"@.len() == 22);
    assert("ExportAllDeclaration"@.len() == 20);
    let at = TargetModel { file_path, target: normalized(css_path), symbols };
    lemma_found(at, tree, node, no_imports());
    let found = imports_of(file_path, css_path, symbols, tree);
    let before = choose|before: ImportsModel| #[trigger] keeps(after_import(at, node, before), found);
    let specifiers = items(node, "specifiers"@);
    let span = span_of(node);
    let own = after_import(at, node, before);
    assert(hits(at, string_value(field(node, "source"@))));
    if of_kind(node, "ImportDeclaration"@) {
        let seen = ImportsModel { warning_span: crate::js_imports::first_span(before.warning_span, span), ..before };
        let ready = ImportsModel { unsupported_shape: seen.unsupported_shape || specifiers.len() != 1, ..seen };
        lemma_specifiers_keep(at, span, specifiers, specifiers.len() as int, ready);
        assert(own == with_specifiers(at, span, specifiers, specifiers.len() as int, ready));
        if specifiers.len() == 1 {
            assert(with_specifiers(at, span, specifiers, 0, ready) == ready);
            let symbol = declared(symbols, field(specifiers[0], "local"@));
            if of_kind(specifiers[0], "ImportDefaultSpecifier"@) && symbol is Some {
                let k = ready.bindings.len() as int;
                assert(own.bindings[k] == (symbol->0, span));
                assert(found.bindings[k] == own.bindings[k]);
            }
        }
    }
}

proof fn lemma_references(symbols: Seq<Occurrence>, bindings: Seq<Binding>, n: int)
    requires
        0 <= n <= symbols.len(),
    ensures
        0 <= references_to(symbols, bindings, n) <= n,
    decreases n,
{
    if n > 0 {
        lemma_references(symbols, bindings, n - 1);
    }
}

/// References are counted one by one: none is counted exactly where no
/// occurrence refers to a binding.
pub proof fn references_are_counted_one_by_one(symbols: Seq<Occurrence>, bindings: Seq<Binding>, n: int)
    requires
        0 <= n <= symbols.len(),
    ensures
        references_to(symbols, bindings, n) == 0 <==> forall|i: int, k: int|
            0 <= i < n && 0 <= k < bindings.len() && (#[trigger] symbols[i]).2 ==> (#[trigger] bindings[k]).0
                != symbols[i].1,
        n > 0 ==> references_to(symbols, bindings, n) - references_to(symbols, bindings, n - 1) == if symbols[n - 1].2
            && (exists|k: int| 0 <= k < bindings.len() && (#[trigger] bindings[k]).0 == symbols[n - 1].1) {
            1int
        } else {
            0int
        },
    decreases n,
{
    if n > 0 {
        references_are_counted_one_by_one(symbols, bindings, n - 1);
        lemma_references(symbols, bindings, n - 1);
        if references_to(symbols, bindings, n) == 0 {
            assert forall|i: int, k: int|
                0 <= i < n && 0 <= k < bindings.len() && (#[trigger] symbols[i]).2 implies (#[trigger] bindings[k]).0
                != symbols[i].1 by {}
        } else if forall|i: int, k: int|
            0 <= i < n && 0 <= k < bindings.len() && (#[trigger] symbols[i]).2 ==> (#[trigger] bindings[k]).0
                != symbols[i].1 {
            assert(!crate::js_imports::bound_to(bindings, symbols[n - 1].1) || !symbols[n - 1].2);
        }
    }
}

} // verus!
