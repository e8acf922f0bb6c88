//! Laws on the outcomes of proofs in the component graph.
//!
//! What is proven depends on what was read of the files, not on how it is
//! held: two worlds with one model give the same answer to every question.
use crate::jsx_extract::{
    answers_for, boundary_model, classes_model, comps_model, exports_model, files_model, imports_model, is_world, keys_model,
    marks_model, nodes_model,
};
use crate::jsx_graph::{
    all_import_marks, all_namespace_marks, all_rendered_marks, asks_no_more, boundary_usages, candidate_marks, carries,
    comp_in, comp_of, comp_sites, comp_usages, element_usages, export_marks, export_named, exported_component,
    file_marks, file_sites, file_usages, first_failure, forwarded_usages, frames_in, import_marks, import_named,
    key_name, lemma_file_sites, lemma_first_failure, lemma_matches_in_range, lemma_world_fits, lemma_wrapper,
    namespace_marks, node_in, node_sites, node_usages, nodes_ok, outcome_ok, probe_matches, proof_climb, proof_forward,
    proof_sites, proof_slots, proof_up, proofs_carry_over, rendered_marks, specifier_matches, tag_ok, tag_target,
    targets_are_in_the_world, world_marks, world_ok, world_sites, world_unsound, world_usages, Comp, CompId, FileIr,
    Forward, Frame, ImportedName, Node, NodeKind, ProofOutcome, Question, Reason, Relation, TagRef, UsageModel, World,
    MAX_DEPTH,
};
use crate::path::{resolved, PathModel};
use crate::selector::{KeyModel, SelectorKey};
use crate::text::texts;
use vstd::prelude::*;

verus! {

// ---------------------------------------------------------------------------
// One model
// ---------------------------------------------------------------------------

/// The same was read of both worlds.
pub open spec fn alike(a: World, b: World) -> bool {
    &&& world_ok(a)
    &&& world_ok(b)
    &&& files_model(a.files@) == files_model(b.files@)
    &&& a.parse_failure == b.parse_failure
}

proof fn lemma_files(a: World, b: World)
    requires
        alike(a, b),
    ensures
        a.files@.len() == b.files@.len() <= usize::MAX,
        forall|i: int| 0 <= i < a.files@.len() ==> (#[trigger] a.files@[i])@ == b.files@[i]@,
{
    assert(files_model(a.files@).len() == a.files@.len());
    assert(files_model(b.files@).len() == b.files@.len());
    assert forall|i: int| 0 <= i < a.files@.len() implies (#[trigger] a.files@[i])@ == b.files@[i]@ by {
        assert(files_model(a.files@)[i] == a.files@[i]@);
        assert(files_model(b.files@)[i] == b.files@[i]@);
    }
    lemma_world_fits(a);
}

proof fn lemma_file(x: FileIr, y: FileIr)
    requires
        x@ == y@,
    ensures
        x.path@ == y.path@,
        x.default_export == y.default_export,
        x.unsound == y.unsound,
        x.comps@.len() == y.comps@.len(),
        x.named_exports@.len() == y.named_exports@.len(),
        x.imports@.len() == y.imports@.len(),
        x.boundary_usages@.len() == y.boundary_usages@.len(),
        x.rendered_marks@.len() == y.rendered_marks@.len(),
        x.ns_member_specs@.len() == y.ns_member_specs@.len(),
        forall|k: int| 0 <= k < x.comps@.len() ==> (#[trigger] x.comps@[k])@ == y.comps@[k]@,
        forall|k: int|
            0 <= k < x.named_exports@.len() ==> (#[trigger] x.named_exports@[k]).0@ == y.named_exports@[k].0@
                && x.named_exports@[k].1 == y.named_exports@[k].1,
        forall|k: int|
            0 <= k < x.imports@.len() ==> (#[trigger] x.imports@[k]).0@ == y.imports@[k].0@
                && x.imports@[k].1.0@ == y.imports@[k].1.0@ && x.imports@[k].1.1@ == y.imports@[k].1.1@,
        forall|k: int|
            0 <= k < x.boundary_usages@.len() ==> (#[trigger] x.boundary_usages@[k]).0@ == y.boundary_usages@[k].0@
                && x.boundary_usages@[k].1 == y.boundary_usages@[k].1 && x.boundary_usages@[k].2
                == y.boundary_usages@[k].2,
        forall|k: int|
            0 <= k < x.rendered_marks@.len() ==> (#[trigger] x.rendered_marks@[k]).0@ == y.rendered_marks@[k].0@
                && x.rendered_marks@[k].1 == y.rendered_marks@[k].1,
        forall|k: int|
            0 <= k < x.ns_member_specs@.len() ==> (#[trigger] x.ns_member_specs@[k])@ == y.ns_member_specs@[k]@,
{
    assert(comps_model(x.comps@).len() == comps_model(y.comps@).len());
    assert(exports_model(x.named_exports@).len() == exports_model(y.named_exports@).len());
    assert(imports_model(x.imports@).len() == imports_model(y.imports@).len());
    assert(boundary_model(x.boundary_usages@).len() == boundary_model(y.boundary_usages@).len());
    assert(marks_model(x.rendered_marks@).len() == marks_model(y.rendered_marks@).len());
    assert(texts(x.ns_member_specs@).len() == texts(y.ns_member_specs@).len());
    assert forall|k: int| 0 <= k < x.comps@.len() implies (#[trigger] x.comps@[k])@ == y.comps@[k]@ by {
        assert(comps_model(x.comps@)[k] == comps_model(y.comps@)[k]);
    }
    assert forall|k: int| 0 <= k < x.named_exports@.len() implies (#[trigger] x.named_exports@[k]).0@
        == y.named_exports@[k].0@ && x.named_exports@[k].1 == y.named_exports@[k].1 by {
        assert(exports_model(x.named_exports@)[k] == exports_model(y.named_exports@)[k]);
    }
    assert forall|k: int| 0 <= k < x.imports@.len() implies (#[trigger] x.imports@[k]).0@ == y.imports@[k].0@
        && x.imports@[k].1.0@ == y.imports@[k].1.0@ && x.imports@[k].1.1@ == y.imports@[k].1.1@ by {
        assert(imports_model(x.imports@)[k] == imports_model(y.imports@)[k]);
    }
    assert forall|k: int| 0 <= k < x.boundary_usages@.len() implies (#[trigger] x.boundary_usages@[k]).0@
        == y.boundary_usages@[k].0@ && x.boundary_usages@[k].1 == y.boundary_usages@[k].1 && x.boundary_usages@[k].2
        == y.boundary_usages@[k].2 by {
        assert(boundary_model(x.boundary_usages@)[k] == boundary_model(y.boundary_usages@)[k]);
    }
    assert forall|k: int| 0 <= k < x.rendered_marks@.len() implies (#[trigger] x.rendered_marks@[k]).0@
        == y.rendered_marks@[k].0@ && x.rendered_marks@[k].1 == y.rendered_marks@[k].1 by {
        assert(marks_model(x.rendered_marks@)[k] == marks_model(y.rendered_marks@)[k]);
    }
    assert forall|k: int| 0 <= k < x.ns_member_specs@.len() implies (#[trigger] x.ns_member_specs@[k])@
        == y.ns_member_specs@[k]@ by {
        assert(texts(x.ns_member_specs@)[k] == texts(y.ns_member_specs@)[k]);
    }
}

/// The same was read of both lists of nodes.
spec fn nodes_alike(x: Seq<Node>, y: Seq<Node>) -> bool {
    &&& x.len() == y.len()
    &&& forall|k: int| 0 <= k < x.len() ==> (#[trigger] x[k])@ == y[k]@
}

proof fn lemma_comp(x: Comp, y: Comp)
    requires
        x@ == y@,
    ensures
        x.exported == y.exported,
        x.slots@ == y.slots@,
        x.forward == y.forward,
        x.children_bad == y.children_bad,
        x.body is Err <==> y.body is Err,
        x.body is Err ==> x.body->Err_0 == y.body->Err_0,
        x.body is Ok ==> nodes_alike((x.body->Ok_0)@, (y.body->Ok_0)@),
{
    if x.body is Ok {
        let p = (x.body->Ok_0)@;
        let q = (y.body->Ok_0)@;
        assert(nodes_model(p) == nodes_model(q));
        assert(nodes_model(p).len() == nodes_model(q).len());
        assert forall|k: int| 0 <= k < p.len() implies (#[trigger] p[k])@ == q[k]@ by {
            assert(nodes_model(p)[k] == nodes_model(q)[k]);
        }
    }
}

/// The same keys stand on both elements.
spec fn keys_alike(x: Seq<(SelectorKey, (usize, usize))>, y: Seq<(SelectorKey, (usize, usize))>) -> bool {
    &&& x.len() == y.len()
    &&& forall|k: int| 0 <= k < x.len() ==> (#[trigger] x[k]).0@ == y[k].0@ && x[k].1 == y[k].1
}

/// The same classes are passed to both components.
spec fn classes_alike(x: Seq<(String, (usize, usize))>, y: Seq<(String, (usize, usize))>) -> bool {
    &&& x.len() == y.len()
    &&& forall|k: int| 0 <= k < x.len() ==> (#[trigger] x[k]).0@ == y[k].0@ && x[k].1 == y[k].1
}

proof fn lemma_node(x: Node, y: Node)
    requires
        x@ == y@,
    ensures
        x.parent == y.parent,
        match x.kind {
            NodeKind::Element { keys } => y.kind is Element && keys_alike(keys@, (y.kind->Element_keys)@),
            NodeKind::ComponentUse { tag, class_keys } => y.kind is ComponentUse && tag@
                == (y.kind->ComponentUse_tag)@ && classes_alike(class_keys@, (y.kind->ComponentUse_class_keys)@),
            NodeKind::Slot => y.kind is Slot,
        },
{
    match x.kind {
        NodeKind::Element { keys } => {
            let other = (y.kind->Element_keys)@;
            assert(keys_model(keys@) == keys_model(other));
            assert(keys_model(keys@).len() == keys_model(other).len());
            assert forall|k: int| 0 <= k < keys@.len() implies (#[trigger] keys@[k]).0@ == other[k].0@ && keys@[k].1
                == other[k].1 by {
                assert(keys_model(keys@)[k] == keys_model(other)[k]);
            }
        },
        NodeKind::ComponentUse { tag, class_keys } => {
            let other = (y.kind->ComponentUse_class_keys)@;
            assert(classes_model(class_keys@) == classes_model(other));
            assert(classes_model(class_keys@).len() == classes_model(other).len());
            assert forall|k: int| 0 <= k < class_keys@.len() implies (#[trigger] class_keys@[k]).0@ == other[k].0@
                && class_keys@[k].1 == other[k].1 by {
                assert(classes_model(class_keys@)[k] == classes_model(other)[k]);
            }
        },
        NodeKind::Slot => {},
    }
}

proof fn lemma_carries(
    x: Seq<(SelectorKey, (usize, usize))>,
    y: Seq<(SelectorKey, (usize, usize))>,
    key: KeyModel,
)
    requires
        keys_alike(x, y),
    ensures
        carries(x, key) == carries(y, key),
{
    if carries(x, key) {
        let i = choose|i: int| 0 <= i < x.len() && (#[trigger] x[i]).0@ == key;
        assert(y[i].0@ == key);
    }
    if carries(y, key) {
        let i = choose|i: int| 0 <= i < y.len() && (#[trigger] y[i]).0@ == key;
        assert(x[i].0@ == key);
    }
}

// ---------------------------------------------------------------------------
// Links
// ---------------------------------------------------------------------------

proof fn lemma_matches(a: World, b: World, base: PathModel, n: int)
    requires
        alike(a, b),
        0 <= n <= a.files@.len(),
    ensures
        probe_matches(a, base, n) == probe_matches(b, base, n),
    decreases n,
{
    if n > 0 {
        lemma_matches(a, b, base, n - 1);
        lemma_files(a, b);
        lemma_file(a.files@[n - 1], b.files@[n - 1]);
    }
}

/// A specifier means the same files in both worlds, and files that exist.
proof fn lemma_specifier(a: World, b: World, from: Seq<char>, specifier: Seq<char>)
    requires
        alike(a, b),
    ensures
        specifier_matches(a, from, specifier) == specifier_matches(b, from, specifier),
        forall|i: int|
            0 <= i < specifier_matches(a, from, specifier).len() ==> #[trigger] specifier_matches(
                a,
                from,
                specifier,
            )[i] < a.files@.len(),
{
    lemma_files(a, b);
    let base = resolved(from, specifier);
    lemma_matches(a, b, base, a.files@.len() as int);
    lemma_matches_in_range(a, base, a.files@.len() as int);
}

proof fn lemma_import_named(x: FileIr, y: FileIr, local: Seq<char>, n: int)
    requires
        x@ == y@,
        0 <= n <= x.imports@.len(),
    ensures
        import_named(x.imports@, local, n) == import_named(y.imports@, local, n),
        import_named(x.imports@, local, n) matches Some(k) ==> 0 <= k < n,
    decreases n,
{
    if n > 0 {
        lemma_import_named(x, y, local, n - 1);
        lemma_file(x, y);
        assert(x.imports@[n - 1].0@ == y.imports@[n - 1].0@);
    }
}

proof fn lemma_export_named(x: FileIr, y: FileIr, name: Seq<char>, n: int)
    requires
        x@ == y@,
        0 <= n <= x.named_exports@.len(),
    ensures
        export_named(x.named_exports@, name, n) == export_named(y.named_exports@, name, n),
    decreases n,
{
    if n > 0 {
        lemma_export_named(x, y, name, n - 1);
        lemma_file(x, y);
        assert(x.named_exports@[n - 1].0@ == y.named_exports@[n - 1].0@);
    }
}

proof fn lemma_exported(a: World, b: World, target: usize, s: ImportedName, t: ImportedName)
    requires
        alike(a, b),
        target < a.files@.len(),
        s@ == t@,
    ensures
        exported_component(a, target, s) == exported_component(b, target, t),
{
    lemma_files(a, b);
    let x = a.files@[target as int];
    let y = b.files@[target as int];
    lemma_file(x, y);
    if let ImportedName::Named(name) = s {
        lemma_export_named(x, y, name@, x.named_exports@.len() as int);
    }
}

proof fn lemma_tag(a: World, b: World, file_ix: usize, s: TagRef, t: TagRef)
    requires
        alike(a, b),
        file_ix < a.files@.len(),
        s@ == t@,
    ensures
        tag_target(a, file_ix, s) == tag_target(b, file_ix, t),
{
    if let TagRef::Import(local) = s {
        lemma_files(a, b);
        let x = a.files@[file_ix as int];
        let y = b.files@[file_ix as int];
        lemma_file(x, y);
        lemma_import_named(x, y, local@, x.imports@.len() as int);
        if let Some(k) = import_named(x.imports@, local@, x.imports@.len() as int) {
            assert(x.imports@[k].1.0@ == y.imports@[k].1.0@);
            let (specifier, imported) = x.imports@[k].1;
            lemma_specifier(a, b, x.path@, specifier@);
            let matches = specifier_matches(a, x.path@, specifier@);
            if matches.len() == 1 {
                lemma_exported(a, b, matches[0], imported, y.imports@[k].1.1);
            }
        }
    }
}

proof fn lemma_export_marks(x: FileIr, y: FileIr, file_ix: usize, reason: Reason, n: int)
    requires
        x@ == y@,
        0 <= n <= x.named_exports@.len(),
    ensures
        export_marks(x.named_exports@, file_ix, reason, n) == export_marks(y.named_exports@, file_ix, reason, n),
    decreases n,
{
    if n > 0 {
        lemma_export_marks(x, y, file_ix, reason, n - 1);
        lemma_file(x, y);
        assert(x.named_exports@[n - 1].0@ == y.named_exports@[n - 1].0@);
    }
}

proof fn lemma_candidate_marks(a: World, b: World, candidates: Seq<usize>, reason: Reason, n: int)
    requires
        alike(a, b),
        0 <= n <= candidates.len(),
        forall|i: int| 0 <= i < candidates.len() ==> #[trigger] candidates[i] < a.files@.len(),
    ensures
        candidate_marks(a, candidates, reason, n) == candidate_marks(b, candidates, reason, n),
    decreases n,
{
    if n > 0 {
        lemma_candidate_marks(a, b, candidates, reason, n - 1);
        lemma_files(a, b);
        let ix = candidates[n - 1];
        let x = a.files@[ix as int];
        let y = b.files@[ix as int];
        lemma_file(x, y);
        lemma_export_marks(x, y, ix, reason, x.named_exports@.len() as int);
        assert(file_marks(a, ix, reason) == file_marks(b, ix, reason));
    }
}

proof fn lemma_import_marks(a: World, b: World, x: FileIr, y: FileIr, n: int)
    requires
        alike(a, b),
        x@ == y@,
        0 <= n <= x.imports@.len(),
    ensures
        import_marks(a, x, n) == import_marks(b, y, n),
    decreases n,
{
    if n > 0 {
        lemma_import_marks(a, b, x, y, n - 1);
        lemma_file(x, y);
        assert(x.imports@[n - 1].1.0@ == y.imports@[n - 1].1.0@);
        lemma_specifier(a, b, x.path@, x.imports@[n - 1].1.0@);
        let matches = specifier_matches(a, x.path@, x.imports@[n - 1].1.0@);
        lemma_candidate_marks(a, b, matches, Reason::Unresolved, matches.len() as int);
    }
}

proof fn lemma_namespace_marks(a: World, b: World, x: FileIr, y: FileIr, n: int)
    requires
        alike(a, b),
        x@ == y@,
        0 <= n <= x.ns_member_specs@.len(),
    ensures
        namespace_marks(a, x, n) == namespace_marks(b, y, n),
    decreases n,
{
    if n > 0 {
        lemma_namespace_marks(a, b, x, y, n - 1);
        lemma_file(x, y);
        assert(x.ns_member_specs@[n - 1]@ == y.ns_member_specs@[n - 1]@);
        lemma_specifier(a, b, x.path@, x.ns_member_specs@[n - 1]@);
        let matches = specifier_matches(a, x.path@, x.ns_member_specs@[n - 1]@);
        lemma_candidate_marks(a, b, matches, Reason::Hoc, matches.len() as int);
    }
}

proof fn lemma_rendered_marks(a: World, b: World, file_ix: usize, n: int)
    requires
        alike(a, b),
        file_ix < a.files@.len(),
        0 <= n <= a.files@[file_ix as int].rendered_marks@.len(),
    ensures
        rendered_marks(a, file_ix, n) == rendered_marks(b, file_ix, n),
    decreases n,
{
    if n > 0 {
        lemma_rendered_marks(a, b, file_ix, n - 1);
        lemma_files(a, b);
        let x = a.files@[file_ix as int];
        let y = b.files@[file_ix as int];
        lemma_file(x, y);
        assert(x.rendered_marks@[n - 1].0@ == y.rendered_marks@[n - 1].0@);
        lemma_tag(a, b, file_ix, x.rendered_marks@[n - 1].0, y.rendered_marks@[n - 1].0);
    }
}

proof fn lemma_all_marks(a: World, b: World, n: int)
    requires
        alike(a, b),
        0 <= n <= a.files@.len(),
    ensures
        all_import_marks(a, n) == all_import_marks(b, n),
        all_namespace_marks(a, n) == all_namespace_marks(b, n),
        all_rendered_marks(a, n) == all_rendered_marks(b, n),
    decreases n,
{
    if n > 0 {
        lemma_all_marks(a, b, n - 1);
        lemma_files(a, b);
        let x = a.files@[n - 1];
        let y = b.files@[n - 1];
        lemma_file(x, y);
        lemma_import_marks(a, b, x, y, x.imports@.len() as int);
        lemma_namespace_marks(a, b, x, y, x.ns_member_specs@.len() as int);
        lemma_rendered_marks(a, b, (n - 1) as usize, x.rendered_marks@.len() as int);
    }
}

proof fn lemma_node_sites(a: World, b: World, at: CompId, x: Seq<Node>, y: Seq<Node>, n: int)
    requires
        alike(a, b),
        at.0 < a.files@.len(),
        nodes_alike(x, y),
        0 <= n <= x.len(),
    ensures
        node_sites(a, at, x, n) == node_sites(b, at, y, n),
    decreases n,
{
    if n > 0 {
        lemma_node_sites(a, b, at, x, y, n - 1);
        assert(x[n - 1]@ == y[n - 1]@);
        lemma_node(x[n - 1], y[n - 1]);
        if let NodeKind::ComponentUse { tag, class_keys } = x[n - 1].kind {
            lemma_tag(a, b, at.0, tag, y[n - 1].kind->ComponentUse_tag);
        }
    }
}

proof fn lemma_comp_sites(a: World, b: World, file_ix: usize, n: int)
    requires
        alike(a, b),
        file_ix < a.files@.len(),
        0 <= n <= a.files@[file_ix as int].comps@.len(),
    ensures
        comp_sites(a, file_ix, n) == comp_sites(b, file_ix, n),
    decreases n,
{
    if n > 0 {
        lemma_comp_sites(a, b, file_ix, n - 1);
        lemma_files(a, b);
        let x = a.files@[file_ix as int];
        let y = b.files@[file_ix as int];
        lemma_file(x, y);
        lemma_comp(x.comps@[n - 1], y.comps@[n - 1]);
        if let Ok(nodes) = x.comps@[n - 1].body {
            let other = (y.comps@[n - 1].body->Ok_0)@;
            lemma_node_sites(a, b, (file_ix, (n - 1) as usize), nodes@, other, nodes@.len() as int);
        }
    }
}

proof fn lemma_sites(a: World, b: World, n: int)
    requires
        alike(a, b),
        0 <= n <= a.files@.len(),
    ensures
        file_sites(a, n) == file_sites(b, n),
    decreases n,
{
    if n > 0 {
        lemma_sites(a, b, n - 1);
        lemma_files(a, b);
        lemma_file(a.files@[n - 1], b.files@[n - 1]);
        lemma_comp_sites(a, b, (n - 1) as usize, a.files@[n - 1].comps@.len() as int);
    }
}

/// Both worlds have the same marks and render sites, and the sites exist.
proof fn lemma_links(a: World, b: World)
    requires
        alike(a, b),
    ensures
        world_marks(a) == world_marks(b),
        world_sites(a) == world_sites(b),
        forall|k: int|
            0 <= k < world_sites(a).len() ==> node_in(a, (#[trigger] world_sites(a)[k]).1, world_sites(a)[k].2),
{
    lemma_files(a, b);
    lemma_all_marks(a, b, a.files@.len() as int);
    lemma_sites(a, b, a.files@.len() as int);
    lemma_world_fits(a);
    lemma_file_sites(a, a.files@.len() as int);
}

// ---------------------------------------------------------------------------
// Answers
// ---------------------------------------------------------------------------

/// The same is asked of worlds of which the same was read.
spec fn same_question(p: Question, q: Question) -> bool {
    &&& alike(p.world, q.world)
    &&& p.relation == q.relation
    &&& p.ancestor == q.ancestor
    &&& p.closed_world == q.closed_world
}

/// The component is the same in both worlds, and sound.
proof fn lemma_comp_of(a: World, b: World, comp: CompId)
    requires
        alike(a, b),
        comp_in(a, comp),
    ensures
        comp_in(b, comp),
        comp_of(a, comp)@ == comp_of(b, comp)@,
{
    lemma_files(a, b);
    lemma_file(a.files@[comp.0 as int], b.files@[comp.0 as int]);
    assert(a.files@[comp.0 as int].comps@[comp.1 as int]@ == b.files@[comp.0 as int].comps@[comp.1 as int]@);
}

proof fn lemma_up(
    p: Question,
    q: Question,
    comp: CompId,
    node: usize,
    cont: Seq<Frame>,
    visited: Seq<CompId>,
    depth: nat,
)
    requires
        same_question(p, q),
        node_in(p.world, comp, node),
        frames_in(p.world, cont),
    ensures
        proof_up(p, comp, node, cont, visited, depth) == proof_up(q, comp, node, cont, visited, depth),
    decreases MAX_DEPTH + 1 - depth, 2int, 0int,
{
    if depth <= MAX_DEPTH {
        lemma_comp_of(p.world, q.world, comp);
        let x = comp_of(p.world, comp);
        let y = comp_of(q.world, comp);
        lemma_comp(x, y);
        lemma_wrapper(p.world, comp);
        if let Ok(nodes) = x.body {
            lemma_climb(p, q, comp, nodes@, (y.body->Ok_0)@, node as int, cont, visited, depth);
        }
    }
}

proof fn lemma_climb(
    p: Question,
    q: Question,
    comp: CompId,
    x: Seq<Node>,
    y: Seq<Node>,
    node: int,
    cont: Seq<Frame>,
    visited: Seq<CompId>,
    depth: nat,
)
    requires
        same_question(p, q),
        comp_in(p.world, comp),
        comp_of(p.world, comp).body matches Ok(own) && own@ == x,
        nodes_ok(x, p.world.files@[comp.0 as int].comps@.len() as int),
        nodes_alike(x, y),
        0 <= node < x.len(),
        frames_in(p.world, cont),
        depth <= MAX_DEPTH,
    ensures
        proof_climb(p, comp, x, node, cont, visited, depth) == proof_climb(q, comp, y, node, cont, visited, depth),
    decreases MAX_DEPTH + 1 - depth, 1int, node,
{
    let a = p.world;
    let b = q.world;
    assert(x[node]@ == y[node]@);
    lemma_node(x[node], y[node]);
    match x[node].parent {
        Some(parent) => {
            assert(x[parent as int]@ == y[parent as int]@);
            lemma_node(x[parent as int], y[parent as int]);
            match x[parent as int].kind {
                NodeKind::Element { keys } => {
                    lemma_carries(keys@, (y[parent as int].kind->Element_keys)@, p.ancestor);
                    lemma_climb(p, q, comp, x, y, parent as int, cont, visited, depth);
                },
                NodeKind::ComponentUse { tag, class_keys } => {
                    lemma_files(a, b);
                    lemma_tag(a, b, comp.0, tag, y[parent as int].kind->ComponentUse_tag);
                    targets_are_in_the_world(a, comp.0, tag);
                    if let Ok(wrapper) = tag_target(a, comp.0, tag) {
                        lemma_comp_of(a, b, wrapper);
                        lemma_comp(comp_of(a, wrapper), comp_of(b, wrapper));
                        if comp_of(a, wrapper).body is Ok {
                            let inner = seq![Frame { comp, node: parent }] + cont;
                            assert(frames_in(a, inner)) by {
                                assert forall|i: int| 0 <= i < inner.len() implies node_in(
                                    a,
                                    (#[trigger] inner[i]).comp,
                                    inner[i].node,
                                ) by {
                                    if i > 0 {
                                        assert(inner[i] == cont[i - 1]);
                                    }
                                }
                            }
                            lemma_slots(p, q, wrapper, comp_of(a, wrapper).slots@, 0, inner, visited, depth + 1);
                        }
                    }
                },
                NodeKind::Slot => {
                    lemma_climb(p, q, comp, x, y, parent as int, cont, visited, depth);
                },
            }
        },
        None => {
            if cont.len() > 0 {
                let rest = cont.drop_first();
                assert(frames_in(a, rest)) by {
                    assert forall|i: int| 0 <= i < rest.len() implies node_in(
                        a,
                        (#[trigger] rest[i]).comp,
                        rest[i].node,
                    ) by {
                        assert(rest[i] == cont[i + 1]);
                    }
                }
                assert(node_in(a, cont[0].comp, cont[0].node));
                lemma_up(p, q, cont[0].comp, cont[0].node, rest, visited, depth + 1);
            } else {
                lemma_comp_of(a, b, comp);
                lemma_comp(comp_of(a, comp), comp_of(b, comp));
                lemma_links(a, b);
                lemma_at_sites(p, q, comp, world_sites(a), 0, visited.push(comp), depth + 1);
            }
        },
    }
}

proof fn lemma_slots(
    p: Question,
    q: Question,
    wrapper: CompId,
    slots: Seq<usize>,
    i: int,
    cont: Seq<Frame>,
    visited: Seq<CompId>,
    depth: nat,
)
    requires
        same_question(p, q),
        comp_in(p.world, wrapper),
        comp_of(p.world, wrapper).body is Ok,
        comp_of(p.world, wrapper).slots@ == slots,
        frames_in(p.world, cont),
        depth <= MAX_DEPTH + 1,
    ensures
        proof_slots(p, wrapper, slots, i, cont, visited, depth) == proof_slots(
            q,
            wrapper,
            slots,
            i,
            cont,
            visited,
            depth,
        ),
    decreases MAX_DEPTH + 1 - depth, 3int, slots.len() - i,
{
    if 0 <= i < slots.len() {
        lemma_wrapper(p.world, wrapper);
        assert(slots[i] < (comp_of(p.world, wrapper).body->Ok_0)@.len());
        lemma_up(p, q, wrapper, slots[i], cont, visited, depth);
        lemma_slots(p, q, wrapper, slots, i + 1, cont, visited, depth);
    }
}

proof fn lemma_at_sites(
    p: Question,
    q: Question,
    comp: CompId,
    sites: Seq<(CompId, CompId, usize)>,
    i: int,
    visited: Seq<CompId>,
    depth: nat,
)
    requires
        same_question(p, q),
        forall|k: int| 0 <= k < sites.len() ==> node_in(p.world, (#[trigger] sites[k]).1, sites[k].2),
        depth <= MAX_DEPTH + 1,
    ensures
        proof_sites(p, comp, sites, i, visited, depth) == proof_sites(q, comp, sites, i, visited, depth),
    decreases MAX_DEPTH + 1 - depth, 3int, sites.len() - i,
{
    if 0 <= i < sites.len() {
        if sites[i].0 == comp {
            lemma_up(p, q, sites[i].1, sites[i].2, seq![], visited, depth);
        }
        lemma_at_sites(p, q, comp, sites, i + 1, visited, depth);
    }
}

proof fn lemma_forward(p: Question, q: Question, comp: CompId, node: usize, s: TagRef, t: TagRef)
    requires
        same_question(p, q),
        node_in(p.world, comp, node),
        tag_ok(s, p.world.files@[comp.0 as int].comps@.len() as int),
        s@ == t@,
    ensures
        proof_forward(p, comp, node, s) == proof_forward(q, comp, node, t),
{
    let a = p.world;
    let b = q.world;
    lemma_files(a, b);
    lemma_tag(a, b, comp.0, s, t);
    targets_are_in_the_world(a, comp.0, s);
    if let Ok(wrapper) = tag_target(a, comp.0, s) {
        lemma_comp_of(a, b, wrapper);
        lemma_comp(comp_of(a, wrapper), comp_of(b, wrapper));
        lemma_wrapper(a, wrapper);
        if comp_of(a, wrapper).body is Ok {
            if let Forward::Target(target) = comp_of(a, wrapper).forward {
                lemma_up(p, q, wrapper, target, seq![Frame { comp, node }], seq![], 0);
            }
        }
    }
}

// ---------------------------------------------------------------------------
// Usages
// ---------------------------------------------------------------------------

proof fn lemma_boundary_usages(x: FileIr, y: FileIr, target: Seq<char>, n: int)
    requires
        x@ == y@,
        0 <= n <= x.boundary_usages@.len(),
    ensures
        boundary_usages(x, target, n) == boundary_usages(y, target, n),
    decreases n,
{
    if n > 0 {
        lemma_boundary_usages(x, y, target, n - 1);
        lemma_file(x, y);
        assert(x.boundary_usages@[n - 1].0@ == y.boundary_usages@[n - 1].0@);
    }
}

proof fn lemma_element_usages(
    p: Question,
    q: Question,
    at: CompId,
    node: usize,
    x: Seq<(SelectorKey, (usize, usize))>,
    y: Seq<(SelectorKey, (usize, usize))>,
    target: KeyModel,
    n: int,
)
    requires
        same_question(p, q),
        node_in(p.world, at, node),
        keys_alike(x, y),
        0 <= n <= x.len(),
    ensures
        element_usages(p, at, node, x, target, n) == element_usages(q, at, node, y, target, n),
    decreases n,
{
    if n > 0 {
        lemma_element_usages(p, q, at, node, x, y, target, n - 1);
        lemma_files(p.world, q.world);
        lemma_file(p.world.files@[at.0 as int], q.world.files@[at.0 as int]);
        assert(x[n - 1].0@ == y[n - 1].0@);
        lemma_up(p, q, at, node, seq![], seq![], 0);
    }
}

proof fn lemma_forwarded_usages(
    p: Question,
    q: Question,
    at: CompId,
    node: usize,
    s: TagRef,
    t: TagRef,
    x: Seq<(String, (usize, usize))>,
    y: Seq<(String, (usize, usize))>,
    target: Seq<char>,
    n: int,
)
    requires
        same_question(p, q),
        node_in(p.world, at, node),
        tag_ok(s, p.world.files@[at.0 as int].comps@.len() as int),
        s@ == t@,
        classes_alike(x, y),
        0 <= n <= x.len(),
    ensures
        forwarded_usages(p, at, node, s, x, target, n) == forwarded_usages(q, at, node, t, y, target, n),
    decreases n,
{
    if n > 0 {
        lemma_forwarded_usages(p, q, at, node, s, t, x, y, target, n - 1);
        lemma_files(p.world, q.world);
        lemma_file(p.world.files@[at.0 as int], q.world.files@[at.0 as int]);
        assert(x[n - 1].0@ == y[n - 1].0@);
        lemma_forward(p, q, at, node, s, t);
    }
}

proof fn lemma_node_usages(
    p: Question,
    q: Question,
    at: CompId,
    x: Seq<Node>,
    y: Seq<Node>,
    target: KeyModel,
    n: int,
)
    requires
        same_question(p, q),
        comp_in(p.world, at),
        comp_of(p.world, at).body matches Ok(own) && own@ == x,
        nodes_ok(x, p.world.files@[at.0 as int].comps@.len() as int),
        nodes_alike(x, y),
        0 <= n <= x.len() <= usize::MAX,
    ensures
        node_usages(p, at, x, target, n) == node_usages(q, at, y, target, n),
    decreases n,
{
    if n > 0 {
        lemma_node_usages(p, q, at, x, y, target, n - 1);
        assert(x[n - 1]@ == y[n - 1]@);
        lemma_node(x[n - 1], y[n - 1]);
        let node = (n - 1) as usize;
        match x[n - 1].kind {
            NodeKind::Element { keys } => {
                lemma_element_usages(
                    p,
                    q,
                    at,
                    node,
                    keys@,
                    (y[n - 1].kind->Element_keys)@,
                    target,
                    keys@.len() as int,
                );
            },
            NodeKind::ComponentUse { tag, class_keys } => {
                if let KeyModel::Class(name) = target {
                    lemma_forwarded_usages(
                        p,
                        q,
                        at,
                        node,
                        tag,
                        y[n - 1].kind->ComponentUse_tag,
                        class_keys@,
                        (y[n - 1].kind->ComponentUse_class_keys)@,
                        name,
                        class_keys@.len() as int,
                    );
                }
            },
            NodeKind::Slot => {},
        }
    }
}

proof fn lemma_comp_usages(p: Question, q: Question, file_ix: usize, target: KeyModel, n: int)
    requires
        same_question(p, q),
        file_ix < p.world.files@.len(),
        0 <= n <= p.world.files@[file_ix as int].comps@.len(),
    ensures
        comp_usages(p, file_ix, target, n) == comp_usages(q, file_ix, target, n),
    decreases n,
{
    if n > 0 {
        lemma_comp_usages(p, q, file_ix, target, n - 1);
        let a = p.world;
        lemma_world_fits(a);
        assert(a.files@[file_ix as int].comps@.len() <= usize::MAX);
        let at = (file_ix, (n - 1) as usize);
        lemma_comp_of(a, q.world, at);
        let x = comp_of(a, at);
        let y = comp_of(q.world, at);
        lemma_comp(x, y);
        lemma_wrapper(a, at);
        assert(x == a.files@[file_ix as int].comps@[n - 1]);
        if let Ok(nodes) = x.body {
            lemma_node_usages(p, q, at, nodes@, (y.body->Ok_0)@, target, nodes@.len() as int);
        }
    }
}

proof fn lemma_file_usages(p: Question, q: Question, target: KeyModel, n: int)
    requires
        same_question(p, q),
        0 <= n <= p.world.files@.len(),
    ensures
        file_usages(p, target, n) == file_usages(q, target, n),
    decreases n,
{
    if n > 0 {
        lemma_file_usages(p, q, target, n - 1);
        lemma_files(p.world, q.world);
        let x = p.world.files@[n - 1];
        let y = q.world.files@[n - 1];
        lemma_file(x, y);
        lemma_boundary_usages(x, y, key_name(target), x.boundary_usages@.len() as int);
        lemma_comp_usages(p, q, (n - 1) as usize, target, x.comps@.len() as int);
    }
}

proof fn lemma_unsound(a: World, b: World)
    requires
        alike(a, b),
    ensures
        world_unsound(a) == world_unsound(b),
{
    lemma_files(a, b);
    assert forall|i: int| 0 <= i < a.files@.len() implies (#[trigger] a.files@[i]).unsound
        == b.files@[i].unsound by {
        lemma_file(a.files@[i], b.files@[i]);
    }
    if exists|i: int| 0 <= i < a.files@.len() && (#[trigger] a.files@[i]).unsound {
        let i = choose|i: int| 0 <= i < a.files@.len() && (#[trigger] a.files@[i]).unsound;
        assert(b.files@[i].unsound);
    }
    if exists|i: int| 0 <= i < b.files@.len() && (#[trigger] b.files@[i]).unsound {
        let i = choose|i: int| 0 <= i < b.files@.len() && (#[trigger] b.files@[i]).unsound;
        assert(a.files@[i].unsound);
    }
}

// ---------------------------------------------------------------------------
// Weaker questions
// ---------------------------------------------------------------------------

/// The lists hold the same usages, and what is proven in the second is proven
/// in the first.
pub open spec fn proves_as_much(weak: Seq<UsageModel>, strong: Seq<UsageModel>) -> bool {
    &&& weak.len() == strong.len()
    &&& forall|i: int|
        0 <= i < weak.len() ==> {
            &&& (#[trigger] weak[i]).file == strong[i].file
            &&& weak[i].span == strong[i].span
            &&& strong[i].result is Ok ==> weak[i].result is Ok
        }
}

proof fn lemma_as_much(a: Seq<UsageModel>, b: Seq<UsageModel>, c: Seq<UsageModel>, d: Seq<UsageModel>)
    requires
        proves_as_much(a, b),
        proves_as_much(c, d),
    ensures
        proves_as_much(a + c, b + d),
{
    assert forall|i: int| 0 <= i < (a + c).len() implies {
        &&& (#[trigger] (a + c)[i]).file == (b + d)[i].file
        &&& (a + c)[i].span == (b + d)[i].span
        &&& (b + d)[i].result is Ok ==> (a + c)[i].result is Ok
    } by {
        if i < a.len() {
            assert((a + c)[i] == a[i]);
        } else {
            assert((a + c)[i] == c[i - a.len()]);
        }
    }
}

proof fn lemma_weaker_element(
    weak: Question,
    strong: Question,
    at: CompId,
    node: usize,
    keys: Seq<(SelectorKey, (usize, usize))>,
    target: KeyModel,
    n: int,
)
    requires
        asks_no_more(weak, strong),
    ensures
        proves_as_much(
            element_usages(weak, at, node, keys, target, n),
            element_usages(strong, at, node, keys, target, n),
        ),
    decreases n,
{
    if n > 0 {
        lemma_weaker_element(weak, strong, at, node, keys, target, n - 1);
        if proof_up(strong, at, node, seq![], seq![], 0) is Ok {
            proofs_carry_over(weak, strong, at, node, seq![], seq![], 0);
        }
    }
}

proof fn lemma_weaker_forwarded(
    weak: Question,
    strong: Question,
    at: CompId,
    node: usize,
    tag: TagRef,
    keys: Seq<(String, (usize, usize))>,
    target: Seq<char>,
    n: int,
)
    requires
        asks_no_more(weak, strong),
    ensures
        proves_as_much(
            forwarded_usages(weak, at, node, tag, keys, target, n),
            forwarded_usages(strong, at, node, tag, keys, target, n),
        ),
    decreases n,
{
    if n > 0 {
        lemma_weaker_forwarded(weak, strong, at, node, tag, keys, target, n - 1);
        if proof_forward(strong, at, node, tag) is Ok {
            let wrapper = tag_target(strong.world, at.0, tag)->Ok_0;
            if let Forward::Target(place) = comp_of(strong.world, wrapper).forward {
                proofs_carry_over(weak, strong, wrapper, place, seq![Frame { comp: at, node }], seq![], 0);
            }
        }
    }
}

proof fn lemma_weaker_nodes(
    weak: Question,
    strong: Question,
    at: CompId,
    nodes: Seq<Node>,
    target: KeyModel,
    n: int,
)
    requires
        asks_no_more(weak, strong),
    ensures
        proves_as_much(node_usages(weak, at, nodes, target, n), node_usages(strong, at, nodes, target, n)),
    decreases n,
{
    if n > 0 {
        lemma_weaker_nodes(weak, strong, at, nodes, target, n - 1);
        let a = node_usages(weak, at, nodes, target, n - 1);
        let b = node_usages(strong, at, nodes, target, n - 1);
        let node = (n - 1) as usize;
        match nodes[n - 1].kind {
            NodeKind::Element { keys } => {
                let count = keys@.len() as int;
                lemma_weaker_element(weak, strong, at, node, keys@, target, count);
                lemma_as_much(
                    a,
                    b,
                    element_usages(weak, at, node, keys@, target, count),
                    element_usages(strong, at, node, keys@, target, count),
                );
            },
            NodeKind::ComponentUse { tag, class_keys } => {
                match target {
                    KeyModel::Class(name) => {
                        let count = class_keys@.len() as int;
                        lemma_weaker_forwarded(weak, strong, at, node, tag, class_keys@, name, count);
                        lemma_as_much(
                            a,
                            b,
                            forwarded_usages(weak, at, node, tag, class_keys@, name, count),
                            forwarded_usages(strong, at, node, tag, class_keys@, name, count),
                        );
                    },
                    KeyModel::Id(_) => {
                        lemma_as_much(a, b, seq![], seq![]);
                    },
                }
            },
            NodeKind::Slot => {
                lemma_as_much(a, b, seq![], seq![]);
            },
        }
    }
}

proof fn lemma_weaker_comps(weak: Question, strong: Question, file_ix: usize, target: KeyModel, n: int)
    requires
        asks_no_more(weak, strong),
    ensures
        proves_as_much(comp_usages(weak, file_ix, target, n), comp_usages(strong, file_ix, target, n)),
    decreases n,
{
    if n > 0 {
        lemma_weaker_comps(weak, strong, file_ix, target, n - 1);
        let a = comp_usages(weak, file_ix, target, n - 1);
        let b = comp_usages(strong, file_ix, target, n - 1);
        let at = (file_ix, (n - 1) as usize);
        match weak.world.files@[file_ix as int].comps@[n - 1].body {
            Ok(nodes) => {
                let count = nodes@.len() as int;
                lemma_weaker_nodes(weak, strong, at, nodes@, target, count);
                lemma_as_much(
                    a,
                    b,
                    node_usages(weak, at, nodes@, target, count),
                    node_usages(strong, at, nodes@, target, count),
                );
            },
            Err(_) => {
                lemma_as_much(a, b, seq![], seq![]);
            },
        }
    }
}

proof fn lemma_weaker_files(weak: Question, strong: Question, target: KeyModel, n: int)
    requires
        asks_no_more(weak, strong),
    ensures
        proves_as_much(file_usages(weak, target, n), file_usages(strong, target, n)),
    decreases n,
{
    if n > 0 {
        lemma_weaker_files(weak, strong, target, n - 1);
        let file = weak.world.files@[n - 1];
        let outside = boundary_usages(file, key_name(target), file.boundary_usages@.len() as int);
        let count = file.comps@.len() as int;
        lemma_as_much(
            file_usages(weak, target, n - 1),
            file_usages(strong, target, n - 1),
            outside,
            outside,
        );
        lemma_weaker_comps(weak, strong, (n - 1) as usize, target, count);
        lemma_as_much(
            file_usages(weak, target, n - 1) + outside,
            file_usages(strong, target, n - 1) + outside,
            comp_usages(weak, (n - 1) as usize, target, count),
            comp_usages(strong, (n - 1) as usize, target, count),
        );
    }
}

// ---------------------------------------------------------------------------
// Laws
// ---------------------------------------------------------------------------

/// Both outcomes report the same usages, in the same order.
pub open spec fn same_usages(a: ProofOutcome, b: ProofOutcome) -> bool {
    &&& a.usages@.len() == b.usages@.len()
    &&& forall|i: int|
        0 <= i < a.usages@.len() ==> (#[trigger] a.usages@[i]).file@ == b.usages@[i].file@ && a.usages@[i].span
            == b.usages@[i].span
}

/// An outcome depends on the files and the question alone: two proofs of one
/// relationship agree in every usage and as a whole.
pub proof fn outcomes_are_determined(
    a: ProofOutcome,
    b: ProofOutcome,
    files: Seq<(&str, &str)>,
    css_path: Seq<char>,
    ancestor: KeyModel,
    relation: Relation,
    target: KeyModel,
    closed_world: bool,
)
    requires
        answers_for(a, files, css_path, ancestor, relation, target, closed_world),
        answers_for(b, files, css_path, ancestor, relation, target, closed_world),
    ensures
        same_usages(a, b),
        forall|i: int| 0 <= i < a.usages@.len() ==> (#[trigger] a.usages@[i]).proven == b.usages@[i].proven,
        a.aggregate_proven == b.aggregate_proven,
{
    weaker_questions_keep_proofs(
        a,
        b,
        files,
        css_path,
        ancestor,
        target,
        (relation, closed_world),
        (relation, closed_world),
    );
    weaker_questions_keep_proofs(
        b,
        a,
        files,
        css_path,
        ancestor,
        target,
        (relation, closed_world),
        (relation, closed_world),
    );
    assert forall|i: int| 0 <= i < a.usages@.len() implies (#[trigger] a.usages@[i]).proven
        == b.usages@[i].proven by {
        assert(b.usages@[i].proven ==> a.usages@[i].proven);
    }
}

/// A proof carries over to a weaker question: of the same files and target, a
/// question that asks for a descendant where the other asks for a direct child,
/// or in a closed world where the other allows for unknown importers, has the
/// same usages, and what is proven under the stronger question, one by one and
/// as a whole, is proven under the weaker one.
pub proof fn weaker_questions_keep_proofs(
    weak: ProofOutcome,
    strong: ProofOutcome,
    files: Seq<(&str, &str)>,
    css_path: Seq<char>,
    ancestor: KeyModel,
    target: KeyModel,
    less: (Relation, bool),
    more: (Relation, bool),
)
    requires
        answers_for(weak, files, css_path, ancestor, less.0, target, less.1),
        answers_for(strong, files, css_path, ancestor, more.0, target, more.1),
        more.0 == less.0 || less.0 == Relation::Descendant,
        more.1 ==> less.1,
    ensures
        same_usages(weak, strong),
        forall|i: int| 0 <= i < weak.usages@.len() && strong.usages@[i].proven ==> (#[trigger] weak.usages@[i]).proven,
        strong.aggregate_proven ==> weak.aggregate_proven,
{
    let a = choose|world: World|
        is_world(world, files, css_path) && #[trigger] outcome_ok(
            weak,
            (Question { world, relation: less.0, ancestor, closed_world: less.1 }),
            target,
        );
    let b = choose|world: World|
        is_world(world, files, css_path) && #[trigger] outcome_ok(
            strong,
            (Question { world, relation: more.0, ancestor, closed_world: more.1 }),
            target,
        );
    let p = Question { world: a, relation: less.0, ancestor, closed_world: less.1 };
    let q = Question { world: b, relation: more.0, ancestor, closed_world: more.1 };
    let r = Question { world: a, relation: more.0, ancestor, closed_world: more.1 };
    assert(alike(r.world, q.world));
    lemma_files(a, b);
    lemma_file_usages(r, q, target, a.files@.len() as int);
    lemma_weaker_files(p, r, target, a.files@.len() as int);
    lemma_unsound(a, b);
    let found = world_usages(p, target);
    let sought = world_usages(q, target);
    assert(proves_as_much(found, sought));
    assert forall|i: int| 0 <= i < weak.usages@.len() implies (#[trigger] weak.usages@[i]).file@
        == strong.usages@[i].file@ && weak.usages@[i].span == strong.usages@[i].span && (strong.usages@[i].proven
        ==> weak.usages@[i].proven) by {
        assert(weak.usages@[i].reports(found[i]));
        assert(strong.usages@[i].reports(sought[i]));
    }
    if strong.aggregate_proven {
        lemma_first_failure(sought, 0);
        lemma_first_failure(found, 0);
        if first_failure(found, 0) is Some {
            let k = choose|k: int| 0 <= k < found.len() && (#[trigger] found[k]).result is Err;
            assert(sought[k].result is Ok);
        }
    }
}

/// A proven direct child is a proven descendant.
pub proof fn a_proven_child_is_a_proven_descendant(
    descendant: ProofOutcome,
    child: ProofOutcome,
    files: Seq<(&str, &str)>,
    css_path: Seq<char>,
    ancestor: KeyModel,
    target: KeyModel,
    closed_world: bool,
)
    requires
        answers_for(descendant, files, css_path, ancestor, Relation::Descendant, target, closed_world),
        answers_for(child, files, css_path, ancestor, Relation::Child, target, closed_world),
    ensures
        same_usages(descendant, child),
        child.aggregate_proven ==> descendant.aggregate_proven,
{
    weaker_questions_keep_proofs(
        descendant,
        child,
        files,
        css_path,
        ancestor,
        target,
        (Relation::Descendant, closed_world),
        (Relation::Child, closed_world),
    );
}

} // verus!
