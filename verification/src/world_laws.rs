//! What a proven relationship means.
use crate::jsx_graph::{
    boundary_usages, carries, comp_of, comp_sites, comp_usages, element_usages, file_sites, file_usages,
    forwarded_usages, key_name, lemma_world_fits, mark_of, node_sites, node_usages, proof_climb, proof_forward,
    proof_sites, proof_slots, proof_up, rendered, tag_target, world_marks, world_sites, world_usages, CompId, Frame,
    Mark, Node, NodeKind, Question, Reason, Relation, Site, UsageModel, World, MAX_DEPTH,
};
use crate::selector::{KeyModel, SelectorKey};
use vstd::prelude::*;

verus! {

// ---------------------------------------------------------------------------
// Render sites
// ---------------------------------------------------------------------------

/// The nodes of a component.
pub open spec fn nodes_of(world: World, comp: CompId) -> Seq<Node> {
    (comp_of(world, comp).body->Ok_0)@
}

/// The component is in the world, and has nodes.
pub open spec fn has_nodes(world: World, comp: CompId) -> bool {
    comp.0 < world.files@.len() && comp.1 < world.files@[comp.0 as int].comps@.len() && comp_of(world, comp).body is Ok
}

/// The node of a component renders another.
pub open spec fn renders(world: World, at: CompId, node: int, target: CompId) -> bool {
    &&& has_nodes(world, at)
    &&& 0 <= node < nodes_of(world, at).len()
    &&& nodes_of(world, at)[node].kind matches NodeKind::ComponentUse { tag, class_keys } && tag_target(world, at.0, tag)
        == Ok::<CompId, Reason>(target)
}

proof fn lemma_node_site(world: World, at: CompId, nodes: Seq<Node>, n: int, k: int, target: CompId)
    requires
        0 <= k < n <= nodes.len() <= usize::MAX,
        nodes[k].kind matches NodeKind::ComponentUse { tag, class_keys } && tag_target(world, at.0, tag) == Ok::<
            CompId,
            Reason,
        >(target),
    ensures
        node_sites(world, at, nodes, n).contains((target, at, k as usize)),
    decreases n,
{
    let before = node_sites(world, at, nodes, n - 1);
    let after = node_sites(world, at, nodes, n);
    let site = (target, at, k as usize);
    if k < n - 1 {
        lemma_node_site(world, at, nodes, n - 1, k, target);
        let i = choose|i: int| 0 <= i < before.len() && before[i] == site;
        assert(after[i] == site);
    } else {
        assert(after[before.len() as int] == site);
    }
}

proof fn lemma_comp_site(world: World, at: CompId, n: int, k: int, target: CompId)
    requires
        renders(world, at, k, target),
        at.1 < n <= world.files@[at.0 as int].comps@.len(),
    ensures
        comp_sites(world, at.0, n).contains((target, at, k as usize)),
    decreases n,
{
    lemma_world_fits(world);
    let before = comp_sites(world, at.0, n - 1);
    let after = comp_sites(world, at.0, n);
    let site = (target, at, k as usize);
    if at.1 < n - 1 {
        lemma_comp_site(world, at, n - 1, k, target);
        let i = choose|i: int| 0 <= i < before.len() && before[i] == site;
        assert(after[i] == site);
    } else {
        let nodes = nodes_of(world, at);
        assert(world.files@[at.0 as int].comps@[at.1 as int].body matches Ok(own) && own@ == nodes);
        assert(nodes.len() <= usize::MAX);
        lemma_node_site(world, at, nodes, nodes.len() as int, k, target);
        let own = node_sites(world, at, nodes, nodes.len() as int);
        let i = choose|i: int| 0 <= i < own.len() && own[i] == site;
        assert(after[before.len() + i] == site);
    }
}

proof fn lemma_file_site(world: World, at: CompId, n: int, k: int, target: CompId)
    requires
        renders(world, at, k, target),
        at.0 < n <= world.files@.len(),
    ensures
        file_sites(world, n).contains((target, at, k as usize)),
    decreases n,
{
    lemma_world_fits(world);
    let before = file_sites(world, n - 1);
    let after = file_sites(world, n);
    let site = (target, at, k as usize);
    if at.0 < n - 1 {
        lemma_file_site(world, at, n - 1, k, target);
        let i = choose|i: int| 0 <= i < before.len() && before[i] == site;
        assert(after[i] == site);
    } else {
        let count = world.files@[n - 1].comps@.len() as int;
        lemma_comp_site(world, at, count, k, target);
        let own = comp_sites(world, at.0, count);
        let i = choose|i: int| 0 <= i < own.len() && own[i] == site;
        assert(after[before.len() + i] == site);
    }
}

/// Every node that renders a component is one of its render sites.
pub proof fn every_render_site_is_known(world: World, at: CompId, node: usize, target: CompId)
    requires
        renders(world, at, node as int, target),
    ensures
        world_sites(world).contains((target, at, node)),
{
    lemma_file_site(world, at, world.files@.len() as int, node as int, target);
}

// ---------------------------------------------------------------------------
// Ancestry
// ---------------------------------------------------------------------------

/// A place in what is rendered: a node of a component, and the invocations that
/// its slots were filled at.
pub struct Place {
    pub comp: CompId,
    pub node: int,
    pub within: Seq<Frame>,
}

/// The node above a place in its component.
pub open spec fn above(world: World, place: Place) -> Option<usize> {
    nodes_of(world, place.comp)[place.node].parent
}

/// What stands above the place may stand at the other place: the parent in the
/// component, unless it carries the ancestor; the place of the children inside
/// the component that the parent renders; and above a component's root
/// everything that renders the component.
pub open spec fn leads_to(question: Question, low: Place, high: Place) -> bool {
    let world = question.world;
    match above(world, low) {
        Some(parent) => match nodes_of(world, low.comp)[parent as int].kind {
            NodeKind::Element { keys } => !carries(keys@, question.ancestor) && question.relation == Relation::Descendant
                && high == (Place { node: parent as int, ..low }),
            NodeKind::Slot => high == (Place { node: parent as int, ..low }),
            NodeKind::ComponentUse { tag, class_keys } => {
                &&& tag_target(world, low.comp.0, tag) == Ok::<CompId, Reason>(high.comp)
                &&& 0 <= high.node <= usize::MAX
                &&& comp_of(world, high.comp).slots@.contains(high.node as usize)
                &&& high.within == seq![Frame { comp: low.comp, node: parent }] + low.within
            },
        },
        None => if low.within.len() > 0 {
            high == (Place {
                comp: low.within[0].comp,
                node: low.within[0].node as int,
                within: low.within.drop_first(),
            })
        } else {
            high.within.len() == 0 && 0 <= high.node <= usize::MAX && renders(world, high.comp, high.node, low.comp)
        },
    }
}

/// The ancestor is missing above the place: the element there is not it and had
/// to be, the component there cannot be followed, or the component is rendered
/// nowhere, or somewhere that is not known.
pub open spec fn misses(question: Question, place: Place) -> bool {
    let world = question.world;
    match above(world, place) {
        Some(parent) => match nodes_of(world, place.comp)[parent as int].kind {
            NodeKind::Element { keys } => !carries(keys@, question.ancestor) && question.relation == Relation::Child,
            NodeKind::Slot => false,
            NodeKind::ComponentUse { tag, class_keys } => match tag_target(world, place.comp.0, tag) {
                Ok(wrapper) => comp_of(world, wrapper).children_bad || comp_of(world, wrapper).slots@.len() == 0
                    || comp_of(world, wrapper).body is Err,
                Err(_) => true,
            },
        },
        None => place.within.len() == 0 && (!question.closed_world && comp_of(world, place.comp).exported || (
        exists|i: int| 0 <= i < world_marks(world).len() && (#[trigger] world_marks(world)[i]).0 == place.comp) || !(
        exists|at: CompId, node: int| #[trigger] renders(world, at, node, place.comp))),
    }
}

/// The relationship was proven at the place.
pub open spec fn proven_at(question: Question, place: Place) -> bool {
    0 <= place.node <= usize::MAX && exists|visited: Seq<CompId>, depth: nat| #[trigger]
        proof_up(question, place.comp, place.node as usize, place.within, visited, depth) is Ok
}

proof fn lemma_slots(
    question: Question,
    wrapper: CompId,
    slots: Seq<usize>,
    i: int,
    cont: Seq<Frame>,
    visited: Seq<CompId>,
    depth: nat,
    k: int,
)
    requires
        0 <= i <= k < slots.len(),
        depth <= MAX_DEPTH + 1,
        proof_slots(question, wrapper, slots, i, cont, visited, depth) is Ok,
    ensures
        proof_up(question, wrapper, slots[k], cont, visited, depth) is Ok,
    decreases k - i,
{
    if i < k {
        lemma_slots(question, wrapper, slots, i + 1, cont, visited, depth, k);
    }
}

proof fn lemma_sites(
    question: Question,
    comp: CompId,
    sites: Seq<Site>,
    i: int,
    visited: Seq<CompId>,
    depth: nat,
    k: int,
)
    requires
        0 <= i <= k < sites.len(),
        sites[k].0 == comp,
        depth <= MAX_DEPTH + 1,
        proof_sites(question, comp, sites, i, visited, depth) is Ok,
    ensures
        proof_up(question, sites[k].1, sites[k].2, seq![], visited, depth) is Ok,
    decreases k - i,
{
    if i < k {
        lemma_sites(question, comp, sites, i + 1, visited, depth, k);
    }
}

proof fn lemma_mark(marks: Seq<Mark>, comp: CompId, i: int)
    requires
        0 <= i <= marks.len(),
    ensures
        mark_of(marks, comp, i) is None ==> forall|k: int| i <= k < marks.len() ==> (#[trigger] marks[k]).0 != comp,
    decreases marks.len() - i,
{
    if i < marks.len() {
        lemma_mark(marks, comp, i + 1);
    }
}

proof fn lemma_node_site_of(world: World, at: CompId, nodes: Seq<Node>, n: int)
    requires
        0 <= n <= nodes.len() <= usize::MAX,
        has_nodes(world, at),
        nodes == nodes_of(world, at),
    ensures
        forall|i: int|
            0 <= i < node_sites(world, at, nodes, n).len() ==> renders(
                world,
                (#[trigger] node_sites(world, at, nodes, n)[i]).1,
                node_sites(world, at, nodes, n)[i].2 as int,
                node_sites(world, at, nodes, n)[i].0,
            ),
    decreases n,
{
    if n > 0 {
        lemma_node_site_of(world, at, nodes, n - 1);
        let before = node_sites(world, at, nodes, n - 1);
        let after = node_sites(world, at, nodes, n);
        assert forall|i: int| 0 <= i < after.len() implies renders(
            world,
            (#[trigger] after[i]).1,
            after[i].2 as int,
            after[i].0,
        ) by {
            if i < before.len() {
                assert(after[i] == before[i]);
            }
        }
    }
}

proof fn lemma_comp_site_of(world: World, file_ix: usize, n: int)
    requires
        file_ix < world.files@.len(),
        0 <= n <= world.files@[file_ix as int].comps@.len(),
    ensures
        forall|i: int|
            0 <= i < comp_sites(world, file_ix, n).len() ==> renders(
                world,
                (#[trigger] comp_sites(world, file_ix, n)[i]).1,
                comp_sites(world, file_ix, n)[i].2 as int,
                comp_sites(world, file_ix, n)[i].0,
            ),
    decreases n,
{
    if n > 0 {
        lemma_world_fits(world);
        lemma_comp_site_of(world, file_ix, n - 1);
        let before = comp_sites(world, file_ix, n - 1);
        let after = comp_sites(world, file_ix, n);
        let at = (file_ix, (n - 1) as usize);
        assert(world.files@[file_ix as int].comps@.len() <= usize::MAX);
        assert(at.1 == n - 1);
        let body = world.files@[file_ix as int].comps@[n - 1].body;
        if body is Ok {
            let nodes = nodes_of(world, at);
            assert(nodes.len() <= usize::MAX);
            lemma_node_site_of(world, at, nodes, nodes.len() as int);
        }
        assert forall|i: int| 0 <= i < after.len() implies renders(
            world,
            (#[trigger] after[i]).1,
            after[i].2 as int,
            after[i].0,
        ) by {
            if i < before.len() {
                assert(after[i] == before[i]);
            } else {
                let nodes = nodes_of(world, at);
                let own = node_sites(world, at, nodes, nodes.len() as int);
                assert(after[i] == own[i - before.len()]);
            }
        }
    }
}

proof fn lemma_file_site_of(world: World, n: int)
    requires
        0 <= n <= world.files@.len(),
    ensures
        forall|i: int|
            0 <= i < file_sites(world, n).len() ==> renders(
                world,
                (#[trigger] file_sites(world, n)[i]).1,
                file_sites(world, n)[i].2 as int,
                file_sites(world, n)[i].0,
            ),
    decreases n,
{
    if n > 0 {
        lemma_world_fits(world);
        lemma_file_site_of(world, n - 1);
        let before = file_sites(world, n - 1);
        let after = file_sites(world, n);
        let count = world.files@[n - 1].comps@.len() as int;
        lemma_comp_site_of(world, (n - 1) as usize, count);
        let own = comp_sites(world, (n - 1) as usize, count);
        assert forall|i: int| 0 <= i < after.len() implies renders(
            world,
            (#[trigger] after[i]).1,
            after[i].2 as int,
            after[i].0,
        ) by {
            if i < before.len() {
                assert(after[i] == before[i]);
            } else {
                assert(after[i] == own[i - before.len()]);
            }
        }
    }
}

proof fn lemma_not_missed(question: Question, place: Place)
    requires
        proven_at(question, place),
    ensures
        !misses(question, place),
{
    let world = question.world;
    let (visited, depth) = choose|visited: Seq<CompId>, depth: nat| #[trigger]
        proof_up(question, place.comp, place.node as usize, place.within, visited, depth) is Ok;
    lemma_mark(world_marks(world), place.comp, 0);
    lemma_file_site_of(world, world.files@.len() as int);
    let nodes = nodes_of(world, place.comp);
    assert(proof_climb(question, place.comp, nodes, place.node, place.within, visited, depth) is Ok);
    if above(world, place) is None && place.within.len() == 0 {
        let sites = world_sites(world);
        assert(rendered(sites, place.comp));
        let i = choose|i: int| 0 <= i < sites.len() && (#[trigger] sites[i]).0 == place.comp;
        assert(renders(world, sites[i].1, sites[i].2 as int, place.comp));
    }
}

proof fn lemma_climbs(question: Question, low: Place, high: Place)
    requires
        proven_at(question, low),
        leads_to(question, low, high),
    ensures
        proven_at(question, high),
{
    let world = question.world;
    let (visited, depth) = choose|visited: Seq<CompId>, depth: nat| #[trigger]
        proof_up(question, low.comp, low.node as usize, low.within, visited, depth) is Ok;
    let nodes = nodes_of(world, low.comp);
    assert(proof_climb(question, low.comp, nodes, low.node, low.within, visited, depth) is Ok);
    match above(world, low) {
        Some(parent) => match nodes[parent as int].kind {
            NodeKind::Element { keys } => {
                assert(proof_up(question, high.comp, parent, high.within, visited, depth) is Ok);
            },
            NodeKind::Slot => {
                assert(proof_up(question, high.comp, parent, high.within, visited, depth) is Ok);
            },
            NodeKind::ComponentUse { tag, class_keys } => {
                let slots = comp_of(world, high.comp).slots@;
                let k = choose|k: int| 0 <= k < slots.len() && slots[k] == high.node as usize;
                lemma_slots(question, high.comp, slots, 0, high.within, visited, depth + 1, k);
                assert(proof_up(question, high.comp, high.node as usize, high.within, visited, depth + 1) is Ok);
            },
        },
        None => {
            if low.within.len() > 0 {
                assert(proof_up(question, high.comp, high.node as usize, high.within, visited, depth + 1) is Ok);
            } else {
                let sites = world_sites(world);
                every_render_site_is_known(world, high.comp, high.node as usize, low.comp);
                let k = choose|k: int| 0 <= k < sites.len() && sites[k] == (low.comp, high.comp, high.node as usize);
                lemma_sites(question, low.comp, sites, 0, visited.push(low.comp), depth + 1, k);
                assert(high.within =~= seq![]);
                assert(proof_up(
                    question,
                    high.comp,
                    high.node as usize,
                    high.within,
                    visited.push(low.comp),
                    depth + 1,
                ) is Ok);
            }
        },
    }
}

/// A proven relationship holds wherever the element is rendered: however one
/// climbs from it, through parents, wrappers and render sites, one never comes
/// to a place above which the ancestor is missing.
pub proof fn proven_elements_lie_under_the_ancestor(question: Question, comp: CompId, node: usize, climb: Seq<Place>)
    requires
        proof_up(question, comp, node, seq![], seq![], 0) is Ok,
        climb.len() > 0,
        climb[0] == (Place { comp, node: node as int, within: seq![] }),
        forall|i: int, j: int|
            0 <= i && j == i + 1 && j < climb.len() ==> leads_to(question, #[trigger] climb[i], #[trigger] climb[j]),
    ensures
        forall|i: int| 0 <= i < climb.len() ==> !misses(question, #[trigger] climb[i]),
{
    assert(proven_at(question, climb[0]));
    assert forall|i: int| 0 <= i < climb.len() implies !misses(question, #[trigger] climb[i]) by {
        lemma_climb(question, climb, i);
        lemma_not_missed(question, climb[i]);
    }
}

proof fn lemma_climb(question: Question, climb: Seq<Place>, i: int)
    requires
        0 <= i < climb.len(),
        proven_at(question, climb[0]),
        forall|k: int, j: int|
            0 <= k && j == k + 1 && j < climb.len() ==> leads_to(question, #[trigger] climb[k], #[trigger] climb[j]),
    ensures
        proven_at(question, climb[i]),
    decreases i,
{
    if i > 0 {
        lemma_climb(question, climb, i - 1);
        assert(leads_to(question, climb[i - 1], climb[i]));
        lemma_climbs(question, climb[i - 1], climb[i]);
    }
}

// ---------------------------------------------------------------------------
// Usages
// ---------------------------------------------------------------------------

/// The usage is in one list or the other.
proof fn lemma_joined(a: Seq<UsageModel>, b: Seq<UsageModel>, usage: UsageModel)
    ensures
        a.contains(usage) || b.contains(usage) ==> (a + b).contains(usage),
{
    if a.contains(usage) {
        let i = choose|i: int| 0 <= i < a.len() && a[i] == usage;
        assert((a + b)[i] == usage);
    }
    if b.contains(usage) {
        let i = choose|i: int| 0 <= i < b.len() && b[i] == usage;
        assert((a + b)[a.len() + i] == usage);
    }
}

proof fn lemma_element(
    question: Question,
    at: CompId,
    node: usize,
    keys: Seq<(SelectorKey, (usize, usize))>,
    target: KeyModel,
    n: int,
    k: int,
)
    requires
        0 <= k < n <= keys.len(),
        keys[k].0@ == target,
    ensures
        element_usages(question, at, node, keys, target, n).contains(
            UsageModel {
                file: question.world.files@[at.0 as int].path@,
                span: keys[k].1,
                result: proof_up(question, at, node, seq![], seq![], 0),
            },
        ),
    decreases n,
{
    let usage = UsageModel {
        file: question.world.files@[at.0 as int].path@,
        span: keys[k].1,
        result: proof_up(question, at, node, seq![], seq![], 0),
    };
    let before = element_usages(question, at, node, keys, target, n - 1);
    let after = element_usages(question, at, node, keys, target, n);
    if k < n - 1 {
        lemma_element(question, at, node, keys, target, n - 1, k);
        let i = choose|i: int| 0 <= i < before.len() && before[i] == usage;
        assert(after[i] == usage);
    } else {
        assert(after[before.len() as int] == usage);
    }
}

proof fn lemma_forwarded(
    question: Question,
    at: CompId,
    node: usize,
    tag: crate::jsx_graph::TagRef,
    keys: Seq<(String, (usize, usize))>,
    target: Seq<char>,
    n: int,
    k: int,
)
    requires
        0 <= k < n <= keys.len(),
        keys[k].0@ == target,
    ensures
        forwarded_usages(question, at, node, tag, keys, target, n).contains(
            UsageModel {
                file: question.world.files@[at.0 as int].path@,
                span: keys[k].1,
                result: proof_forward(question, at, node, tag),
            },
        ),
    decreases n,
{
    let usage = UsageModel {
        file: question.world.files@[at.0 as int].path@,
        span: keys[k].1,
        result: proof_forward(question, at, node, tag),
    };
    let before = forwarded_usages(question, at, node, tag, keys, target, n - 1);
    let after = forwarded_usages(question, at, node, tag, keys, target, n);
    if k < n - 1 {
        lemma_forwarded(question, at, node, tag, keys, target, n - 1, k);
        let i = choose|i: int| 0 <= i < before.len() && before[i] == usage;
        assert(after[i] == usage);
    } else {
        assert(after[before.len() as int] == usage);
    }
}

/// The node uses the target there: as a host element that carries it, or by
/// passing the class on to a component.
pub open spec fn uses_target(node: Node, target: KeyModel, span: (usize, usize)) -> bool {
    match node.kind {
        NodeKind::Element { keys } => exists|k: int|
            0 <= k < keys@.len() && (#[trigger] keys@[k]).0@ == target && keys@[k].1 == span,
        NodeKind::ComponentUse { tag, class_keys } => target matches KeyModel::Class(name) && exists|k: int|
            0 <= k < class_keys@.len() && (#[trigger] class_keys@[k]).0@ == name && class_keys@[k].1 == span,
        NodeKind::Slot => false,
    }
}

/// What is known of the node's usage: an element lies where it stands, a class
/// that is passed on where the component puts it.
pub open spec fn known_of(question: Question, at: CompId, node: int, span: (usize, usize)) -> UsageModel {
    UsageModel {
        file: question.world.files@[at.0 as int].path@,
        span,
        result: match nodes_of(question.world, at)[node].kind {
            NodeKind::ComponentUse { tag, class_keys } => proof_forward(question, at, node as usize, tag),
            _ => proof_up(question, at, node as usize, seq![], seq![], 0),
        },
    }
}

proof fn lemma_node(question: Question, at: CompId, target: KeyModel, n: int, j: int, span: (usize, usize))
    requires
        has_nodes(question.world, at),
        0 <= j < n <= nodes_of(question.world, at).len() <= usize::MAX,
        uses_target(nodes_of(question.world, at)[j], target, span),
    ensures
        node_usages(question, at, nodes_of(question.world, at), target, n).contains(known_of(question, at, j, span)),
    decreases n,
{
    let nodes = nodes_of(question.world, at);
    let usage = known_of(question, at, j, span);
    let before = node_usages(question, at, nodes, target, n - 1);
    if j < n - 1 {
        lemma_node(question, at, target, n - 1, j, span);
    }
    match nodes[n - 1].kind {
        NodeKind::Element { keys } => {
            if j == n - 1 {
                let k = choose|k: int| 0 <= k < keys@.len() && (#[trigger] keys@[k]).0@ == target && keys@[k].1 == span;
                lemma_element(question, at, j as usize, keys@, target, keys@.len() as int, k);
            }
            lemma_joined(
                before,
                element_usages(question, at, (n - 1) as usize, keys@, target, keys@.len() as int),
                usage,
            );
        },
        NodeKind::ComponentUse { tag, class_keys } => match target {
            KeyModel::Class(name) => {
                if j == n - 1 {
                    let k = choose|k: int|
                        0 <= k < class_keys@.len() && (#[trigger] class_keys@[k]).0@ == name && class_keys@[k].1 == span;
                    lemma_forwarded(question, at, j as usize, tag, class_keys@, name, class_keys@.len() as int, k);
                }
                lemma_joined(
                    before,
                    forwarded_usages(
                        question,
                        at,
                        (n - 1) as usize,
                        tag,
                        class_keys@,
                        name,
                        class_keys@.len() as int,
                    ),
                    usage,
                );
            },
            KeyModel::Id(_) => {
                lemma_joined(before, seq![], usage);
            },
        },
        NodeKind::Slot => {
            lemma_joined(before, seq![], usage);
        },
    }
}

proof fn lemma_comp(question: Question, at: CompId, target: KeyModel, n: int, j: int, span: (usize, usize))
    requires
        has_nodes(question.world, at),
        at.1 < n <= question.world.files@[at.0 as int].comps@.len(),
        0 <= j < nodes_of(question.world, at).len(),
        uses_target(nodes_of(question.world, at)[j], target, span),
    ensures
        comp_usages(question, at.0, target, n).contains(known_of(question, at, j, span)),
    decreases n,
{
    lemma_world_fits(question.world);
    let usage = known_of(question, at, j, span);
    let before = comp_usages(question, at.0, target, n - 1);
    if at.1 < n - 1 {
        lemma_comp(question, at, target, n - 1, j, span);
    } else {
        let nodes = nodes_of(question.world, at);
        assert(question.world.files@[at.0 as int].comps@[at.1 as int].body matches Ok(own) && own@ == nodes);
        assert(nodes.len() <= usize::MAX);
        lemma_node(question, at, target, nodes.len() as int, j, span);
    }
    match question.world.files@[at.0 as int].comps@[n - 1].body {
        Ok(nodes) => {
            lemma_joined(
                before,
                node_usages(question, (at.0, (n - 1) as usize), nodes@, target, nodes@.len() as int),
                usage,
            );
        },
        Err(_) => {
            lemma_joined(before, seq![], usage);
        },
    }
}

proof fn lemma_file(question: Question, at: CompId, target: KeyModel, n: int, j: int, span: (usize, usize))
    requires
        has_nodes(question.world, at),
        at.0 < n <= question.world.files@.len(),
        0 <= j < nodes_of(question.world, at).len(),
        uses_target(nodes_of(question.world, at)[j], target, span),
    ensures
        file_usages(question, target, n).contains(known_of(question, at, j, span)),
    decreases n,
{
    let usage = known_of(question, at, j, span);
    let before = file_usages(question, target, n - 1);
    let file = question.world.files@[n - 1];
    let outside = boundary_usages(file, key_name(target), file.boundary_usages@.len() as int);
    let inside = comp_usages(question, (n - 1) as usize, target, file.comps@.len() as int);
    if at.0 < n - 1 {
        lemma_file(question, at, target, n - 1, j, span);
    } else {
        lemma_comp(question, at, target, file.comps@.len() as int, j, span);
    }
    lemma_joined(before, outside, usage);
    lemma_joined(before + outside, inside, usage);
}

/// Every element that carries the target, and every invocation that passes its
/// class on, is among the usages, with what is known of it there.
pub proof fn every_carrier_is_a_usage(question: Question, at: CompId, target: KeyModel, node: int, span: (usize, usize))
    requires
        has_nodes(question.world, at),
        0 <= node < nodes_of(question.world, at).len(),
        uses_target(nodes_of(question.world, at)[node], target, span),
    ensures
        world_usages(question, target).contains(known_of(question, at, node, span)),
{
    lemma_file(question, at, target, question.world.files@.len() as int, node, span);
}

proof fn lemma_outside(question: Question, target: KeyModel, n: int, f: int, k: int)
    requires
        0 <= f < n <= question.world.files@.len(),
        0 <= k < question.world.files@[f].boundary_usages@.len(),
        question.world.files@[f].boundary_usages@[k].0@ == key_name(target),
    ensures
        exists|i: int|
            0 <= i < file_usages(question, target, n).len() && (#[trigger] file_usages(question, target, n)[i]).result is Err,
    decreases n,
{
    let file = question.world.files@[n - 1];
    let before = file_usages(question, target, n - 1);
    let outside = boundary_usages(file, key_name(target), file.boundary_usages@.len() as int);
    let inside = comp_usages(question, (n - 1) as usize, target, file.comps@.len() as int);
    let after = file_usages(question, target, n);
    if f < n - 1 {
        lemma_outside(question, target, n - 1, f, k);
        let i = choose|i: int| 0 <= i < before.len() && (#[trigger] before[i]).result is Err;
        assert(after[i] == before[i]);
    } else {
        lemma_boundary(file, key_name(target), file.boundary_usages@.len() as int, k);
        let i = choose|i: int| 0 <= i < outside.len() && (#[trigger] outside[i]).result is Err;
        assert(after[before.len() + i] == outside[i]);
    }
}

proof fn lemma_boundary(file: crate::jsx_graph::FileIr, target: Seq<char>, n: int, k: int)
    requires
        0 <= k < n <= file.boundary_usages@.len(),
        file.boundary_usages@[k].0@ == target,
    ensures
        exists|i: int|
            0 <= i < boundary_usages(file, target, n).len() && (#[trigger] boundary_usages(file, target, n)[i]).result is Err,
    decreases n,
{
    let before = boundary_usages(file, target, n - 1);
    let after = boundary_usages(file, target, n);
    if k < n - 1 {
        lemma_boundary(file, target, n - 1, k);
        let i = choose|i: int| 0 <= i < before.len() && (#[trigger] before[i]).result is Err;
        assert(after[i] == before[i]);
    } else {
        assert(after[before.len() as int].result is Err);
    }
}

/// A usage in a region that is not followed keeps the target from being proven.
pub proof fn usages_beyond_components_prove_nothing(question: Question, target: KeyModel, f: int, k: int)
    requires
        0 <= f < question.world.files@.len(),
        0 <= k < question.world.files@[f].boundary_usages@.len(),
        question.world.files@[f].boundary_usages@[k].0@ == key_name(target),
    ensures
        crate::jsx_graph::outcome_reason(question, target) is Some,
{
    lemma_outside(question, target, question.world.files@.len() as int, f, k);
    crate::jsx_graph::lemma_first_failure(world_usages(question, target), 0);
}

} // verus!
