//! JSX/component graph engine: prove CSS Module class relationships statically.
//!
//! Pure analysis, no edits. For CSS Module classes A (ancestor) and B
//! (target), answers whether every usage of B is in a statically proven
//! relationship (descendant or direct child) under an element carrying A,
//! following conservative rules: project-local function components, a single
//! statically analyzable JSX return, direct JSX ancestry, direct `children`
//! passthrough, and direct `className` prop forwarding. Anything else
//! (conditional renders, portals, HOCs, dynamic components, arbitrary prop
//! transformations, runtime trees) is never inferred.
use crate::path::{is_probe, normalize_path, normalized, probes, resolve_import, resolved, FilePath, PathModel};
use crate::selector::{KeyModel, SelectorKey};
use crate::text::same;
use vstd::prelude::*;

verus! {

/// How the target must lie under the ancestor.
#[derive(Clone, Copy, Debug, PartialEq, Eq, Structural)]
pub enum Relation {
    Child,
    Descendant,
}

/// Why a usage is not proven.
#[derive(Clone, Copy, Debug, PartialEq, Eq, Structural)]
pub enum Reason {
    Conditional,
    Portal,
    Hoc,
    Recursive,
    Unresolved,
    Boundary,
    Ancestry,
    NoUsages,
    Exported,
}

impl Reason {
    /// The code under which the reason is reported.
    pub open spec fn code_model(self) -> Seq<char> {
        match self {
            Reason::Conditional => "conditional-return"@,
            Reason::Portal => "portal"@,
            Reason::Hoc => "hoc-or-dynamic-component"@,
            Reason::Recursive => "recursive-component"@,
            Reason::Unresolved => "unresolved-component-import"@,
            Reason::Boundary => "dynamic-content-boundary"@,
            Reason::Ancestry => "unproven-ancestry"@,
            Reason::NoUsages => "no-usages"@,
            Reason::Exported => "exported-render-sites-unknown"@,
        }
    }

    /// The code under which the reason is reported.
    pub fn code(self) -> (result: &'static str)
        ensures
            result@ == self.code_model(),
    {
        match self {
            Reason::Conditional => "conditional-return",
            Reason::Portal => "portal",
            Reason::Hoc => "hoc-or-dynamic-component",
            Reason::Recursive => "recursive-component",
            Reason::Unresolved => "unresolved-component-import",
            Reason::Boundary => "dynamic-content-boundary",
            Reason::Ancestry => "unproven-ancestry",
            Reason::NoUsages => "no-usages",
            Reason::Exported => "exported-render-sites-unknown",
        }
    }
}

/// What was found of one usage of the target.
#[derive(Debug)]
pub struct UsageProof {
    pub file: String,
    pub span: (usize, usize),
    pub proven: bool,
    pub reason: Option<&'static str>,
}

/// What was found of all usages of the target.
#[derive(Debug)]
pub struct ProofOutcome {
    pub usages: Vec<UsageProof>,
    pub aggregate_proven: bool,
    pub reason: Option<&'static str>,
}

/// (file index, component index) within the [`World`].
pub type CompId = (usize, usize);

/// What a JSX tag refers to.
#[derive(Debug)]
pub enum TagRef {
    /// Component defined in the same file.
    Local(usize),
    /// Component imported under this local name.
    Import(String),
    /// Anything else: member tags, undefined identifiers, nested components.
    Unknown,
}

/// A node of a component's tree.
#[derive(Debug)]
pub enum NodeKind {
    /// Host element with its statically known CSS Module keys.
    Element { keys: Vec<(SelectorKey, (usize, usize))> },
    /// Invocation of a (possibly unresolved) component, with any CSS Module
    /// class names passed through the `className` prop.
    ComponentUse { tag: TagRef, class_keys: Vec<(String, (usize, usize))> },
    /// `{props.children}` / `{children}` passthrough position.
    Slot,
}

#[derive(Debug)]
pub struct Node {
    pub parent: Option<usize>,
    pub kind: NodeKind,
}

/// Where `props.className` lands.
#[derive(Clone, Copy, Debug, PartialEq, Eq, Structural)]
pub enum Forward {
    /// `props.className` never lands anywhere.
    No,
    /// `props.className` lands exactly on this element node.
    Target(usize),
    /// `props.className` is used in a way that cannot be proven.
    Bad,
}

#[derive(Debug)]
pub enum ImportedName {
    Default,
    Named(String),
}

/// A function component.
#[derive(Debug)]
pub struct Comp {
    pub exported: bool,
    pub body: Result<Vec<Node>, Reason>,
    pub slots: Vec<usize>,
    pub forward: Forward,
    pub children_bad: bool,
}

/// What the analysis reads of one file.
#[derive(Debug)]
pub struct FileIr {
    pub path: String,
    pub comps: Vec<Comp>,
    pub named_exports: Vec<(String, usize)>,
    pub default_export: Option<usize>,
    pub imports: Vec<(String, (String, ImportedName))>,
    /// CSS Module member usages found in positions the proof cannot follow,
    /// pre-disqualified with their reason.
    pub boundary_usages: Vec<(String, (usize, usize), Reason)>,
    /// Components rendered (or escaping as values) in unanalyzable regions.
    pub rendered_marks: Vec<(TagRef, Reason)>,
    /// Specifiers of namespace imports used as member JSX tags.
    pub ns_member_specs: Vec<String>,
    /// The CSS Module binding itself escapes static tracking in this file.
    pub unsound: bool,
}

pub struct World {
    pub files: Vec<FileIr>,
    pub parse_failure: bool,
}

// ---------------------------------------------------------------------------
// Well-formedness
// ---------------------------------------------------------------------------

pub open spec fn tag_ok(tag: TagRef, comps: int) -> bool {
    tag matches TagRef::Local(index) ==> index < comps
}

/// Parents stand before their children, and local tags name components.
pub open spec fn nodes_ok(nodes: Seq<Node>, comps: int) -> bool {
    forall|i: int|
        0 <= i < nodes.len() ==> {
            &&& (#[trigger] nodes[i]).parent matches Some(parent) ==> parent < i
            &&& nodes[i].kind matches NodeKind::ComponentUse { tag, class_keys } ==> tag_ok(tag, comps)
        }
}

pub open spec fn comp_ok(comp: Comp, comps: int) -> bool {
    match comp.body {
        Ok(nodes) => {
            &&& nodes_ok(nodes@, comps)
            &&& forall|i: int| 0 <= i < comp.slots@.len() ==> #[trigger] comp.slots@[i] < nodes@.len()
            &&& comp.forward matches Forward::Target(target) ==> target < nodes@.len()
        },
        Err(_) => true,
    }
}

pub open spec fn file_ok(file: FileIr) -> bool {
    let comps = file.comps@.len() as int;
    &&& forall|i: int| 0 <= i < comps ==> comp_ok(#[trigger] file.comps@[i], comps)
    &&& forall|i: int|
        0 <= i < file.named_exports@.len() ==> (#[trigger] file.named_exports@[i]).1 < comps
    &&& file.default_export matches Some(index) ==> index < comps
    &&& forall|i: int|
        0 <= i < file.rendered_marks@.len() ==> tag_ok((#[trigger] file.rendered_marks@[i]).0, comps)
}

pub open spec fn world_ok(world: World) -> bool {
    forall|i: int| 0 <= i < world.files@.len() ==> file_ok(#[trigger] world.files@[i])
}

pub open spec fn comp_in(world: World, comp: CompId) -> bool {
    comp.0 < world.files@.len() && comp.1 < world.files@[comp.0 as int].comps@.len()
}

pub open spec fn node_in(world: World, comp: CompId, node: usize) -> bool {
    comp_in(world, comp) && (world.files@[comp.0 as int].comps@[comp.1 as int].body matches Ok(nodes) ==> node
        < nodes@.len())
}

// ---------------------------------------------------------------------------
// Cross-file linking
// ---------------------------------------------------------------------------

/// The files whose path a specifier that resolves to `base` can mean, among
/// the first `n`.
pub open spec fn probe_matches(world: World, base: PathModel, n: int) -> Seq<usize>
    decreases n,
{
    if n <= 0 {
        seq![]
    } else {
        let rest = probe_matches(world, base, n - 1);
        if is_probe(base, normalized(world.files@[n - 1].path@)) {
            rest.push((n - 1) as usize)
        } else {
            rest
        }
    }
}

/// The files that `specifier` can mean in the file at `from`. Only relative
/// specifiers are followed.
pub open spec fn specifier_matches(world: World, from: Seq<char>, specifier: Seq<char>) -> Seq<usize> {
    if specifier.len() > 0 && specifier[0] == '.' {
        probe_matches(world, resolved(from, specifier), world.files@.len() as int)
    } else {
        seq![]
    }
}

/// The import that brings in `local` among the first `n`: the last one.
pub open spec fn import_named(
    imports: Seq<(String, (String, ImportedName))>,
    local: Seq<char>,
    n: int,
) -> Option<int>
    decreases n,
{
    if n <= 0 {
        None
    } else if imports[n - 1].0@ == local {
        Some(n - 1)
    } else {
        import_named(imports, local, n - 1)
    }
}

/// The component exported under `name` among the first `n` exports: the last.
pub open spec fn export_named(exports: Seq<(String, usize)>, name: Seq<char>, n: int) -> Option<usize>
    decreases n,
{
    if n <= 0 {
        None
    } else if exports[n - 1].0@ == name {
        Some(exports[n - 1].1)
    } else {
        export_named(exports, name, n - 1)
    }
}

/// The component that an import of `imported` from file `target` brings in.
pub open spec fn exported_component(world: World, target: usize, imported: ImportedName) -> Option<usize> {
    let file = world.files@[target as int];
    match imported {
        ImportedName::Default => file.default_export,
        ImportedName::Named(name) => export_named(file.named_exports@, name@, file.named_exports@.len() as int),
    }
}

/// The component that a tag in file `file_ix` renders. An import must resolve
/// to exactly one file that exports the name.
pub open spec fn tag_target(world: World, file_ix: usize, tag: TagRef) -> Result<CompId, Reason> {
    match tag {
        TagRef::Local(comp) => Ok((file_ix, comp)),
        TagRef::Import(local) => {
            let file = world.files@[file_ix as int];
            match import_named(file.imports@, local@, file.imports@.len() as int) {
                None => Err(Reason::Unresolved),
                Some(k) => {
                    let (specifier, imported) = file.imports@[k].1;
                    let matches = specifier_matches(world, file.path@, specifier@);
                    if matches.len() == 1 {
                        match exported_component(world, matches[0], imported) {
                            Some(comp) => Ok((matches[0], comp)),
                            None => Err(Reason::Unresolved),
                        }
                    } else {
                        Err(Reason::Unresolved)
                    }
                },
            }
        },
        TagRef::Unknown => Err(Reason::Hoc),
    }
}

/// A component whose render sites cannot be enumerated, and why.
pub type Mark = (CompId, Reason);

pub open spec fn export_marks(exports: Seq<(String, usize)>, file_ix: usize, reason: Reason, n: int) -> Seq<Mark>
    decreases n,
{
    if n <= 0 {
        seq![]
    } else {
        export_marks(exports, file_ix, reason, n - 1).push(((file_ix, exports[n - 1].1), reason))
    }
}

/// Marks for everything that a file exports.
pub open spec fn file_marks(world: World, file_ix: usize, reason: Reason) -> Seq<Mark> {
    let file = world.files@[file_ix as int];
    let named = export_marks(file.named_exports@, file_ix, reason, file.named_exports@.len() as int);
    match file.default_export {
        Some(comp) => named.push(((file_ix, comp), reason)),
        None => named,
    }
}

pub open spec fn candidate_marks(world: World, candidates: Seq<usize>, reason: Reason, n: int) -> Seq<Mark>
    decreases n,
{
    if n <= 0 {
        seq![]
    } else {
        candidate_marks(world, candidates, reason, n - 1) + file_marks(world, candidates[n - 1], reason)
    }
}

/// Every candidate of an ambiguous import may be rendered through it.
pub open spec fn import_marks(world: World, file: FileIr, n: int) -> Seq<Mark>
    decreases n,
{
    if n <= 0 {
        seq![]
    } else {
        let matches = specifier_matches(world, file.path@, file.imports@[n - 1].1.0@);
        import_marks(world, file, n - 1) + if matches.len() > 1 {
            candidate_marks(world, matches, Reason::Unresolved, matches.len() as int)
        } else {
            seq![]
        }
    }
}

/// A member tag on a namespace import may render any export of its module.
pub open spec fn namespace_marks(world: World, file: FileIr, n: int) -> Seq<Mark>
    decreases n,
{
    if n <= 0 {
        seq![]
    } else {
        let matches = specifier_matches(world, file.path@, file.ns_member_specs@[n - 1]@);
        namespace_marks(world, file, n - 1) + candidate_marks(world, matches, Reason::Hoc, matches.len() as int)
    }
}

/// Components rendered or escaping in regions that are not analyzed.
pub open spec fn rendered_marks(world: World, file_ix: usize, n: int) -> Seq<Mark>
    decreases n,
{
    if n <= 0 {
        seq![]
    } else {
        let (tag, reason) = world.files@[file_ix as int].rendered_marks@[n - 1];
        let rest = rendered_marks(world, file_ix, n - 1);
        match tag_target(world, file_ix, tag) {
            Ok(comp) => rest.push((comp, reason)),
            Err(_) => rest,
        }
    }
}

pub open spec fn all_import_marks(world: World, n: int) -> Seq<Mark>
    decreases n,
{
    if n <= 0 {
        seq![]
    } else {
        let file = world.files@[n - 1];
        all_import_marks(world, n - 1) + import_marks(world, file, file.imports@.len() as int)
    }
}

pub open spec fn all_namespace_marks(world: World, n: int) -> Seq<Mark>
    decreases n,
{
    if n <= 0 {
        seq![]
    } else {
        let file = world.files@[n - 1];
        all_namespace_marks(world, n - 1) + namespace_marks(world, file, file.ns_member_specs@.len() as int)
    }
}

pub open spec fn all_rendered_marks(world: World, n: int) -> Seq<Mark>
    decreases n,
{
    if n <= 0 {
        seq![]
    } else {
        all_rendered_marks(world, n - 1) + rendered_marks(
            world,
            (n - 1) as usize,
            world.files@[n - 1].rendered_marks@.len() as int,
        )
    }
}

/// Every mark of the world; the first mark of a component counts.
pub open spec fn world_marks(world: World) -> Seq<Mark> {
    let n = world.files@.len() as int;
    all_import_marks(world, n) + all_namespace_marks(world, n) + all_rendered_marks(world, n)
}

/// The reason of the first mark of `comp` from `i` on.
pub open spec fn mark_of(marks: Seq<Mark>, comp: CompId, i: int) -> Option<Reason>
    decreases marks.len() - i,
{
    if i < 0 || i >= marks.len() {
        None
    } else if marks[i].0 == comp {
        Some(marks[i].1)
    } else {
        mark_of(marks, comp, i + 1)
    }
}

/// A place where a component is rendered: the component, then the component
/// and the node of the invocation.
pub type Site = (CompId, CompId, usize);

pub open spec fn node_sites(world: World, at: CompId, nodes: Seq<Node>, n: int) -> Seq<Site>
    decreases n,
{
    if n <= 0 {
        seq![]
    } else {
        let rest = node_sites(world, at, nodes, n - 1);
        match nodes[n - 1].kind {
            NodeKind::ComponentUse { tag, class_keys } => match tag_target(world, at.0, tag) {
                Ok(target) => rest.push((target, at, (n - 1) as usize)),
                Err(_) => rest,
            },
            _ => rest,
        }
    }
}

pub open spec fn comp_sites(world: World, file_ix: usize, n: int) -> Seq<Site>
    decreases n,
{
    if n <= 0 {
        seq![]
    } else {
        comp_sites(world, file_ix, n - 1) + match world.files@[file_ix as int].comps@[n - 1].body {
            Ok(nodes) => node_sites(world, (file_ix, (n - 1) as usize), nodes@, nodes@.len() as int),
            Err(_) => seq![],
        }
    }
}

pub open spec fn file_sites(world: World, n: int) -> Seq<Site>
    decreases n,
{
    if n <= 0 {
        seq![]
    } else {
        file_sites(world, n - 1) + comp_sites(world, (n - 1) as usize, world.files@[n - 1].comps@.len() as int)
    }
}

/// Every render site of the world.
pub open spec fn world_sites(world: World) -> Seq<Site> {
    file_sites(world, world.files@.len() as int)
}

/// The file that an import means, if it is exactly one.
pub open spec fn only_match(matches: Seq<usize>) -> Option<usize> {
    if matches.len() == 1 {
        Some(matches[0])
    } else {
        None
    }
}

/// The imports of a file, resolved.
pub open spec fn imports_linked(world: World, file: FileIr, resolved: Seq<Option<usize>>) -> bool {
    &&& resolved.len() == file.imports@.len()
    &&& forall|k: int|
        0 <= k < resolved.len() ==> #[trigger] resolved[k] == only_match(
            specifier_matches(world, file.path@, file.imports@[k].1.0@),
        )
}

/// The cross-file facts of a [`World`].
pub struct Linked {
    /// For each file and import the file that it means, if it is exactly one.
    pub imports: Vec<Vec<Option<usize>>>,
    pub unanalyzable: Vec<Mark>,
    pub sites: Vec<Site>,
}

pub open spec fn linked_ok(linked: Linked, world: World) -> bool {
    &&& linked.imports@.len() == world.files@.len()
    &&& forall|i: int|
        0 <= i < world.files@.len() ==> imports_linked(world, #[trigger] world.files@[i], linked.imports@[i]@)
    &&& linked.unanalyzable@ == world_marks(world)
    &&& linked.sites@ == world_sites(world)
}

/// Resolve an extensionless relative specifier against the request file set:
/// exact path, then each extension, then `index.*` under the path. Every
/// match is returned; zero or multiple matches disqualify at the call site.
fn resolve_specifier(world: &World, paths: &Vec<FilePath>, from: &str, specifier: &str) -> (result: Vec<usize>)
    requires
        paths@.len() == world.files@.len(),
        forall|i: int| 0 <= i < paths@.len() ==> (#[trigger] paths@[i])@ == normalized(world.files@[i].path@),
    ensures
        result@ == specifier_matches(*world, from@, specifier@),
{
    let mut matches: Vec<usize> = Vec::new();
    if specifier.unicode_len() == 0 || specifier.get_char(0) != '.' {
        return matches;
    }
    let base = resolve_import(from, specifier);
    let mut n: usize = 0;
    while n < paths.len()
        invariant
            n <= paths@.len(),
            paths@.len() == world.files@.len(),
            forall|i: int| 0 <= i < paths@.len() ==> (#[trigger] paths@[i])@ == normalized(world.files@[i].path@),
            matches@ == probe_matches(*world, base@, n as int),
        decreases paths.len() - n,
    {
        if probes(&base, &paths[n]) {
            matches.push(n);
        }
        n += 1;
    }
    matches
}

pub proof fn lemma_matches_in_range(world: World, base: PathModel, n: int)
    requires
        0 <= n <= world.files@.len(),
        world.files@.len() <= usize::MAX,
    ensures
        forall|i: int| 0 <= i < probe_matches(world, base, n).len() ==> #[trigger] probe_matches(world, base, n)[i] < n,
    decreases n,
{
    if n > 0 {
        lemma_matches_in_range(world, base, n - 1);
        let rest = probe_matches(world, base, n - 1);
        let all = probe_matches(world, base, n);
        assert forall|i: int| 0 <= i < all.len() implies #[trigger] all[i] < n by {
            if i < rest.len() {
                assert(rest[i] < n - 1);
            }
        }
    }
}

fn mark_exports(world: &World, file_ix: usize, reason: Reason, marks: &mut Vec<Mark>)
    requires
        file_ix < world.files@.len(),
    ensures
        final(marks)@ == old(marks)@ + file_marks(*world, file_ix, reason),
{
    let file = &world.files[file_ix];
    let ghost before = marks@;
    let mut n: usize = 0;
    assert(before + export_marks(file.named_exports@, file_ix, reason, 0) =~= before);
    while n < file.named_exports.len()
        invariant
            n <= file.named_exports@.len(),
            marks@ == before + export_marks(file.named_exports@, file_ix, reason, n as int),
        decreases file.named_exports.len() - n,
    {
        marks.push(((file_ix, file.named_exports[n].1), reason));
        n += 1;
        assert(marks@ =~= before + export_marks(file.named_exports@, file_ix, reason, n as int));
    }
    if let Some(comp) = file.default_export {
        marks.push(((file_ix, comp), reason));
        assert(marks@ =~= before + file_marks(*world, file_ix, reason));
    }
}

fn mark_candidates(world: &World, candidates: &Vec<usize>, reason: Reason, marks: &mut Vec<Mark>)
    requires
        forall|i: int| 0 <= i < candidates@.len() ==> #[trigger] candidates@[i] < world.files@.len(),
    ensures
        final(marks)@ == old(marks)@ + candidate_marks(*world, candidates@, reason, candidates@.len() as int),
{
    let ghost before = marks@;
    let mut n: usize = 0;
    assert(before + candidate_marks(*world, candidates@, reason, 0) =~= before);
    while n < candidates.len()
        invariant
            n <= candidates@.len(),
            forall|i: int| 0 <= i < candidates@.len() ==> #[trigger] candidates@[i] < world.files@.len(),
            marks@ == before + candidate_marks(*world, candidates@, reason, n as int),
        decreases candidates.len() - n,
    {
        let ghost middle = marks@;
        mark_exports(world, candidates[n], reason, marks);
        n += 1;
        assert(marks@ =~= before + candidate_marks(*world, candidates@, reason, n as int));
    }
}

fn named_import(imports: &Vec<(String, (String, ImportedName))>, local: &str) -> (result: Option<usize>)
    ensures
        match import_named(imports@, local@, imports@.len() as int) {
            Some(k) => result matches Some(found) && found == k && found < imports@.len(),
            None => result is None,
        },
{
    let mut n: usize = imports.len();
    while n > 0
        invariant
            n <= imports@.len(),
            import_named(imports@, local@, n as int) == import_named(imports@, local@, imports@.len() as int),
        decreases n,
    {
        if same(imports[n - 1].0.as_str(), local) {
            return Some(n - 1);
        }
        n -= 1;
    }
    None
}

fn named_export(exports: &Vec<(String, usize)>, name: &str) -> (result: Option<usize>)
    ensures
        result == export_named(exports@, name@, exports@.len() as int),
{
    let mut n: usize = exports.len();
    while n > 0
        invariant
            n <= exports@.len(),
            export_named(exports@, name@, n as int) == export_named(exports@, name@, exports@.len() as int),
        decreases n,
    {
        if same(exports[n - 1].0.as_str(), name) {
            return Some(exports[n - 1].1);
        }
        n -= 1;
    }
    None
}

proof fn lemma_export_in_range(exports: Seq<(String, usize)>, name: Seq<char>, n: int, comps: int)
    requires
        0 <= n <= exports.len(),
        forall|i: int| 0 <= i < exports.len() ==> (#[trigger] exports[i]).1 < comps,
    ensures
        export_named(exports, name, n) matches Some(comp) ==> comp < comps,
    decreases n,
{
    if n > 0 {
        lemma_export_in_range(exports, name, n - 1, comps);
    }
}

/// A tag that resolves names a component of the world.
pub proof fn targets_are_in_the_world(world: World, file_ix: usize, tag: TagRef)
    requires
        world_ok(world),
        world.files@.len() <= usize::MAX,
        file_ix < world.files@.len(),
        tag_ok(tag, world.files@[file_ix as int].comps@.len() as int),
    ensures
        tag_target(world, file_ix, tag) matches Ok(comp) ==> comp_in(world, comp),
{
    if let TagRef::Import(local) = tag {
        let file = world.files@[file_ix as int];
        if let Some(k) = import_named(file.imports@, local@, file.imports@.len() as int) {
            let (specifier, imported) = file.imports@[k].1;
            let base = resolved(file.path@, specifier@);
            lemma_matches_in_range(world, base, world.files@.len() as int);
            let matches = specifier_matches(world, file.path@, specifier@);
            if matches.len() == 1 {
                let target = world.files@[matches[0] as int];
                assert(file_ok(target));
                if let ImportedName::Named(name) = imported {
                    lemma_export_in_range(
                        target.named_exports@,
                        name@,
                        target.named_exports@.len() as int,
                        target.comps@.len() as int,
                    );
                }
            }
        }
    }
}

fn resolve_tag(imports: &Vec<Vec<Option<usize>>>, world: &World, file_ix: usize, tag: &TagRef) -> (result: Result<
    CompId,
    Reason,
>)
    requires
        world_ok(*world),
        file_ix < world.files@.len(),
        tag_ok(*tag, world.files@[file_ix as int].comps@.len() as int),
        imports@.len() == world.files@.len(),
        forall|i: int|
            0 <= i < world.files@.len() ==> imports_linked(*world, #[trigger] world.files@[i], imports@[i]@),
    ensures
        result == tag_target(*world, file_ix, *tag),
        result matches Ok(comp) ==> comp_in(*world, comp),
{
    let count = world.files.len();
    proof {
        targets_are_in_the_world(*world, file_ix, *tag);
    }
    let local = match tag {
        TagRef::Local(comp) => {
            return Ok((file_ix, *comp));
        },
        TagRef::Unknown => {
            return Err(Reason::Hoc);
        },
        TagRef::Import(local) => local,
    };
    let file = &world.files[file_ix];
    let k = match named_import(&file.imports, local.as_str()) {
        None => {
            return Err(Reason::Unresolved);
        },
        Some(k) => k,
    };
    assert(imports_linked(*world, world.files@[file_ix as int], imports@[file_ix as int]@));
    let ghost matches = specifier_matches(*world, file.path@, file.imports@[k as int].1.0@);
    proof {
        lemma_matches_in_range(*world, resolved(file.path@, file.imports@[k as int].1.0@), count as int);
    }
    let target = match imports[file_ix][k] {
        None => {
            assert(matches.len() != 1);
            return Err(Reason::Unresolved);
        },
        Some(target) => target,
    };
    assert(matches.len() == 1 && matches[0] == target);
    let exporter = &world.files[target];
    let comp = match &file.imports[k].1.1 {
        ImportedName::Default => exporter.default_export,
        ImportedName::Named(name) => named_export(&exporter.named_exports, name.as_str()),
    };
    assert(comp == exported_component(*world, target, file.imports@[k as int].1.1));
    match comp {
        Some(comp) => Ok((target, comp)),
        None => Err(Reason::Unresolved),
    }
}

/// Links the files of a world: which file each import means, which components
/// have render sites that cannot be enumerated, and all other render sites.
pub fn link(world: &World) -> (linked: Linked)
    requires
        world_ok(*world),
    ensures
        linked_ok(linked, *world),
{
    let count = world.files.len();
    let mut paths: Vec<FilePath> = Vec::new();
    let mut f: usize = 0;
    while f < count
        invariant
            f <= count == world.files@.len(),
            paths@.len() == f,
            forall|i: int| 0 <= i < f ==> (#[trigger] paths@[i])@ == normalized(world.files@[i].path@),
        decreases count - f,
    {
        paths.push(normalize_path(world.files[f].path.as_str()));
        f += 1;
    }
    let mut marks: Vec<Mark> = Vec::new();
    let mut imports: Vec<Vec<Option<usize>>> = Vec::new();
    f = 0;
    while f < count
        invariant
            f <= count == world.files@.len(),
            paths@.len() == count,
            forall|i: int| 0 <= i < count ==> (#[trigger] paths@[i])@ == normalized(world.files@[i].path@),
            imports@.len() == f,
            forall|i: int| 0 <= i < f ==> imports_linked(*world, #[trigger] world.files@[i], imports@[i]@),
            marks@ == all_import_marks(*world, f as int),
        decreases count - f,
    {
        let file = &world.files[f];
        let ghost before = marks@;
        let mut links: Vec<Option<usize>> = Vec::new();
        let mut k: usize = 0;
        assert(before + import_marks(*world, *file, 0) =~= before);
        while k < file.imports.len()
            invariant
                k <= file.imports@.len(),
                count == world.files@.len(),
                f < count,
                *file == world.files@[f as int],
                paths@.len() == count,
                forall|i: int| 0 <= i < count ==> (#[trigger] paths@[i])@ == normalized(world.files@[i].path@),
                links@.len() == k,
                forall|j: int|
                    0 <= j < k ==> #[trigger] links@[j] == only_match(
                        specifier_matches(*world, file.path@, file.imports@[j].1.0@),
                    ),
                marks@ == before + import_marks(*world, *file, k as int),
            decreases file.imports.len() - k,
        {
            let matches = resolve_specifier(world, &paths, file.path.as_str(), file.imports[k].1.0.as_str());
            let ghost middle = marks@;
            if matches.len() == 1 {
                links.push(Some(matches[0]));
            } else {
                links.push(None);
                if matches.len() > 1 {
                    proof {
                        lemma_matches_in_range(
                            *world,
                            resolved(file.path@, file.imports@[k as int].1.0@),
                            count as int,
                        );
                    }
                    mark_candidates(world, &matches, Reason::Unresolved, &mut marks);
                }
            }
            k += 1;
            assert(marks@ =~= before + import_marks(*world, *file, k as int));
        }
        imports.push(links);
        f += 1;
    }
    let ghost first = marks@;
    f = 0;
    assert(first + all_namespace_marks(*world, 0) =~= first);
    while f < count
        invariant
            f <= count == world.files@.len(),
            paths@.len() == count,
            forall|i: int| 0 <= i < count ==> (#[trigger] paths@[i])@ == normalized(world.files@[i].path@),
            marks@ == first + all_namespace_marks(*world, f as int),
        decreases count - f,
    {
        let file = &world.files[f];
        let ghost before = marks@;
        let mut k: usize = 0;
        assert(before + namespace_marks(*world, *file, 0) =~= before);
        while k < file.ns_member_specs.len()
            invariant
                k <= file.ns_member_specs@.len(),
                count == world.files@.len(),
                f < count,
                *file == world.files@[f as int],
                paths@.len() == count,
                forall|i: int| 0 <= i < count ==> (#[trigger] paths@[i])@ == normalized(world.files@[i].path@),
                marks@ == before + namespace_marks(*world, *file, k as int),
            decreases file.ns_member_specs.len() - k,
        {
            let matches = resolve_specifier(world, &paths, file.path.as_str(), file.ns_member_specs[k].as_str());
            proof {
                lemma_matches_in_range(
                    *world,
                    resolved(file.path@, file.ns_member_specs@[k as int]@),
                    count as int,
                );
            }
            mark_candidates(world, &matches, Reason::Hoc, &mut marks);
            k += 1;
            assert(marks@ =~= before + namespace_marks(*world, *file, k as int));
        }
        f += 1;
        assert(marks@ =~= first + all_namespace_marks(*world, f as int));
    }
    let ghost second = marks@;
    f = 0;
    assert(second + all_rendered_marks(*world, 0) =~= second);
    while f < count
        invariant
            world_ok(*world),
            f <= count == world.files@.len(),
            imports@.len() == count,
            forall|i: int| 0 <= i < count ==> imports_linked(*world, #[trigger] world.files@[i], imports@[i]@),
            marks@ == second + all_rendered_marks(*world, f as int),
        decreases count - f,
    {
        let file = &world.files[f];
        assert(file_ok(world.files@[f as int]));
        let ghost before = marks@;
        let mut k: usize = 0;
        assert(before + rendered_marks(*world, f, 0) =~= before);
        while k < file.rendered_marks.len()
            invariant
                world_ok(*world),
                k <= file.rendered_marks@.len(),
                count == world.files@.len(),
                f < count,
                *file == world.files@[f as int],
                file_ok(*file),
                imports@.len() == count,
                forall|i: int| 0 <= i < count ==> imports_linked(*world, #[trigger] world.files@[i], imports@[i]@),
                marks@ == before + rendered_marks(*world, f, k as int),
            decreases file.rendered_marks.len() - k,
        {
            let mark = &file.rendered_marks[k];
            if let Ok(comp) = resolve_tag(&imports, world, f, &mark.0) {
                marks.push((comp, mark.1));
            }
            k += 1;
            assert(marks@ =~= before + rendered_marks(*world, f, k as int));
        }
        f += 1;
        assert(marks@ =~= second + all_rendered_marks(*world, f as int));
    }
    let sites = collect_sites(world, &imports);
    Linked { imports, unanalyzable: marks, sites }
}

fn collect_sites(world: &World, imports: &Vec<Vec<Option<usize>>>) -> (sites: Vec<Site>)
    requires
        world_ok(*world),
        imports@.len() == world.files@.len(),
        forall|i: int|
            0 <= i < world.files@.len() ==> imports_linked(*world, #[trigger] world.files@[i], imports@[i]@),
    ensures
        sites@ == world_sites(*world),
{
    let count = world.files.len();
    let mut sites: Vec<Site> = Vec::new();
    let mut f: usize = 0;
    while f < count
        invariant
            world_ok(*world),
            f <= count == world.files@.len(),
            imports@.len() == count,
            forall|i: int| 0 <= i < count ==> imports_linked(*world, #[trigger] world.files@[i], imports@[i]@),
            sites@ == file_sites(*world, f as int),
        decreases count - f,
    {
        let file = &world.files[f];
        assert(file_ok(world.files@[f as int]));
        let ghost before = sites@;
        let mut c: usize = 0;
        assert(before + comp_sites(*world, f, 0) =~= before);
        while c < file.comps.len()
            invariant
                world_ok(*world),
                c <= file.comps@.len(),
                count == world.files@.len(),
                f < count,
                *file == world.files@[f as int],
                file_ok(*file),
                imports@.len() == count,
                forall|i: int| 0 <= i < count ==> imports_linked(*world, #[trigger] world.files@[i], imports@[i]@),
                sites@ == before + comp_sites(*world, f, c as int),
            decreases file.comps.len() - c,
        {
            assert(comp_ok(file.comps@[c as int], file.comps@.len() as int));
            let ghost middle = sites@;
            if let Ok(nodes) = &file.comps[c].body {
                let mut n: usize = 0;
                assert(middle + node_sites(*world, (f, c), nodes@, 0) =~= middle);
                while n < nodes.len()
                    invariant
                        world_ok(*world),
                        n <= nodes@.len(),
                        count == world.files@.len(),
                        f < count,
                        *file == world.files@[f as int],
                        nodes_ok(nodes@, file.comps@.len() as int),
                        imports@.len() == count,
                        forall|i: int|
                            0 <= i < count ==> imports_linked(*world, #[trigger] world.files@[i], imports@[i]@),
                        sites@ == middle + node_sites(*world, (f, c), nodes@, n as int),
                    decreases nodes.len() - n,
                {
                    if let NodeKind::ComponentUse { tag, .. } = &nodes[n].kind {
                        if let Ok(target) = resolve_tag(imports, world, f, tag) {
                            sites.push((target, (f, c), n));
                        }
                    }
                    n += 1;
                    assert(sites@ =~= middle + node_sites(*world, (f, c), nodes@, n as int));
                }
            }
            c += 1;
            assert(sites@ =~= before + comp_sites(*world, f, c as int));
        }
        f += 1;
    }
    sites
}

// ---------------------------------------------------------------------------
// Proof evaluation
// ---------------------------------------------------------------------------

/// Resume point after a wrapper's internal chain is exhausted: continue with
/// the ancestors of `node` inside `comp`.
#[derive(Clone, Copy)]
pub struct Frame {
    pub comp: CompId,
    pub node: usize,
}

/// What is asked of a world.
pub struct Question {
    pub world: World,
    pub relation: Relation,
    pub ancestor: KeyModel,
    pub closed_world: bool,
}

pub open spec fn carries(keys: Seq<(SelectorKey, (usize, usize))>, key: KeyModel) -> bool {
    exists|i: int| 0 <= i < keys.len() && (#[trigger] keys[i]).0@ == key
}

pub open spec fn comp_of(world: World, comp: CompId) -> Comp {
    world.files@[comp.0 as int].comps@[comp.1 as int]
}

/// Deeper than this, a chain of wrappers counts as recursive.
pub const MAX_DEPTH: u32 = 64;

/// Whether every element that `node` of `comp` stands for lies under the
/// ancestor: looks upwards from the node.
pub open spec fn proof_up(
    question: Question,
    comp: CompId,
    node: usize,
    cont: Seq<Frame>,
    visited: Seq<CompId>,
    depth: nat,
) -> Result<(), Reason>
    decreases MAX_DEPTH + 1 - depth, 2int, 0int,
{
    if depth > MAX_DEPTH {
        Err(Reason::Recursive)
    } else {
        match comp_of(question.world, comp).body {
            Err(reason) => Err(reason),
            Ok(nodes) => proof_climb(question, comp, nodes@, node as int, cont, visited, depth),
        }
    }
}

/// The steps from `node` to its parent and on. At a component-use ancestor,
/// interpose the wrapper's children-slot chains; at a tree root, resume via
/// `cont` or expand every render site of `comp`.
pub open spec fn proof_climb(
    question: Question,
    comp: CompId,
    nodes: Seq<Node>,
    node: int,
    cont: Seq<Frame>,
    visited: Seq<CompId>,
    depth: nat,
) -> Result<(), Reason>
    decreases MAX_DEPTH + 1 - depth, 1int, node,
    when depth <= MAX_DEPTH
{
    match nodes[node].parent {
        Some(parent) => if parent >= node {
            Err(Reason::Ancestry)
        } else {
            match nodes[parent as int].kind {
                NodeKind::Element { keys } => if carries(keys@, question.ancestor) {
                    Ok(())
                } else if question.relation == Relation::Child {
                    Err(Reason::Ancestry)
                } else {
                    proof_climb(question, comp, nodes, parent as int, cont, visited, depth)
                },
                NodeKind::ComponentUse { tag, class_keys } => match tag_target(question.world, comp.0, tag) {
                    Err(reason) => Err(reason),
                    Ok(wrapper) => {
                        let wrapper_ir = comp_of(question.world, wrapper);
                        if wrapper_ir.body is Err {
                            Err(wrapper_ir.body->Err_0)
                        } else if wrapper_ir.children_bad || wrapper_ir.slots@.len() == 0 {
                            Err(Reason::Boundary)
                        } else {
                            proof_slots(
                                question,
                                wrapper,
                                wrapper_ir.slots@,
                                0,
                                seq![Frame { comp, node: parent }] + cont,
                                visited,
                                depth + 1,
                            )
                        }
                    },
                },
                NodeKind::Slot => proof_climb(question, comp, nodes, parent as int, cont, visited, depth),
            }
        },
        None => if cont.len() > 0 {
            proof_up(question, cont[0].comp, cont[0].node, cont.drop_first(), visited, depth + 1)
        } else if visited.contains(comp) {
            Err(Reason::Recursive)
        } else if !question.closed_world && comp_of(question.world, comp).exported {
            Err(Reason::Exported)
        } else if let Some(reason) = mark_of(world_marks(question.world), comp, 0) {
            Err(reason)
        } else if !rendered(world_sites(question.world), comp) {
            Err(Reason::Ancestry)
        } else {
            proof_sites(question, comp, world_sites(question.world), 0, visited.push(comp), depth + 1)
        },
    }
}

pub open spec fn rendered(sites: Seq<Site>, comp: CompId) -> bool {
    exists|i: int| 0 <= i < sites.len() && (#[trigger] sites[i]).0 == comp
}

/// The relationship must hold through every slot of a wrapper.
pub open spec fn proof_slots(
    question: Question,
    wrapper: CompId,
    slots: Seq<usize>,
    i: int,
    cont: Seq<Frame>,
    visited: Seq<CompId>,
    depth: nat,
) -> Result<(), Reason>
    decreases MAX_DEPTH + 1 - depth, 3int, slots.len() - i,
    when depth <= MAX_DEPTH + 1
{
    if i < 0 || i >= slots.len() {
        Ok(())
    } else {
        match proof_up(question, wrapper, slots[i], cont, visited, depth) {
            Err(reason) => Err(reason),
            Ok(_) => proof_slots(question, wrapper, slots, i + 1, cont, visited, depth),
        }
    }
}

/// The relationship must hold at every render site of a component.
pub open spec fn proof_sites(
    question: Question,
    comp: CompId,
    sites: Seq<Site>,
    i: int,
    visited: Seq<CompId>,
    depth: nat,
) -> Result<(), Reason>
    decreases MAX_DEPTH + 1 - depth, 3int, sites.len() - i,
    when depth <= MAX_DEPTH + 1
{
    if i < 0 || i >= sites.len() {
        Ok(())
    } else if sites[i].0 != comp {
        proof_sites(question, comp, sites, i + 1, visited, depth)
    } else {
        match proof_up(question, sites[i].1, sites[i].2, seq![], visited, depth) {
            Err(reason) => Err(reason),
            Ok(_) => proof_sites(question, comp, sites, i + 1, visited, depth),
        }
    }
}

/// A `className={styles.B}` passed to a forwarding component: the effective
/// element is the wrapper's forward target, and its ancestry continues at this
/// invocation site.
pub open spec fn proof_forward(question: Question, comp: CompId, node: usize, tag: TagRef) -> Result<(), Reason> {
    match tag_target(question.world, comp.0, tag) {
        Err(reason) => Err(reason),
        Ok(wrapper) => {
            let wrapper_ir = comp_of(question.world, wrapper);
            if wrapper_ir.body is Err {
                Err(wrapper_ir.body->Err_0)
            } else {
                match wrapper_ir.forward {
                    Forward::Target(target) => proof_up(
                        question,
                        wrapper,
                        target,
                        seq![Frame { comp, node }],
                        seq![],
                        0,
                    ),
                    _ => Err(Reason::Boundary),
                }
            }
        },
    }
}

/// What is asked at least as much: the weaker relation, or a closed world.
pub open spec fn asks_no_more(weak: Question, strong: Question) -> bool {
    &&& weak.world == strong.world
    &&& weak.ancestor == strong.ancestor
    &&& strong.relation == weak.relation || weak.relation == Relation::Descendant
    &&& strong.closed_world ==> weak.closed_world
}

proof fn lemma_up_monotone(
    weak: Question,
    strong: Question,
    comp: CompId,
    node: usize,
    cont: Seq<Frame>,
    visited: Seq<CompId>,
    depth: nat,
)
    requires
        asks_no_more(weak, strong),
        proof_up(strong, comp, node, cont, visited, depth) is Ok,
    ensures
        proof_up(weak, comp, node, cont, visited, depth) is Ok,
    decreases MAX_DEPTH + 1 - depth, 2int, 0int,
{
    if depth <= MAX_DEPTH {
        if let Ok(nodes) = comp_of(strong.world, comp).body {
            lemma_climb_monotone(weak, strong, comp, nodes@, node as int, cont, visited, depth);
        }
    }
}

proof fn lemma_climb_monotone(
    weak: Question,
    strong: Question,
    comp: CompId,
    nodes: Seq<Node>,
    node: int,
    cont: Seq<Frame>,
    visited: Seq<CompId>,
    depth: nat,
)
    requires
        asks_no_more(weak, strong),
        depth <= MAX_DEPTH,
        proof_climb(strong, comp, nodes, node, cont, visited, depth) is Ok,
    ensures
        proof_climb(weak, comp, nodes, node, cont, visited, depth) is Ok,
    decreases MAX_DEPTH + 1 - depth, 1int, node,
{
    match nodes[node].parent {
        Some(parent) => {
            if parent < node {
                match nodes[parent as int].kind {
                    NodeKind::Element { keys } => {
                        if !carries(keys@, strong.ancestor) {
                            lemma_climb_monotone(weak, strong, comp, nodes, parent as int, cont, visited, depth);
                        }
                    },
                    NodeKind::ComponentUse { tag, class_keys } => {
                        if let Ok(wrapper) = tag_target(strong.world, comp.0, tag) {
                            let wrapper_ir = comp_of(strong.world, wrapper);
                            if !(wrapper_ir.body is Err) && !wrapper_ir.children_bad && wrapper_ir.slots@.len() > 0 {
                                lemma_slots_monotone(
                                    weak,
                                    strong,
                                    wrapper,
                                    wrapper_ir.slots@,
                                    0,
                                    seq![Frame { comp, node: parent }] + cont,
                                    visited,
                                    depth + 1,
                                );
                            }
                        }
                    },
                    NodeKind::Slot => {
                        lemma_climb_monotone(weak, strong, comp, nodes, parent as int, cont, visited, depth);
                    },
                }
            }
        },
        None => {
            if cont.len() > 0 {
                lemma_up_monotone(
                    weak,
                    strong,
                    cont[0].comp,
                    cont[0].node,
                    cont.drop_first(),
                    visited,
                    depth + 1,
                );
            } else if !visited.contains(comp) && mark_of(world_marks(strong.world), comp, 0) is None && rendered(
                world_sites(strong.world),
                comp,
            ) {
                lemma_sites_monotone(
                    weak,
                    strong,
                    comp,
                    world_sites(strong.world),
                    0,
                    visited.push(comp),
                    depth + 1,
                );
            }
        },
    }
}

proof fn lemma_slots_monotone(
    weak: Question,
    strong: Question,
    wrapper: CompId,
    slots: Seq<usize>,
    i: int,
    cont: Seq<Frame>,
    visited: Seq<CompId>,
    depth: nat,
)
    requires
        asks_no_more(weak, strong),
        depth <= MAX_DEPTH + 1,
        proof_slots(strong, wrapper, slots, i, cont, visited, depth) is Ok,
    ensures
        proof_slots(weak, wrapper, slots, i, cont, visited, depth) is Ok,
    decreases MAX_DEPTH + 1 - depth, 3int, slots.len() - i,
{
    if 0 <= i < slots.len() {
        lemma_up_monotone(weak, strong, wrapper, slots[i], cont, visited, depth);
        lemma_slots_monotone(weak, strong, wrapper, slots, i + 1, cont, visited, depth);
    }
}

proof fn lemma_sites_monotone(
    weak: Question,
    strong: Question,
    comp: CompId,
    sites: Seq<Site>,
    i: int,
    visited: Seq<CompId>,
    depth: nat,
)
    requires
        asks_no_more(weak, strong),
        depth <= MAX_DEPTH + 1,
        proof_sites(strong, comp, sites, i, visited, depth) is Ok,
    ensures
        proof_sites(weak, comp, sites, i, visited, depth) is Ok,
    decreases MAX_DEPTH + 1 - depth, 3int, sites.len() - i,
{
    if 0 <= i < sites.len() {
        if sites[i].0 == comp {
            lemma_up_monotone(weak, strong, sites[i].1, sites[i].2, seq![], visited, depth);
        }
        lemma_sites_monotone(weak, strong, comp, sites, i + 1, visited, depth);
    }
}

/// A proof carries over to a weaker question: what is proven as a direct child
/// is proven as a descendant, and what is proven with unknown importers is
/// proven in a closed world.
pub proof fn proofs_carry_over(
    weak: Question,
    strong: Question,
    comp: CompId,
    node: usize,
    cont: Seq<Frame>,
    visited: Seq<CompId>,
    depth: nat,
)
    requires
        asks_no_more(weak, strong),
        proof_up(strong, comp, node, cont, visited, depth) is Ok,
    ensures
        proof_up(weak, comp, node, cont, visited, depth) is Ok,
{
    lemma_up_monotone(weak, strong, comp, node, cont, visited, depth);
}

/// Inputs shared by every step of one proof.
pub struct ProofQuery<'a> {
    pub linked: &'a Linked,
    pub world: &'a World,
    pub relation: Relation,
    pub ancestor: &'a SelectorKey,
    pub closed_world: bool,
}

impl<'a> ProofQuery<'a> {
    pub open spec fn question(self) -> Question {
        Question {
            world: *self.world,
            relation: self.relation,
            ancestor: self.ancestor@,
            closed_world: self.closed_world,
        }
    }

    pub open spec fn ok(self) -> bool {
        world_ok(*self.world) && linked_ok(*self.linked, *self.world)
    }
}

pub open spec fn frames_in(world: World, frames: Seq<Frame>) -> bool {
    forall|i: int| 0 <= i < frames.len() ==> node_in(world, (#[trigger] frames[i]).comp, frames[i].node)
}

fn has_key(keys: &Vec<(SelectorKey, (usize, usize))>, key: &SelectorKey) -> (result: bool)
    ensures
        result == carries(keys@, key@),
{
    let mut i: usize = 0;
    while i < keys.len()
        invariant
            i <= keys@.len(),
            forall|j: int| 0 <= j < i ==> (#[trigger] keys@[j]).0@ != key@,
        decreases keys.len() - i,
    {
        if keys[i].0.same(key) {
            return true;
        }
        i += 1;
    }
    false
}

fn find_mark(marks: &Vec<Mark>, comp: CompId) -> (result: Option<Reason>)
    ensures
        result == mark_of(marks@, comp, 0),
{
    let mut i: usize = 0;
    while i < marks.len()
        invariant
            i <= marks@.len(),
            mark_of(marks@, comp, i as int) == mark_of(marks@, comp, 0),
        decreases marks.len() - i,
    {
        if marks[i].0.0 == comp.0 && marks[i].0.1 == comp.1 {
            return Some(marks[i].1);
        }
        i += 1;
    }
    None
}

fn has_comp(visited: &Vec<CompId>, comp: CompId) -> (result: bool)
    ensures
        result == visited@.contains(comp),
{
    let mut i: usize = 0;
    while i < visited.len()
        invariant
            i <= visited@.len(),
            forall|j: int| 0 <= j < i ==> visited@[j] != comp,
        decreases visited.len() - i,
    {
        if visited[i].0 == comp.0 && visited[i].1 == comp.1 {
            assert(visited@[i as int] == comp);
            return true;
        }
        i += 1;
    }
    false
}

fn is_rendered(sites: &Vec<Site>, comp: CompId) -> (result: bool)
    ensures
        result == rendered(sites@, comp),
{
    let mut i: usize = 0;
    while i < sites.len()
        invariant
            i <= sites@.len(),
            forall|j: int| 0 <= j < i ==> (#[trigger] sites@[j]).0 != comp,
        decreases sites.len() - i,
    {
        if sites[i].0.0 == comp.0 && sites[i].0.1 == comp.1 {
            assert(sites@[i as int].0 == comp);
            return true;
        }
        i += 1;
    }
    false
}

proof fn lemma_node_sites(world: World, at: CompId, nodes: Seq<Node>, n: int)
    requires
        0 <= n <= nodes.len() <= usize::MAX,
        comp_in(world, at),
        comp_of(world, at).body matches Ok(own) && own@ == nodes,
    ensures
        forall|i: int|
            0 <= i < node_sites(world, at, nodes, n).len() ==> node_in(
                world,
                (#[trigger] node_sites(world, at, nodes, n)[i]).1,
                node_sites(world, at, nodes, n)[i].2,
            ),
    decreases n,
{
    if n > 0 {
        lemma_node_sites(world, at, nodes, n - 1);
        let rest = node_sites(world, at, nodes, n - 1);
        let all = node_sites(world, at, nodes, n);
        assert forall|i: int| 0 <= i < all.len() implies node_in(world, (#[trigger] all[i]).1, all[i].2) by {
            if i < rest.len() {
                assert(all[i] == rest[i]);
            }
        }
    }
}

proof fn lemma_comp_sites(world: World, file_ix: usize, n: int)
    requires
        file_ix < world.files@.len(),
        0 <= n <= world.files@[file_ix as int].comps@.len() <= usize::MAX,
        forall|c: int|
            0 <= c < world.files@[file_ix as int].comps@.len() ==> ((#[trigger] world.files@[file_ix as int].comps@[c]).body matches Ok(
                nodes,
            ) ==> nodes@.len() <= usize::MAX),
    ensures
        forall|i: int|
            0 <= i < comp_sites(world, file_ix, n).len() ==> node_in(
                world,
                (#[trigger] comp_sites(world, file_ix, n)[i]).1,
                comp_sites(world, file_ix, n)[i].2,
            ),
    decreases n,
{
    if n > 0 {
        lemma_comp_sites(world, file_ix, n - 1);
        let rest = comp_sites(world, file_ix, n - 1);
        let at = (file_ix, (n - 1) as usize);
        if let Ok(nodes) = world.files@[file_ix as int].comps@[n - 1].body {
            lemma_node_sites(world, at, nodes@, nodes@.len() as int);
            let own = node_sites(world, at, nodes@, nodes@.len() as int);
            let all = comp_sites(world, file_ix, n);
            assert forall|i: int| 0 <= i < all.len() implies node_in(world, (#[trigger] all[i]).1, all[i].2) by {
                if i < rest.len() {
                    assert(all[i] == rest[i]);
                } else {
                    assert(all[i] == own[i - rest.len()]);
                }
            }
        } else {
            assert(comp_sites(world, file_ix, n) =~= rest);
        }
    }
}

/// The lists of a world have lengths that a machine can hold.
pub open spec fn world_fits(world: World) -> bool {
    &&& world.files@.len() <= usize::MAX
    &&& forall|f: int|
        0 <= f < world.files@.len() ==> {
            &&& (#[trigger] world.files@[f]).comps@.len() <= usize::MAX
            &&& forall|c: int|
                0 <= c < world.files@[f].comps@.len() ==> ((#[trigger] world.files@[f].comps@[c]).body matches Ok(
                    nodes,
                ) ==> nodes@.len() <= usize::MAX)
        }
}

pub proof fn lemma_file_sites(world: World, n: int)
    requires
        world_fits(world),
        0 <= n <= world.files@.len(),
    ensures
        forall|i: int|
            0 <= i < file_sites(world, n).len() ==> node_in(
                world,
                (#[trigger] file_sites(world, n)[i]).1,
                file_sites(world, n)[i].2,
            ),
    decreases n,
{
    if n > 0 {
        lemma_file_sites(world, n - 1);
        let file_ix = (n - 1) as usize;
        assert(world.files@[n - 1].comps@.len() <= usize::MAX);
        lemma_comp_sites(world, file_ix, world.files@[n - 1].comps@.len() as int);
        let rest = file_sites(world, n - 1);
        let own = comp_sites(world, file_ix, world.files@[n - 1].comps@.len() as int);
        let all = file_sites(world, n);
        assert forall|i: int| 0 <= i < all.len() implies node_in(world, (#[trigger] all[i]).1, all[i].2) by {
            if i < rest.len() {
                assert(all[i] == rest[i]);
            } else {
                assert(all[i] == own[i - rest.len()]);
            }
        }
    }
}

pub proof fn lemma_world_fits(world: World)
    ensures
        world_fits(world),
{
    assert(world.files.len() == world.files@.len());
    assert forall|f: int| 0 <= f < world.files@.len() implies {
        &&& (#[trigger] world.files@[f]).comps@.len() <= usize::MAX
        &&& forall|c: int|
            0 <= c < world.files@[f].comps@.len() ==> ((#[trigger] world.files@[f].comps@[c]).body matches Ok(nodes)
                ==> nodes@.len() <= usize::MAX)
    } by {
        assert(world.files@[f].comps.len() == world.files@[f].comps@.len());
        assert forall|c: int| 0 <= c < world.files@[f].comps@.len() implies ((
        #[trigger] world.files@[f].comps@[c]).body matches Ok(nodes) ==> nodes@.len() <= usize::MAX) by {
            if let Ok(nodes) = world.files@[f].comps@[c].body {
                assert(nodes.len() == nodes@.len());
            }
        }
    }
}

pub proof fn lemma_wrapper(world: World, comp: CompId)
    requires
        world_ok(world),
        comp_in(world, comp),
    ensures
        comp_ok(comp_of(world, comp), world.files@[comp.0 as int].comps@.len() as int),
{
    assert(file_ok(world.files@[comp.0 as int]));
}

/// Walk up from `node` inside `comp` looking for the ancestor key.
fn prove_up(
    query: &ProofQuery<'_>,
    comp: CompId,
    node: usize,
    cont: &Vec<Frame>,
    visited: &Vec<CompId>,
    depth: u32,
) -> (result: Result<(), Reason>)
    requires
        query.ok(),
        node_in(*query.world, comp, node),
        frames_in(*query.world, cont@),
        depth <= MAX_DEPTH + 1,
    ensures
        result == proof_up(query.question(), comp, node, cont@, visited@, depth as nat),
    decreases MAX_DEPTH + 1 - depth, 0int,
{
    if depth > MAX_DEPTH {
        return Err(Reason::Recursive);
    }
    let ghost question = query.question();
    let comp_ir = &query.world.files[comp.0].comps[comp.1];
    proof {
        lemma_wrapper(*query.world, comp);
    }
    let nodes = match &comp_ir.body {
        Err(reason) => {
            return Err(*reason);
        },
        Ok(nodes) => nodes,
    };
    let mut current: usize = node;
    loop
        invariant
            query.ok(),
            question == query.question(),
            depth <= MAX_DEPTH,
            comp_in(*query.world, comp),
            comp_ir == comp_of(*query.world, comp),
            comp_ir.body == Ok::<Vec<Node>, Reason>(*nodes),
            nodes_ok(nodes@, query.world.files@[comp.0 as int].comps@.len() as int),
            frames_in(*query.world, cont@),
            current < nodes@.len(),
            proof_climb(question, comp, nodes@, current as int, cont@, visited@, depth as nat) == proof_up(
                question,
                comp,
                node,
                cont@,
                visited@,
                depth as nat,
            ),
        ensures
            nodes@[current as int].parent is None,
        decreases current,
    {
        let parent = match nodes[current].parent {
            None => {
                break ;
            },
            Some(parent) => parent,
        };
        match &nodes[parent].kind {
            NodeKind::Element { keys } => {
                if has_key(keys, query.ancestor) {
                    return Ok(());
                }
                if query.relation == Relation::Child {
                    // The first element ancestor is the parent; it lacks A.
                    return Err(Reason::Ancestry);
                }
            },
            NodeKind::ComponentUse { tag, .. } => {
                let wrapper = match resolve_tag(&query.linked.imports, query.world, comp.0, tag) {
                    Err(reason) => {
                        return Err(reason);
                    },
                    Ok(wrapper) => wrapper,
                };
                let wrapper_ir = &query.world.files[wrapper.0].comps[wrapper.1];
                proof {
                    lemma_wrapper(*query.world, wrapper);
                }
                if let Err(reason) = &wrapper_ir.body {
                    return Err(*reason);
                }
                if wrapper_ir.children_bad || wrapper_ir.slots.len() == 0 {
                    return Err(Reason::Boundary);
                }
                let inner = interposed(Frame { comp, node: parent }, cont);
                return prove_slots(query, wrapper, &inner, visited, depth + 1);
            },
            NodeKind::Slot => {},
        }
        current = parent;
    }
    if cont.len() > 0 {
        let first = cont[0];
        let rest = without_first(cont);
        return prove_up(query, first.comp, first.node, &rest, visited, depth + 1);
    }
    // Render-site expansion: the relationship must hold at every site.
    if has_comp(visited, comp) {
        return Err(Reason::Recursive);
    }
    if !query.closed_world && comp_ir.exported {
        return Err(Reason::Exported);
    }
    if let Some(reason) = find_mark(&query.linked.unanalyzable, comp) {
        return Err(reason);
    }
    if !is_rendered(&query.linked.sites, comp) {
        return Err(Reason::Ancestry);
    }
    let expanded = with_comp(visited, comp);
    prove_sites(query, comp, &expanded, depth + 1)
}

fn with_comp(visited: &Vec<CompId>, comp: CompId) -> (result: Vec<CompId>)
    ensures
        result@ == visited@.push(comp),
{
    let mut result: Vec<CompId> = Vec::new();
    let mut i: usize = 0;
    while i < visited.len()
        invariant
            i <= visited@.len(),
            result@ == visited@.take(i as int),
        decreases visited.len() - i,
    {
        result.push(visited[i]);
        i += 1;
        assert(result@ =~= visited@.take(i as int));
    }
    assert(visited@.take(i as int) =~= visited@);
    result.push(comp);
    result
}

fn interposed(frame: Frame, cont: &Vec<Frame>) -> (result: Vec<Frame>)
    ensures
        result@ == seq![frame] + cont@,
{
    let mut result: Vec<Frame> = Vec::new();
    result.push(frame);
    let mut i: usize = 0;
    while i < cont.len()
        invariant
            i <= cont@.len(),
            result@ == seq![frame] + cont@.take(i as int),
        decreases cont.len() - i,
    {
        result.push(cont[i]);
        i += 1;
        assert(result@ =~= seq![frame] + cont@.take(i as int));
    }
    assert(cont@.take(i as int) =~= cont@);
    result
}

fn without_first(cont: &Vec<Frame>) -> (result: Vec<Frame>)
    requires
        cont@.len() > 0,
    ensures
        result@ == cont@.drop_first(),
{
    let mut result: Vec<Frame> = Vec::new();
    let mut i: usize = 1;
    while i < cont.len()
        invariant
            1 <= i <= cont@.len(),
            result@ == cont@.subrange(1, i as int),
        decreases cont.len() - i,
    {
        result.push(cont[i]);
        i += 1;
        assert(result@ =~= cont@.subrange(1, i as int));
    }
    assert(cont@.subrange(1, i as int) =~= cont@.drop_first());
    result
}

fn prove_slots(query: &ProofQuery<'_>, wrapper: CompId, cont: &Vec<Frame>, visited: &Vec<CompId>, depth: u32) -> (
result: Result<(), Reason>)
    requires
        query.ok(),
        comp_in(*query.world, wrapper),
        comp_of(*query.world, wrapper).body is Ok,
        frames_in(*query.world, cont@),
        1 <= depth <= MAX_DEPTH + 1,
    ensures
        result == proof_slots(
            query.question(),
            wrapper,
            comp_of(*query.world, wrapper).slots@,
            0,
            cont@,
            visited@,
            depth as nat,
        ),
    decreases MAX_DEPTH + 1 - depth, 1int,
{
    let ghost question = query.question();
    let slots = &query.world.files[wrapper.0].comps[wrapper.1].slots;
    proof {
        lemma_wrapper(*query.world, wrapper);
    }
    let mut i: usize = 0;
    while i < slots.len()
        invariant
            query.ok(),
            question == query.question(),
            comp_in(*query.world, wrapper),
            comp_of(*query.world, wrapper).body is Ok,
            comp_ok(comp_of(*query.world, wrapper), query.world.files@[wrapper.0 as int].comps@.len() as int),
            frames_in(*query.world, cont@),
            1 <= depth <= MAX_DEPTH + 1,
            *slots == comp_of(*query.world, wrapper).slots,
            i <= slots@.len(),
            proof_slots(question, wrapper, slots@, i as int, cont@, visited@, depth as nat) == proof_slots(
                question,
                wrapper,
                slots@,
                0,
                cont@,
                visited@,
                depth as nat,
            ),
        decreases slots.len() - i,
    {
        match prove_up(query, wrapper, slots[i], cont, visited, depth) {
            Err(reason) => {
                return Err(reason);
            },
            Ok(_) => {},
        }
        i += 1;
    }
    Ok(())
}

fn prove_sites(query: &ProofQuery<'_>, comp: CompId, visited: &Vec<CompId>, depth: u32) -> (result: Result<
    (),
    Reason,
>)
    requires
        query.ok(),
        1 <= depth <= MAX_DEPTH + 1,
    ensures
        result == proof_sites(
            query.question(),
            comp,
            world_sites(*query.world),
            0,
            visited@,
            depth as nat,
        ),
    decreases MAX_DEPTH + 1 - depth, 1int,
{
    let ghost question = query.question();
    let sites = &query.linked.sites;
    proof {
        lemma_world_fits(*query.world);
        lemma_file_sites(*query.world, query.world.files@.len() as int);
    }
    let none: Vec<Frame> = Vec::new();
    let mut i: usize = 0;
    while i < sites.len()
        invariant
            query.ok(),
            question == query.question(),
            1 <= depth <= MAX_DEPTH + 1,
            sites@ == world_sites(*query.world),
            none@ == Seq::<Frame>::empty(),
            forall|k: int|
                0 <= k < sites@.len() ==> node_in(*query.world, (#[trigger] sites@[k]).1, sites@[k].2),
            i <= sites@.len(),
            proof_sites(question, comp, sites@, i as int, visited@, depth as nat) == proof_sites(
                question,
                comp,
                sites@,
                0,
                visited@,
                depth as nat,
            ),
        decreases sites.len() - i,
    {
        let site = sites[i];
        if site.0.0 == comp.0 && site.0.1 == comp.1 {
            match prove_up(query, site.1, site.2, &none, visited, depth) {
                Err(reason) => {
                    return Err(reason);
                },
                Ok(_) => {},
            }
        }
        i += 1;
    }
    Ok(())
}

/// Prove a `className={styles.B}` passed to a forwarding component.
fn prove_forward(query: &ProofQuery<'_>, comp: CompId, node: usize, tag: &TagRef) -> (result: Result<(), Reason>)
    requires
        query.ok(),
        node_in(*query.world, comp, node),
        tag_ok(*tag, query.world.files@[comp.0 as int].comps@.len() as int),
    ensures
        result == proof_forward(query.question(), comp, node, *tag),
{
    let wrapper = match resolve_tag(&query.linked.imports, query.world, comp.0, tag) {
        Err(reason) => {
            return Err(reason);
        },
        Ok(wrapper) => wrapper,
    };
    let wrapper_ir = &query.world.files[wrapper.0].comps[wrapper.1];
    proof {
        lemma_wrapper(*query.world, wrapper);
    }
    if let Err(reason) = &wrapper_ir.body {
        return Err(*reason);
    }
    match wrapper_ir.forward {
        Forward::Target(target) => {
            let mut cont: Vec<Frame> = Vec::new();
            cont.push(Frame { comp, node });
            assert(cont@ =~= seq![Frame { comp, node }]);
            let visited: Vec<CompId> = Vec::new();
            prove_up(query, wrapper, target, &cont, &visited, 0)
        },
        _ => Err(Reason::Boundary),
    }
}

/// What is known of one usage.
pub struct UsageModel {
    pub file: Seq<char>,
    pub span: (usize, usize),
    pub result: Result<(), Reason>,
}

impl UsageProof {
    /// Whether the report says what is known of the usage.
    pub open spec fn reports(self, usage: UsageModel) -> bool {
        &&& self.file@ == usage.file
        &&& self.span == usage.span
        &&& self.proven == (usage.result is Ok)
        &&& match usage.result {
            Ok(_) => self.reason is None,
            Err(reason) => self.reason matches Some(code) && code@ == reason.code_model(),
        }
    }
}

pub open spec fn all_reported(reports: Seq<UsageProof>, usages: Seq<UsageModel>) -> bool {
    &&& reports.len() == usages.len()
    &&& forall|i: int| 0 <= i < reports.len() ==> (#[trigger] reports[i]).reports(usages[i])
}

pub open spec fn boundary_usages(file: FileIr, target: Seq<char>, n: int) -> Seq<UsageModel>
    decreases n,
{
    if n <= 0 {
        seq![]
    } else {
        let (name, span, reason) = file.boundary_usages@[n - 1];
        let rest = boundary_usages(file, target, n - 1);
        if name@ == target {
            rest.push(UsageModel { file: file.path@, span, result: Err(reason) })
        } else {
            rest
        }
    }
}

pub open spec fn element_usages(
    question: Question,
    at: CompId,
    node: usize,
    keys: Seq<(SelectorKey, (usize, usize))>,
    target: KeyModel,
    n: int,
) -> Seq<UsageModel>
    decreases n,
{
    if n <= 0 {
        seq![]
    } else {
        let rest = element_usages(question, at, node, keys, target, n - 1);
        if keys[n - 1].0@ == target {
            rest.push(
                UsageModel {
                    file: question.world.files@[at.0 as int].path@,
                    span: keys[n - 1].1,
                    result: proof_up(question, at, node, seq![], seq![], 0),
                },
            )
        } else {
            rest
        }
    }
}

pub open spec fn forwarded_usages(
    question: Question,
    at: CompId,
    node: usize,
    tag: TagRef,
    keys: Seq<(String, (usize, usize))>,
    target: Seq<char>,
    n: int,
) -> Seq<UsageModel>
    decreases n,
{
    if n <= 0 {
        seq![]
    } else {
        let rest = forwarded_usages(question, at, node, tag, keys, target, n - 1);
        if keys[n - 1].0@ == target {
            rest.push(
                UsageModel {
                    file: question.world.files@[at.0 as int].path@,
                    span: keys[n - 1].1,
                    result: proof_forward(question, at, node, tag),
                },
            )
        } else {
            rest
        }
    }
}

pub open spec fn node_usages(question: Question, at: CompId, nodes: Seq<Node>, target: KeyModel, n: int) -> Seq<
    UsageModel,
>
    decreases n,
{
    if n <= 0 {
        seq![]
    } else {
        node_usages(question, at, nodes, target, n - 1) + match nodes[n - 1].kind {
            NodeKind::Element { keys } => element_usages(
                question,
                at,
                (n - 1) as usize,
                keys@,
                target,
                keys@.len() as int,
            ),
            NodeKind::ComponentUse { tag, class_keys } => match target {
                KeyModel::Class(name) => forwarded_usages(
                    question,
                    at,
                    (n - 1) as usize,
                    tag,
                    class_keys@,
                    name,
                    class_keys@.len() as int,
                ),
                KeyModel::Id(_) => seq![],
            },
            NodeKind::Slot => seq![],
        }
    }
}

pub open spec fn comp_usages(question: Question, file_ix: usize, target: KeyModel, n: int) -> Seq<UsageModel>
    decreases n,
{
    if n <= 0 {
        seq![]
    } else {
        comp_usages(question, file_ix, target, n - 1) + match question.world.files@[file_ix as int].comps@[n
            - 1].body {
            Ok(nodes) => node_usages(
                question,
                (file_ix, (n - 1) as usize),
                nodes@,
                target,
                nodes@.len() as int,
            ),
            Err(_) => seq![],
        }
    }
}

pub open spec fn key_name(key: KeyModel) -> Seq<char> {
    match key {
        KeyModel::Class(name) => name,
        KeyModel::Id(name) => name,
    }
}

/// The usages of the target in the first `n` files: in each file the usages in
/// regions that are not analyzed, then those in component trees.
pub open spec fn file_usages(question: Question, target: KeyModel, n: int) -> Seq<UsageModel>
    decreases n,
{
    if n <= 0 {
        seq![]
    } else {
        let file = question.world.files@[n - 1];
        file_usages(question, target, n - 1) + boundary_usages(
            file,
            key_name(target),
            file.boundary_usages@.len() as int,
        ) + comp_usages(question, (n - 1) as usize, target, file.comps@.len() as int)
    }
}

pub open spec fn world_usages(question: Question, target: KeyModel) -> Seq<UsageModel> {
    file_usages(question, target, question.world.files@.len() as int)
}

/// Whether the CSS Module binding escapes somewhere, or a file was not read.
pub open spec fn world_unsound(world: World) -> bool {
    world.parse_failure || exists|i: int| 0 <= i < world.files@.len() && (#[trigger] world.files@[i]).unsound
}

/// The first reason among the usages from `i` on that are not proven.
pub open spec fn first_failure(usages: Seq<UsageModel>, i: int) -> Option<Reason>
    decreases usages.len() - i,
{
    if i < 0 || i >= usages.len() {
        None
    } else {
        match usages[i].result {
            Err(reason) => Some(reason),
            Ok(_) => first_failure(usages, i + 1),
        }
    }
}

/// Why the target is not proven as a whole, if it is not: every usage must be
/// proven, there must be one, and none may have escaped.
pub open spec fn outcome_reason(question: Question, target: KeyModel) -> Option<Reason> {
    let usages = world_usages(question, target);
    if world_unsound(question.world) {
        Some(Reason::Boundary)
    } else if usages.len() == 0 {
        Some(Reason::NoUsages)
    } else {
        first_failure(usages, 0)
    }
}

pub open spec fn outcome_ok(outcome: ProofOutcome, question: Question, target: KeyModel) -> bool {
    &&& all_reported(outcome.usages@, world_usages(question, target))
    &&& match outcome_reason(question, target) {
        Some(reason) => !outcome.aggregate_proven && (outcome.reason matches Some(code) && code@
            == reason.code_model()),
        None => outcome.aggregate_proven && outcome.reason is None,
    }
}

/// `new` is `old` with reports of `added` behind it.
pub open spec fn appended(old_list: Seq<UsageProof>, new: Seq<UsageProof>, added: Seq<UsageModel>) -> bool {
    &&& new.len() == old_list.len() + added.len()
    &&& forall|i: int| 0 <= i < old_list.len() ==> #[trigger] new[i] == old_list[i]
    &&& forall|i: int| old_list.len() <= i < new.len() ==> (#[trigger] new[i]).reports(added[i - old_list.len()])
}

proof fn lemma_appended(
    a: Seq<UsageProof>,
    b: Seq<UsageProof>,
    c: Seq<UsageProof>,
    x: Seq<UsageModel>,
    y: Seq<UsageModel>,
)
    requires
        appended(a, b, x),
        appended(b, c, y),
    ensures
        appended(a, c, x + y),
{
    assert forall|i: int| a.len() <= i < c.len() implies (#[trigger] c[i]).reports((x + y)[i - a.len()]) by {
        if i < b.len() {
            assert(c[i] == b[i]);
        }
    }
    assert forall|i: int| 0 <= i < a.len() implies #[trigger] c[i] == a[i] by {
        assert(c[i] == b[i]);
        assert(b[i] == a[i]);
    }
}

/// One finding as it is reported.
fn usage_proof(path: &str, span: (usize, usize), result: Result<(), Reason>) -> (report: UsageProof)
    ensures
        report.reports(UsageModel { file: path@, span, result }),
{
    UsageProof {
        file: path.to_owned(),
        span,
        proven: result.is_ok(),
        reason: match result {
            Ok(_) => None,
            Err(reason) => Some(reason.code()),
        },
    }
}

fn report_boundary(file: &FileIr, target: &str, usages: &mut Vec<UsageProof>)
    ensures
        appended(
            old(usages)@,
            final(usages)@,
            boundary_usages(*file, target@, file.boundary_usages@.len() as int),
        ),
{
    let ghost first = usages@;
    let mut n: usize = 0;
    while n < file.boundary_usages.len()
        invariant
            n <= file.boundary_usages@.len(),
            appended(first, usages@, boundary_usages(*file, target@, n as int)),
        decreases file.boundary_usages.len() - n,
    {
        let usage = &file.boundary_usages[n];
        if same(usage.0.as_str(), target) {
            usages.push(usage_proof(file.path.as_str(), usage.1, Err(usage.2)));
        }
        n += 1;
    }
}

fn report_element(
    query: &ProofQuery<'_>,
    at: CompId,
    node: usize,
    keys: &Vec<(SelectorKey, (usize, usize))>,
    target: &SelectorKey,
    usages: &mut Vec<UsageProof>,
)
    requires
        query.ok(),
        node_in(*query.world, at, node),
    ensures
        appended(
            old(usages)@,
            final(usages)@,
            element_usages(query.question(), at, node, keys@, target@, keys@.len() as int),
        ),
{
    let ghost first = usages@;
    let ghost question = query.question();
    let cont: Vec<Frame> = Vec::new();
    let visited: Vec<CompId> = Vec::new();
    let mut n: usize = 0;
    while n < keys.len()
        invariant
            query.ok(),
            question == query.question(),
            node_in(*query.world, at, node),
            cont@ == Seq::<Frame>::empty(),
            visited@ == Seq::<CompId>::empty(),
            n <= keys@.len(),
            appended(first, usages@, element_usages(question, at, node, keys@, target@, n as int)),
        decreases keys.len() - n,
    {
        if keys[n].0.same(target) {
            let result = prove_up(query, at, node, &cont, &visited, 0);
            usages.push(usage_proof(query.world.files[at.0].path.as_str(), keys[n].1, result));
        }
        n += 1;
    }
}

fn report_forwarded(
    query: &ProofQuery<'_>,
    at: CompId,
    node: usize,
    tag: &TagRef,
    keys: &Vec<(String, (usize, usize))>,
    target: &str,
    usages: &mut Vec<UsageProof>,
)
    requires
        query.ok(),
        node_in(*query.world, at, node),
        tag_ok(*tag, query.world.files@[at.0 as int].comps@.len() as int),
    ensures
        appended(
            old(usages)@,
            final(usages)@,
            forwarded_usages(query.question(), at, node, *tag, keys@, target@, keys@.len() as int),
        ),
{
    let ghost first = usages@;
    let ghost question = query.question();
    let mut n: usize = 0;
    while n < keys.len()
        invariant
            query.ok(),
            question == query.question(),
            node_in(*query.world, at, node),
            tag_ok(*tag, query.world.files@[at.0 as int].comps@.len() as int),
            n <= keys@.len(),
            appended(first, usages@, forwarded_usages(question, at, node, *tag, keys@, target@, n as int)),
        decreases keys.len() - n,
    {
        if same(keys[n].0.as_str(), target) {
            let result = prove_forward(query, at, node, tag);
            usages.push(usage_proof(query.world.files[at.0].path.as_str(), keys[n].1, result));
        }
        n += 1;
    }
}

fn report_nodes(query: &ProofQuery<'_>, at: CompId, target: &SelectorKey, usages: &mut Vec<UsageProof>)
    requires
        query.ok(),
        comp_in(*query.world, at),
    ensures
        comp_of(*query.world, at).body matches Ok(nodes) ==> appended(
            old(usages)@,
            final(usages)@,
            node_usages(query.question(), at, nodes@, target@, nodes@.len() as int),
        ),
        comp_of(*query.world, at).body is Err ==> final(usages)@ == old(usages)@,
{
    let ghost first = usages@;
    let ghost question = query.question();
    let comp = &query.world.files[at.0].comps[at.1];
    proof {
        lemma_wrapper(*query.world, at);
    }
    let nodes = match &comp.body {
        Err(_) => {
            return ;
        },
        Ok(nodes) => nodes,
    };
    let mut n: usize = 0;
    while n < nodes.len()
        invariant
            query.ok(),
            question == query.question(),
            comp_in(*query.world, at),
            comp == comp_of(*query.world, at),
            comp.body == Ok::<Vec<Node>, Reason>(*nodes),
            nodes_ok(nodes@, query.world.files@[at.0 as int].comps@.len() as int),
            n <= nodes@.len(),
            appended(first, usages@, node_usages(question, at, nodes@, target@, n as int)),
        decreases nodes.len() - n,
    {
        let ghost before = usages@;
        let ghost done = node_usages(question, at, nodes@, target@, n as int);
        let ghost all = node_usages(question, at, nodes@, target@, n + 1);
        match &nodes[n].kind {
            NodeKind::Element { keys } => {
                report_element(query, at, n, keys, target, usages);
                proof {
                    lemma_appended(
                        first,
                        before,
                        usages@,
                        done,
                        element_usages(question, at, n, keys@, target@, keys@.len() as int),
                    );
                }
            },
            NodeKind::ComponentUse { tag, class_keys } => {
                if let SelectorKey::Class(name) = target {
                    report_forwarded(query, at, n, tag, class_keys, name.as_str(), usages);
                    proof {
                        lemma_appended(
                            first,
                            before,
                            usages@,
                            done,
                            forwarded_usages(question, at, n, *tag, class_keys@, name@, class_keys@.len() as int),
                        );
                    }
                } else {
                    assert(all =~= done);
                }
            },
            NodeKind::Slot => {
                assert(all =~= done);
            },
        }
        n += 1;
    }
}

/// The extracted-and-linked world for one (files, css_path) pair: the
/// query-invariant part of a proof, reusable across many queries.
pub struct PreparedWorld {
    pub world: World,
    pub linked: Linked,
}

impl PreparedWorld {
    pub open spec fn ok(self) -> bool {
        world_ok(self.world) && linked_ok(self.linked, self.world)
    }
}

/// Run one `ancestor relation target` query against a [`PreparedWorld`].
pub fn prove_prepared(
    prepared: &PreparedWorld,
    ancestor: &SelectorKey,
    relation: Relation,
    target: &SelectorKey,
    closed_world: bool,
) -> (outcome: ProofOutcome)
    requires
        prepared.ok(),
    ensures
        outcome_ok(
            outcome,
            (Question { world: prepared.world, relation, ancestor: ancestor@, closed_world }),
            target@,
        ),
{
    let query = ProofQuery {
        linked: &prepared.linked,
        world: &prepared.world,
        relation,
        ancestor,
        closed_world,
    };
    let ghost question = query.question();
    let target_name = match target {
        SelectorKey::Class(name) => name,
        SelectorKey::Id(name) => name,
    };
    let files = &prepared.world.files;
    let mut usages: Vec<UsageProof> = Vec::new();
    let mut unsound = prepared.world.parse_failure;
    let mut f: usize = 0;
    while f < files.len()
        invariant
            query.ok(),
            question == query.question(),
            *query.world == prepared.world,
            *files == prepared.world.files,
            target_name@ == key_name(target@),
            f <= files@.len(),
            appended(seq![], usages@, file_usages(question, target@, f as int)),
            unsound == (prepared.world.parse_failure || exists|i: int| 0 <= i < f && (#[trigger] files@[i]).unsound),
        decreases files.len() - f,
    {
        let file = &files[f];
        let ghost done = file_usages(question, target@, f as int);
        let ghost before = usages@;
        report_boundary(file, target_name.as_str(), &mut usages);
        let ghost boundary = boundary_usages(*file, target_name@, file.boundary_usages@.len() as int);
        proof {
            lemma_appended(seq![], before, usages@, done, boundary);
        }
        let ghost middle = usages@;
        let mut c: usize = 0;
        while c < file.comps.len()
            invariant
                query.ok(),
                question == query.question(),
                *query.world == prepared.world,
                *files == prepared.world.files,
                f < files@.len(),
                *file == files@[f as int],
                c <= file.comps@.len(),
                appended(middle, usages@, comp_usages(question, f, target@, c as int)),
            decreases file.comps.len() - c,
        {
            let ghost rest = usages@;
            let ghost had = comp_usages(question, f, target@, c as int);
            report_nodes(&query, (f, c), target, &mut usages);
            proof {
                if let Ok(nodes) = file.comps@[c as int].body {
                    lemma_appended(
                        middle,
                        rest,
                        usages@,
                        had,
                        node_usages(question, (f, c), nodes@, target@, nodes@.len() as int),
                    );
                } else {
                    assert(comp_usages(question, f, target@, c + 1) =~= had);
                }
            }
            c += 1;
        }
        proof {
            lemma_appended(
                seq![],
                middle,
                usages@,
                done + boundary,
                comp_usages(question, f, target@, file.comps@.len() as int),
            );
        }
        if file.unsound {
            assert(files@[f as int].unsound);
            unsound = true;
        }
        f += 1;
    }
    let ghost found = world_usages(question, target@);
    assert(all_reported(usages@, found));
    if unsound {
        return ProofOutcome { usages, aggregate_proven: false, reason: Some(Reason::Boundary.code()) };
    }
    if usages.len() == 0 {
        return ProofOutcome { usages, aggregate_proven: false, reason: Some(Reason::NoUsages.code()) };
    }
    let mut i: usize = 0;
    while i < usages.len()
        invariant
            i <= usages@.len(),
            all_reported(usages@, found),
            first_failure(found, i as int) == first_failure(found, 0),
            found == world_usages(question, target@),
            found.len() > 0,
            !world_unsound(prepared.world),
            question == (Question { world: prepared.world, relation, ancestor: ancestor@, closed_world }),
        decreases usages.len() - i,
    {
        if !usages[i].proven {
            let reason = usages[i].reason;
            return ProofOutcome { usages, aggregate_proven: false, reason };
        }
        i += 1;
    }
    ProofOutcome { usages, aggregate_proven: true, reason: None }
}

/// A target counts as proven exactly where it is used, every usage is proven
/// and no binding escaped.
pub proof fn proven_means_every_usage(outcome: ProofOutcome, question: Question, target: KeyModel)
    requires
        outcome_ok(outcome, question, target),
    ensures
        outcome.aggregate_proven <==> {
            &&& !world_unsound(question.world)
            &&& outcome.usages@.len() > 0
            &&& forall|i: int| 0 <= i < outcome.usages@.len() ==> (#[trigger] outcome.usages@[i]).proven
        },
{
    lemma_first_failure(world_usages(question, target), 0);
    let usages = world_usages(question, target);
    if outcome.aggregate_proven {
        assert forall|i: int| 0 <= i < outcome.usages@.len() implies (#[trigger] outcome.usages@[i]).proven by {
            assert(usages[i].result is Ok);
        }
    } else if outcome.usages@.len() > 0 && !world_unsound(question.world) {
        let k = choose|k: int| 0 <= k < usages.len() && (#[trigger] usages[k]).result is Err;
        assert(!outcome.usages@[k].proven);
    }
}

pub proof fn lemma_first_failure(usages: Seq<UsageModel>, i: int)
    requires
        0 <= i <= usages.len(),
    ensures
        first_failure(usages, i) is None ==> forall|k: int|
            i <= k < usages.len() ==> (#[trigger] usages[k]).result is Ok,
        first_failure(usages, i) is Some ==> exists|k: int|
            i <= k < usages.len() && (#[trigger] usages[k]).result is Err,
    decreases usages.len() - i,
{
    if i < usages.len() && usages[i].result is Ok {
        lemma_first_failure(usages, i + 1);
    }
}

} // verus!
