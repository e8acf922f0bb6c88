//! Planning the rewrite of an HTML-like source: which classes each element
//! gains, and which references stay unmigrated.
use crate::edit::{Edit, EditModel};
use crate::html_attribute::{
    attribute_outer_quote, breaks, candidate_breaks_attribute, directive_metadata, directive_site,
    has_directive_metadata, outer_quote, render_js_site, rendered, site_of,
};
use crate::duplicate::duplicate_all;
use crate::html_live::{
    bare, bare_attribute, find_site, live_sites, live_views, rebased_attributes, site_at, trace_attribute, traced_site,
    LiveModel,
};
use crate::names::{
    insert_name, insert_names, merged_counts_add_up, occurrences_of, with_name, with_names, References,
};
use crate::plan::{
    conflict_warning, empty_source_plan, first_clash, held, no_plan, Candidates, CandidateMatch, Conflicts,
    MatchModel, PlanModel, SourcePlan, Warning,
};
use crate::selector::{KeyModel, SelectorKey};
use crate::source::{
    class_tokens, classes_of, contexts_of, element_classes, element_has_context, element_ids, ids_of, in_context,
    tokens, writable_element_classes, writable_of, AttributeModel, ContextModel, ElementModel, FileModel,
    HtmlAttribute, HtmlElement, HtmlStylesheet, SourceFile,
};
use crate::text::{
    contains, copy_cut, copy_texts, cut, has_char, holds, join, joined, list_has, maybe, maybe_view, push_texts, same,
    strip_prefix, texts, views, without_prefix,
};
use vstd::prelude::*;

verus! {

/// What is known of each selector key: the candidates that replace it.
pub type Entries = Seq<(KeyModel, Seq<Seq<char>>)>;

/// The candidate as a stylesheet link with these variants applies it. The
/// variants stand behind a utility prefix.
pub open spec fn contextual(candidate: Seq<char>, variants: Seq<Seq<char>>, prefix: Option<Seq<char>>) -> Seq<char> {
    let chain = joined(variants, ":"@);
    if variants.len() == 0 {
        candidate
    } else {
        match prefix {
            Some(prefix) => if prefix.len() == 0 {
                chain + ":"@ + candidate
            } else {
                match without_prefix(candidate, prefix + ":"@) {
                    Some(rest) => prefix + ":"@ + chain + ":"@ + rest,
                    None => chain + ":"@ + candidate,
                }
            },
            None => chain + ":"@ + candidate,
        }
    }
}

/// The candidate as a stylesheet link with these variants applies it.
pub fn contextual_candidate(candidate: &str, variants: &Vec<String>, prefix: &Option<String>) -> (result: String)
    ensures
        result@ == contextual(candidate@, texts(variants@), maybe(*prefix)),
{
    if variants.len() == 0 {
        return candidate.to_owned();
    }
    let chain = join(variants, ":");
    if let Some(prefix) = prefix {
        if !prefix.as_str().is_empty() {
            let mut head = prefix.clone();
            head.append(":");
            if let Some(rest) = strip_prefix(candidate, head.as_str()) {
                head.append(chain.as_str());
                head.append(":");
                head.append(rest.as_str());
                return head;
            }
        }
    }
    let mut result = chain;
    result.append(":");
    result.append(candidate);
    result
}

/// A site that candidates are written at.
pub struct SiteModel {
    pub start: int,
    pub end: int,
    pub element_start: Option<usize>,
    pub quote: Option<char>,
    pub directive: bool,
}

/// What has been collected for a site.
pub struct GatheredModel {
    pub additions: Seq<Seq<char>>,
    pub emitted: Seq<Seq<char>>,
    pub matches: Seq<MatchModel>,
    /// Every candidate of the key could be written.
    pub complete: bool,
}

/// The candidate has no writable form at the site.
pub open spec fn unwritable(candidate: Seq<char>, site: SiteModel) -> bool {
    breaks(candidate, site.quote) || (site.directive && candidate.contains('&'))
}

/// `gathered` with one candidate of `key`.
pub open spec fn with_candidate(
    gathered: GatheredModel,
    site: SiteModel,
    key: KeyModel,
    origin: Seq<char>,
    candidate: Seq<char>,
) -> GatheredModel {
    if unwritable(candidate, site) {
        GatheredModel { complete: false, ..gathered }
    } else {
        GatheredModel {
            additions: gathered.additions.push(candidate),
            emitted: with_name(gathered.emitted, candidate),
            matches: gathered.matches.push(
                MatchModel {
                    start: site.start,
                    end: site.end,
                    element_start: site.element_start,
                    key,
                    candidate,
                    origin_candidate: origin,
                },
            ),
            ..gathered
        }
    }
}

/// `gathered` with what the first `n` links make of one candidate.
pub open spec fn with_origin(
    gathered: GatheredModel,
    site: SiteModel,
    key: KeyModel,
    origin: Seq<char>,
    contexts: Seq<ContextModel>,
    prefix: Option<Seq<char>>,
    n: int,
) -> GatheredModel
    decreases n,
{
    if n <= 0 {
        gathered
    } else {
        with_candidate(
            with_origin(gathered, site, key, origin, contexts, prefix, n - 1),
            site,
            key,
            origin,
            contextual(origin, contexts[n - 1].variants, prefix),
        )
    }
}

/// `gathered` with the first `n` candidates of `key`.
pub open spec fn with_origins(
    gathered: GatheredModel,
    site: SiteModel,
    key: KeyModel,
    origins: Seq<Seq<char>>,
    contexts: Seq<ContextModel>,
    prefix: Option<Seq<char>>,
    n: int,
) -> GatheredModel
    decreases n,
{
    if n <= 0 {
        gathered
    } else {
        with_origin(
            with_origins(gathered, site, key, origins, contexts, prefix, n - 1),
            site,
            key,
            origins[n - 1],
            contexts,
            prefix,
            contexts.len() as int,
        )
    }
}

/// `gathered` with every candidate of `key`; it is complete where each could
/// be written.
pub open spec fn with_key(
    gathered: GatheredModel,
    site: SiteModel,
    key: KeyModel,
    entries: Entries,
    contexts: Seq<ContextModel>,
    prefix: Option<Seq<char>>,
) -> GatheredModel {
    let fresh = GatheredModel { complete: true, ..gathered };
    match held(entries, key) {
        Some(origins) => with_origins(fresh, site, key, origins, contexts, prefix, origins.len() as int),
        None => fresh,
    }
}

/// What has been collected for a site.
struct Gathered {
    additions: Vec<String>,
    emitted: Vec<String>,
    matches: Vec<CandidateMatch>,
    complete: bool,
}

impl View for Gathered {
    type V = GatheredModel;

    closed spec fn view(&self) -> GatheredModel {
        GatheredModel {
            additions: texts(self.additions@),
            emitted: texts(self.emitted@),
            matches: views(self.matches@),
            complete: self.complete,
        }
    }
}

/// A site that candidates are written at.
struct Site {
    start: usize,
    end: usize,
    element_start: Option<usize>,
    quote: Option<char>,
    directive: bool,
}

impl View for Site {
    type V = SiteModel;

    closed spec fn view(&self) -> SiteModel {
        SiteModel {
            start: self.start as int,
            end: self.end as int,
            element_start: self.element_start,
            quote: self.quote,
            directive: self.directive,
        }
    }
}

fn push_candidate(gathered: &mut Gathered, site: &Site, key: &SelectorKey, origin: &String, candidate: String)
    ensures
        final(gathered)@ == with_candidate(old(gathered)@, site@, key@, origin@, candidate@),
{
    if candidate_breaks_attribute(candidate.as_str(), site.quote) || (site.directive && has_char(
        candidate.as_str(),
        '&',
    )) {
        gathered.complete = false;
        return;
    }
    let ghost before = gathered@;
    let ghost model = candidate@;
    insert_name(&mut gathered.emitted, candidate.as_str());
    gathered.additions.push(candidate.clone());
    gathered.matches.push(
        CandidateMatch {
            start: site.start,
            end: site.end,
            element_start: site.element_start,
            key: key.copy(),
            candidate,
            origin_candidate: origin.clone(),
        },
    );
    assert(gathered@.additions =~= before.additions.push(model));
    assert(gathered@.matches =~= with_candidate(before, site@, key@, origin@, model).matches);
}

/// Collect the appendable candidates for one selector key. A candidate
/// containing the attribute's own quote delimiter has no writable form inside
/// that attribute value and is skipped, so the caller retains the owning rule
/// instead.
fn collect_candidates(
    gathered: &mut Gathered,
    site: &Site,
    key: &SelectorKey,
    candidates: &Candidates,
    contexts: &Vec<HtmlStylesheet>,
    prefix: &Option<String>,
)
    ensures
        final(gathered)@ == with_key(old(gathered)@, site@, key@, candidates@, views(contexts@), maybe(*prefix)),
{
    gathered.complete = true;
    let ghost fresh = gathered@;
    assert(fresh == (GatheredModel { complete: true, ..old(gathered)@ }));
    let origins = match candidates.get(key) {
        Some(origins) => origins,
        None => {
            return;
        },
    };
    let mut i: usize = 0;
    while i < origins.len()
        invariant
            i <= origins@.len(),
            gathered@ == with_origins(
                fresh,
                site@,
                key@,
                texts(origins@),
                views(contexts@),
                maybe(*prefix),
                i as int,
            ),
        decreases origins.len() - i,
    {
        let origin = &origins[i];
        assert(texts(origins@)[i as int] == origin@);
        let ghost start = gathered@;
        let mut k: usize = 0;
        while k < contexts.len()
            invariant
                k <= contexts@.len(),
                gathered@ == with_origin(
                    start,
                    site@,
                    key@,
                    origin@,
                    views(contexts@),
                    maybe(*prefix),
                    k as int,
                ),
            decreases contexts.len() - k,
        {
            assert(views(contexts@)[k as int] == contexts@[k as int]@);
            let candidate = contextual_candidate(origin.as_str(), &contexts[k].variants, prefix);
            push_candidate(gathered, site, key, origin, candidate);
            k += 1;
        }
        i += 1;
    }
}

/// What collecting the classes of a site yields, with the references to
/// classes that have candidates, and those of them that were written in full.
pub struct ClassesModel {
    pub gathered: GatheredModel,
    pub refs: Seq<Seq<char>>,
    pub matched: Seq<Seq<char>>,
}

/// `state` with the first `n` classes.
pub open spec fn with_classes_of(
    state: ClassesModel,
    site: SiteModel,
    classes: Seq<Seq<char>>,
    entries: Entries,
    contexts: Seq<ContextModel>,
    prefix: Option<Seq<char>>,
    n: int,
) -> ClassesModel
    decreases n,
{
    if n <= 0 {
        state
    } else {
        let before = with_classes_of(state, site, classes, entries, contexts, prefix, n - 1);
        let key = KeyModel::Class(classes[n - 1]);
        let gathered = with_key(before.gathered, site, key, entries, contexts, prefix);
        if held(entries, key) is Some {
            ClassesModel {
                gathered,
                refs: before.refs.push(classes[n - 1]),
                matched: if gathered.complete {
                    before.matched.push(classes[n - 1])
                } else {
                    before.matched
                },
            }
        } else {
            ClassesModel { gathered, ..before }
        }
    }
}

/// `gathered` with the first `n` ids.
pub open spec fn with_ids(
    gathered: GatheredModel,
    site: SiteModel,
    ids: Seq<Seq<char>>,
    entries: Entries,
    contexts: Seq<ContextModel>,
    prefix: Option<Seq<char>>,
    n: int,
) -> GatheredModel
    decreases n,
{
    if n <= 0 {
        gathered
    } else {
        with_key(
            with_ids(gathered, site, ids, entries, contexts, prefix, n - 1),
            site,
            KeyModel::Id(ids[n - 1]),
            entries,
            contexts,
            prefix,
        )
    }
}

/// The classes among the first `n` that have candidates.
pub open spec fn referred(classes: Seq<Seq<char>>, entries: Entries, n: int) -> Seq<Seq<char>>
    decreases n,
{
    if n <= 0 {
        seq![]
    } else if held(entries, KeyModel::Class(classes[n - 1])) is Some {
        referred(classes, entries, n - 1).push(classes[n - 1])
    } else {
        referred(classes, entries, n - 1)
    }
}

/// The first `n` additions without those that `classes` holds and without
/// repetitions.
pub open spec fn fresh_ones(additions: Seq<Seq<char>>, classes: Seq<Seq<char>>, n: int) -> Seq<Seq<char>>
    decreases n,
{
    if n <= 0 {
        seq![]
    } else {
        let before = fresh_ones(additions, classes, n - 1);
        if classes.contains(additions[n - 1]) || before.contains(additions[n - 1]) {
            before
        } else {
            before.push(additions[n - 1])
        }
    }
}

/// The first conflict between a class and what is generated for the keys from
/// `i` on.
pub open spec fn key_clash(
    pairs: Seq<(Seq<char>, Seq<char>)>,
    entries: Entries,
    keys: Seq<KeyModel>,
    classes: Seq<Seq<char>>,
    i: int,
) -> Option<(Seq<char>, Seq<char>)>
    decreases keys.len() - i,
{
    if i < 0 || i >= keys.len() {
        None
    } else {
        match held(entries, keys[i]) {
            Some(generated) => match first_clash(pairs, generated, classes, 0) {
                Some(clash) => Some(clash),
                None => key_clash(pairs, entries, keys, classes, i + 1),
            },
            None => key_clash(pairs, entries, keys, classes, i + 1),
        }
    }
}

/// The keys that select the element.
pub open spec fn keys_of(element: ElementModel) -> Seq<KeyModel> {
    classes_of(element).map_values(|name: Seq<char>| KeyModel::Class(name)) + ids_of(element).map_values(
        |name: Seq<char>| KeyModel::Id(name),
    )
}

/// The first (generated, existing) utility conflict on a record whose
/// classes cannot be edited but still receive fallthrough utilities.
pub fn readonly_conflict(element: &HtmlElement, candidates: &Candidates, conflicts: &Conflicts) -> (result: Option<
    (String, String),
>)
    ensures
        match result {
            Some(pair) => key_clash(conflicts@, candidates@, keys_of(element@), classes_of(element@), 0) == Some(
                (pair.0@, pair.1@),
            ),
            None => key_clash(conflicts@, candidates@, keys_of(element@), classes_of(element@), 0) is None,
        },
{
    let classes = element_classes(element);
    let ids = element_ids(element);
    let ghost keys = keys_of(element@);
    let ghost whole = key_clash(conflicts@, candidates@, keys, classes_of(element@), 0);
    let mut i: usize = 0;
    while i < classes.len()
        invariant
            i <= classes@.len(),
            texts(classes@) == classes_of(element@),
            texts(ids@) == ids_of(element@),
            keys == keys_of(element@),
            whole == key_clash(conflicts@, candidates@, keys, classes_of(element@), 0),
            key_clash(conflicts@, candidates@, keys, classes_of(element@), i as int) == whole,
        decreases classes.len() - i,
    {
        let key = SelectorKey::Class(classes[i].clone());
        assert(texts(classes@)[i as int] == classes@[i as int]@);
        assert(keys[i as int] == key@);
        if let Some(generated) = candidates.get(&key) {
            if let Some(clash) = conflicts.find_first_clash(generated, &classes) {
                return Some(clash);
            }
        }
        i += 1;
    }
    let mut k: usize = 0;
    while k < ids.len()
        invariant
            k <= ids@.len(),
            texts(classes@) == classes_of(element@),
            texts(ids@) == ids_of(element@),
            keys == keys_of(element@),
            whole == key_clash(conflicts@, candidates@, keys, classes_of(element@), 0),
            key_clash(conflicts@, candidates@, keys, classes_of(element@), classes@.len() + k) == whole,
        decreases ids.len() - k,
    {
        let key = SelectorKey::Id(ids[k].clone());
        assert(texts(ids@)[k as int] == ids@[k as int]@);
        assert(texts(classes@).len() == classes@.len());
        assert(keys[classes@.len() + k] == key@);
        if let Some(generated) = candidates.get(&key) {
            if let Some(clash) = conflicts.find_first_clash(generated, &classes) {
                return Some(clash);
            }
        }
        k += 1;
    }
    assert(texts(classes@).len() == classes@.len());
    assert(texts(ids@).len() == ids@.len());
    None
}

/// The span of the element's authored class attribute.
pub open spec fn class_span(element: ElementModel) -> (int, int) {
    match element.class_attribute {
        Some(attribute) => (attribute.start, attribute.end),
        None => (0, 0),
    }
}

fn get_class_span(element: &HtmlElement) -> (result: (usize, usize))
    ensures
        class_span(element@) == (result.0 as int, result.1 as int),
{
    match &element.class_attribute {
        Some(attribute) => (attribute.start, attribute.end),
        None => (0, 0),
    }
}

/// `plan` with the warning that a conflict calls for.
pub open spec fn with_conflict(
    plan: PlanModel,
    file: Seq<char>,
    element: ElementModel,
    clash: Option<(Seq<char>, Seq<char>)>,
) -> PlanModel {
    match clash {
        Some(clash) => PlanModel {
            warnings: plan.warnings.push(
                conflict_warning(file, class_span(element).0, class_span(element).1, clash.0, clash.1),
            ),
            ..plan
        },
        None => plan,
    }
}

fn push_conflict(plan: &mut SourcePlan, file: &String, element: &HtmlElement, clash: Option<(String, String)>)
    ensures
        final(plan)@ == with_conflict(
            old(plan)@,
            file@,
            element@,
            match clash {
                Some(pair) => Some((pair.0@, pair.1@)),
                None => None,
            },
        ),
{
    if let Some(clash) = clash {
        let ghost before = plan.warnings@;
        plan.warnings.push(
            Warning::existing_tailwind_conflict(
                file.as_str(),
                get_class_span(element),
                clash.0.as_str(),
                clash.1.as_str(),
            ),
        );
        assert(views(plan.warnings@) =~= views(before).push(plan.warnings@.last()@));
    }
}

/// The element's class attribute as it stands in the source, where it can be
/// written.
pub open spec fn writable_site(element: ElementModel, live: Seq<LiveModel>) -> Option<AttributeModel> {
    match element.class_attribute {
        Some(attribute) => if attribute.writable {
            site_at(live, attribute.start)
        } else {
            None
        },
        None => None,
    }
}

/// What is written over a class attribute.
pub open spec fn class_replacement(
    attribute: AttributeModel,
    classes: Seq<Seq<char>>,
    new_ones: Seq<Seq<char>>,
    js_site: Option<(char, Seq<char>)>,
) -> Seq<char> {
    let value = joined(classes + new_ones, " "@);
    if attribute.synthetic {
        " class=\""@ + value + "\""@
    } else {
        match js_site {
            Some(site) => rendered(
                site.1,
                attribute.value,
                site.0,
                attribute.quote_key,
                attribute.object_shorthand,
                new_ones,
            ),
            None => value,
        }
    }
}

/// The site of an element's class attribute.
pub open spec fn element_site(source: Seq<char>, attribute: AttributeModel, element: ElementModel) -> SiteModel {
    SiteModel {
        start: attribute.start,
        end: attribute.end,
        element_start: element.node_start,
        quote: outer_quote(source, attribute),
        directive: site_of(source, attribute) is Some,
    }
}

/// What is collected for an element's class attribute.
pub open spec fn element_gathered(
    plan: PlanModel,
    file: FileModel,
    attribute: AttributeModel,
    element: ElementModel,
    entries: Entries,
    contexts: Seq<ContextModel>,
    prefix: Option<Seq<char>>,
) -> ClassesModel {
    let site = element_site(file.source, attribute, element);
    let writable = writable_of(element);
    let state = with_classes_of(
        ClassesModel {
            gathered: GatheredModel {
                additions: seq![],
                emitted: plan.candidates,
                matches: plan.matches,
                complete: true,
            },
            refs: plan.module_refs,
            matched: plan.matched_module_refs,
        },
        site,
        writable,
        entries,
        contexts,
        prefix,
        writable.len() as int,
    );
    let unconditional = match element.write_classes {
        Some(classes) => classes.len() == 0,
        None => true,
    };
    if unconditional {
        let ids = ids_of(element);
        ClassesModel {
            gathered: with_ids(state.gathered, site, ids, entries, contexts, prefix, ids.len() as int),
            ..state
        }
    } else {
        state
    }
}

/// The classes on the rendered element, in ascending order.
pub open spec fn existing_classes(element: ElementModel, classes: Seq<Seq<char>>) -> Seq<Seq<char>> {
    with_names(with_names(seq![], classes_of(element)), classes)
}

/// `plan` with what collecting for one element's writable class attribute
/// yields.
pub open spec fn with_site_plan(
    plan: PlanModel,
    file: FileModel,
    attribute: AttributeModel,
    element: ElementModel,
    state: ClassesModel,
    pairs: Seq<(Seq<char>, Seq<char>)>,
) -> PlanModel {
    let classes = tokens(attribute.value);
    let additions = state.gathered.additions;
    let new_ones = fresh_ones(additions, classes, additions.len() as int);
    let replacement = class_replacement(attribute, classes, new_ones, site_of(file.source, attribute));
    let collected = with_conflict(
        PlanModel {
            candidates: state.gathered.emitted,
            matches: state.gathered.matches,
            module_refs: state.refs,
            matched_module_refs: state.matched,
            ..plan
        },
        file.path,
        element,
        first_clash(pairs, additions, existing_classes(element, classes), 0),
    );
    if (!attribute.synthetic || (classes + new_ones).len() > 0) && (new_ones.len() > 0 || attribute.js_quote is None)
        && replacement != attribute.value {
        PlanModel {
            edits: collected.edits.push(EditModel { start: attribute.start, end: attribute.end, replacement }),
            ..collected
        }
    } else {
        collected
    }
}

/// `plan` with one more element.
pub open spec fn with_element(
    plan: PlanModel,
    file: FileModel,
    css_path: Seq<char>,
    live: Seq<LiveModel>,
    element: ElementModel,
    entries: Entries,
    contexts: Seq<ContextModel>,
    prefix: Option<Seq<char>>,
    pairs: Seq<(Seq<char>, Seq<char>)>,
) -> PlanModel {
    if !in_context(element, css_path) {
        plan
    } else {
        match writable_site(element, live) {
            None => with_conflict(
                plan,
                file.path,
                element,
                key_clash(pairs, entries, keys_of(element), classes_of(element), 0),
            ),
            Some(attribute) => if directive_metadata(attribute) && site_of(file.source, attribute) is None {
                let writable = writable_of(element);
                PlanModel {
                    module_refs: plan.module_refs + referred(writable, entries, writable.len() as int),
                    ..plan
                }
            } else {
                with_site_plan(
                    plan,
                    file,
                    attribute,
                    element,
                    element_gathered(plan, file, attribute, element, entries, contexts, prefix),
                    pairs,
                )
            },
        }
    }
}

/// The plan for the first `n` elements.
pub open spec fn planned_elements(
    file: FileModel,
    css_path: Seq<char>,
    entries: Entries,
    prefix: Option<Seq<char>>,
    pairs: Seq<(Seq<char>, Seq<char>)>,
    n: int,
) -> PlanModel
    decreases n,
{
    if n <= 0 {
        no_plan()
    } else {
        with_element(
            planned_elements(file, css_path, entries, prefix, pairs, n - 1),
            file,
            css_path,
            live_sites(file),
            file.html_elements[n - 1],
            entries,
            contexts_of(file, css_path),
            prefix,
            pairs,
        )
    }
}

/// What an HTML-like file becomes when the candidates of a stylesheet are
/// written into it.
pub open spec fn html_plan(
    file: FileModel,
    css_path: Seq<char>,
    entries: Entries,
    prefix: Option<Seq<char>>,
    pairs: Seq<(Seq<char>, Seq<char>)>,
) -> PlanModel {
    if contexts_of(file, css_path).len() == 0 {
        no_plan()
    } else {
        planned_elements(file, css_path, entries, prefix, pairs, file.html_elements.len() as int)
    }
}

fn collect_classes(
    gathered: &mut Gathered,
    refs: &mut References,
    matched: &mut References,
    site: &Site,
    classes: &Vec<String>,
    candidates: &Candidates,
    contexts: &Vec<HtmlStylesheet>,
    prefix: &Option<String>,
)
    ensures
        (ClassesModel { gathered: final(gathered)@, refs: final(refs)@, matched: final(matched)@ }) == with_classes_of(
            ClassesModel { gathered: old(gathered)@, refs: old(refs)@, matched: old(matched)@ },
            site@,
            texts(classes@),
            candidates@,
            views(contexts@),
            maybe(*prefix),
            classes@.len() as int,
        ),
{
    let ghost start = ClassesModel { gathered: gathered@, refs: refs@, matched: matched@ };
    let mut i: usize = 0;
    while i < classes.len()
        invariant
            i <= classes@.len(),
            (ClassesModel { gathered: gathered@, refs: refs@, matched: matched@ }) == with_classes_of(
                start,
                site@,
                texts(classes@),
                candidates@,
                views(contexts@),
                maybe(*prefix),
                i as int,
            ),
        decreases classes.len() - i,
    {
        let class = &classes[i];
        assert(texts(classes@)[i as int] == class@);
        let key = SelectorKey::Class(class.clone());
        let known = candidates.has(&key);
        collect_candidates(gathered, site, &key, candidates, contexts, prefix);
        // A candidate that cannot be written into this attribute leaves the
        // reference unmigrated, which must block rule removal.
        if known {
            refs.record(class.as_str());
            if gathered.complete {
                matched.record(class.as_str());
            }
        }
        i += 1;
    }
}

fn collect_ids(
    gathered: &mut Gathered,
    site: &Site,
    ids: &Vec<String>,
    candidates: &Candidates,
    contexts: &Vec<HtmlStylesheet>,
    prefix: &Option<String>,
)
    ensures
        final(gathered)@ == with_ids(
            old(gathered)@,
            site@,
            texts(ids@),
            candidates@,
            views(contexts@),
            maybe(*prefix),
            ids@.len() as int,
        ),
{
    let ghost start = gathered@;
    let mut i: usize = 0;
    while i < ids.len()
        invariant
            i <= ids@.len(),
            gathered@ == with_ids(
                start,
                site@,
                texts(ids@),
                candidates@,
                views(contexts@),
                maybe(*prefix),
                i as int,
            ),
        decreases ids.len() - i,
    {
        assert(texts(ids@)[i as int] == ids@[i as int]@);
        let key = SelectorKey::Id(ids[i].clone());
        collect_candidates(gathered, site, &key, candidates, contexts, prefix);
        i += 1;
    }
}

fn record_referred(refs: &mut References, classes: &Vec<String>, candidates: &Candidates)
    ensures
        final(refs)@ == old(refs)@ + referred(texts(classes@), candidates@, classes@.len() as int),
{
    let ghost start = refs@;
    let mut i: usize = 0;
    assert(refs@ =~= start + referred(texts(classes@), candidates@, 0));
    while i < classes.len()
        invariant
            i <= classes@.len(),
            refs@ == start + referred(texts(classes@), candidates@, i as int),
        decreases classes.len() - i,
    {
        assert(texts(classes@)[i as int] == classes@[i as int]@);
        let key = SelectorKey::Class(classes[i].clone());
        if candidates.has(&key) {
            refs.record(classes[i].as_str());
            assert(refs@ =~= start + referred(texts(classes@), candidates@, i + 1));
        }
        i += 1;
    }
}

fn find_fresh(additions: &Vec<String>, classes: &Vec<String>) -> (result: Vec<String>)
    ensures
        texts(result@) == fresh_ones(texts(additions@), texts(classes@), additions@.len() as int),
{
    let mut result: Vec<String> = Vec::new();
    let mut i: usize = 0;
    assert(texts(result@) =~= Seq::<Seq<char>>::empty());
    while i < additions.len()
        invariant
            i <= additions@.len(),
            texts(result@) == fresh_ones(texts(additions@), texts(classes@), i as int),
        decreases additions.len() - i,
    {
        let addition = &additions[i];
        assert(texts(additions@)[i as int] == addition@);
        if !list_has(classes, addition.as_str()) && !list_has(&result, addition.as_str()) {
            let ghost before = result@;
            result.push(addition.clone());
            assert(texts(result@) =~= texts(before).push(addition@));
        }
        i += 1;
    }
    result
}

fn write_class_replacement(
    attribute: &HtmlAttribute,
    classes: &Vec<String>,
    new_ones: &Vec<String>,
    js_site: &Option<(char, String)>,
) -> (result: String)
    ensures
        result@ == class_replacement(
            attribute@,
            texts(classes@),
            texts(new_ones@),
            match js_site {
                Some(site) => Some((site.0, site.1@)),
                None => None,
            },
        ),
{
    let mut all = copy_texts(classes);
    push_texts(&mut all, new_ones);
    let value = join(&all, " ");
    if attribute.synthetic {
        let mut result = " class=\"".to_owned();
        result.append(value.as_str());
        result.append("\"");
        return result;
    }
    match js_site {
        Some(site) => render_js_site(
            site.1.as_str(),
            attribute.value.as_str(),
            site.0,
            attribute.quote_key,
            attribute.object_shorthand,
            new_ones,
        ),
        None => value,
    }
}

/// The plan with one element's writable class attribute.
fn plan_site(
    plan: SourcePlan,
    file: &SourceFile,
    attribute: &HtmlAttribute,
    element: &HtmlElement,
    js_site: Option<(char, String)>,
    candidates: &Candidates,
    contexts: &Vec<HtmlStylesheet>,
    prefix: &Option<String>,
    conflicts: &Conflicts,
) -> (result: SourcePlan)
    requires
        site_of(file@.source, attribute@) == (match js_site {
            Some(site) => Some((site.0, site.1@)),
            None => None,
        }),
    ensures
        result@ == with_site_plan(
            plan@,
            file@,
            attribute@,
            element@,
            element_gathered(
                plan@,
                file@,
                attribute@,
                element@,
                candidates@,
                views(contexts@),
                maybe(*prefix),
            ),
            conflicts@,
        ),
{
    let site = Site {
        start: attribute.start,
        end: attribute.end,
        element_start: element.node_start,
        quote: attribute_outer_quote(file.source.as_str(), attribute),
        directive: js_site.is_some(),
    };
    let ghost start = plan@;
    let mut plan = plan;
    let mut gathered = Gathered {
        additions: Vec::new(),
        emitted: plan.candidates,
        matches: plan.matches,
        complete: true,
    };
    assert(gathered@.additions =~= Seq::<Seq<char>>::empty());
    let writable = writable_element_classes(element);
    collect_classes(
        &mut gathered,
        &mut plan.module_refs,
        &mut plan.matched_module_refs,
        &site,
        &writable,
        candidates,
        contexts,
        prefix,
    );
    assert(texts(writable@).len() == writable@.len());
    let unconditional = match &element.write_classes {
        Some(classes) => classes.len() == 0,
        None => true,
    };
    if unconditional {
        let ids = element_ids(element);
        assert(texts(ids@).len() == ids@.len());
        collect_ids(&mut gathered, &site, &ids, candidates, contexts, prefix);
    }
    let ghost state = element_gathered(
        start,
        file@,
        attribute@,
        element@,
        candidates@,
        views(contexts@),
        maybe(*prefix),
    );
    assert(gathered@ == state.gathered);
    // A generated utility that overlaps an existing Tailwind class on the
    // rendered element is appended with a warning, and Tailwind's output
    // order decides between them.
    let classes = class_tokens(attribute.value.as_str());
    let mut existing: Vec<String> = Vec::new();
    assert(texts(existing@) =~= Seq::<Seq<char>>::empty());
    insert_names(&mut existing, &element_classes(element));
    insert_names(&mut existing, &classes);
    let clash = conflicts.find_first_clash(&gathered.additions, &existing);
    let new_ones = find_fresh(&gathered.additions, &classes);
    assert(texts(gathered.additions@).len() == gathered.additions@.len());
    let replacement = write_class_replacement(attribute, &classes, &new_ones, &js_site);
    plan.candidates = gathered.emitted;
    plan.matches = gathered.matches;
    push_conflict(&mut plan, &file.path, element, clash);
    assert(texts(classes@).len() == classes@.len());
    assert(texts(new_ones@).len() == new_ones@.len());
    if (!attribute.synthetic || classes.len() > 0 || new_ones.len() > 0) && (new_ones.len() > 0
        || attribute.js_quote.is_none()) && !same(replacement.as_str(), attribute.value.as_str()) {
        let ghost before = plan.edits@;
        plan.edits.push(Edit { start: attribute.start, end: attribute.end, replacement });
        assert(views(plan.edits@) =~= views(before).push(plan.edits@.last()@));
    }
    plan
}

fn find_writable_site<'a>(element: &HtmlElement, live: &'a Vec<(usize, HtmlAttribute)>) -> (result: Option<
    &'a HtmlAttribute,
>)
    ensures
        match result {
            Some(found) => writable_site(element@, live_views(live@)) == Some(found@),
            None => writable_site(element@, live_views(live@)) is None,
        },
{
    match &element.class_attribute {
        Some(attribute) => if attribute.writable {
            find_site(live, attribute.start)
        } else {
            None
        },
        None => None,
    }
}

/// What an HTML-like file becomes when the candidates of a stylesheet are
/// written into it.
pub fn plan_html_file(
    file: &SourceFile,
    css_path: &str,
    candidates: &Candidates,
    prefix: &Option<String>,
    conflicts: &Conflicts,
) -> (result: SourcePlan)
    ensures
        result@ == html_plan(file@, css_path@, candidates@, maybe(*prefix), conflicts@),
{
    let contexts = file.analyzable_contexts(css_path);
    let mut plan = empty_source_plan();
    assert(views(contexts@).len() == contexts@.len());
    if contexts.len() == 0 {
        return plan;
    }
    let live = rebased_attributes(file);
    let mut i: usize = 0;
    while i < file.html_elements.len()
        invariant
            i <= file.html_elements@.len(),
            live_views(live@) == live_sites(file@),
            views(contexts@) == contexts_of(file@, css_path@),
            plan@ == planned_elements(file@, css_path@, candidates@, maybe(*prefix), conflicts@, i as int),
        decreases file.html_elements.len() - i,
    {
        let element = &file.html_elements[i];
        assert(file@.html_elements[i as int] == element@);
        if element_has_context(element, css_path) {
            match find_writable_site(element, &live) {
                None => {
                    // A read-only effective-root record receives the generated
                    // utility through fallthrough at runtime, so the conflict
                    // warning must still fire against its own classes.
                    let clash = readonly_conflict(element, candidates, conflicts);
                    push_conflict(&mut plan, &file.path, element, clash);
                },
                Some(attribute) => {
                    let js_site = directive_site(file.source.as_str(), attribute);
                    if has_directive_metadata(attribute) && js_site.is_none() {
                        let writable = writable_element_classes(element);
                        assert(texts(writable@).len() == writable@.len());
                        record_referred(&mut plan.module_refs, &writable, candidates);
                    } else {
                        plan = plan_site(
                            plan,
                            file,
                            attribute,
                            element,
                            js_site,
                            candidates,
                            &contexts,
                            prefix,
                            conflicts,
                        );
                    }
                },
            }
        }
        i += 1;
    }
    plan
}

// ---------------------------------------------------------------------------
// Module bindings
// ---------------------------------------------------------------------------

/// Where the element's `:class="$style.x"` stands now, as long as it does.
pub open spec fn binding_place(file: FileModel, element: ElementModel) -> Option<AttributeModel> {
    match element.module_binding {
        None => None,
        Some(binding) => match traced_site(bare(seq![], binding.start, binding.end, false), file.prior_edits, 0) {
            None => None,
            Some(place) => match cut(file.source, place.start, place.end) {
                Some(text) => if holds(text, "$style"@) {
                    Some(place)
                } else {
                    None
                },
                None => None,
            },
        },
    }
}

fn find_binding_place(file: &SourceFile, element: &HtmlElement) -> (result: Option<HtmlAttribute>)
    ensures
        maybe_view(result) == binding_place(file@, element@),
{
    let binding = match &element.module_binding {
        None => {
            return None;
        },
        Some(binding) => binding,
    };
    let authored = bare_attribute(String::new(), binding.start, binding.end, false);
    assert(authored@.value =~= Seq::empty());
    match trace_attribute(&authored, &file.prior_edits) {
        None => None,
        Some(place) => match copy_cut(file.source.as_str(), place.start, place.end) {
            Some(text) => if contains(text.as_str(), "$style") {
                Some(place)
            } else {
                None
            },
            None => None,
        },
    }
}

/// The class that the element's binding names.
pub open spec fn bound_name(element: ElementModel) -> Seq<char> {
    match element.module_binding {
        Some(binding) => binding.name,
        None => seq![],
    }
}

/// The site of a binding: what replaces it stands between double quotes.
pub open spec fn binding_site(place: AttributeModel, element: ElementModel) -> SiteModel {
    SiteModel {
        start: place.start,
        end: place.end,
        element_start: element.node_start,
        quote: Some('"'),
        directive: false,
    }
}

/// The element has a class attribute already, and can have no other.
pub open spec fn has_own_class(element: ElementModel) -> bool {
    element.class_attribute matches Some(attribute) && !attribute.synthetic
}

/// `plan` with what one element's binding becomes. A binding whose candidates
/// cannot all be written stays, and so does one of a class that stays
/// referenced: its candidates go before it.
pub open spec fn with_binding(
    plan: PlanModel,
    file: FileModel,
    css_path: Seq<char>,
    element: ElementModel,
    entries: Entries,
    preserved: Seq<Seq<char>>,
    contexts: Seq<ContextModel>,
    prefix: Option<Seq<char>>,
    pairs: Seq<(Seq<char>, Seq<char>)>,
) -> PlanModel {
    match binding_place(file, element) {
        None => plan,
        Some(place) => if !in_context(element, css_path) {
            plan
        } else {
            let name = bound_name(element);
            let key = KeyModel::Class(name);
            let gathered = with_key(
                GatheredModel {
                    additions: seq![],
                    emitted: plan.candidates,
                    matches: plan.matches,
                    complete: true,
                },
                binding_site(place, element),
                key,
                entries,
                contexts,
                prefix,
            );
            let referring = PlanModel { module_refs: plan.module_refs.push(name), ..plan };
            if held(entries, key) is None || !gathered.complete || has_own_class(element) {
                referring
            } else {
                let additions = gathered.additions;
                let classes = fresh_ones(additions, seq![], additions.len() as int);
                let collected = with_conflict(
                    PlanModel {
                        candidates: gathered.emitted,
                        matches: gathered.matches,
                        matched_module_refs: plan.matched_module_refs.push(name),
                        ..referring
                    },
                    file.path,
                    element,
                    first_clash(pairs, additions, existing_classes(element, seq![]), 0),
                );
                PlanModel {
                    edits: collected.edits.push(
                        EditModel {
                            start: place.start,
                            end: if preserved.contains(name) {
                                place.start
                            } else {
                                place.end
                            },
                            replacement: " class=\""@ + joined(classes, " "@) + "\""@,
                        },
                    ),
                    ..collected
                }
            }
        },
    }
}

/// The plan for the bindings of the first `n` elements.
pub open spec fn planned_bindings(
    file: FileModel,
    css_path: Seq<char>,
    entries: Entries,
    preserved: Seq<Seq<char>>,
    prefix: Option<Seq<char>>,
    pairs: Seq<(Seq<char>, Seq<char>)>,
    n: int,
) -> PlanModel
    decreases n,
{
    if n <= 0 {
        no_plan()
    } else {
        with_binding(
            planned_bindings(file, css_path, entries, preserved, prefix, pairs, n - 1),
            file,
            css_path,
            file.html_elements[n - 1],
            entries,
            preserved,
            contexts_of(file, css_path),
            prefix,
            pairs,
        )
    }
}

/// The element's binding names a class without a rule.
pub open spec fn unresolved(file: FileModel, css_path: Seq<char>, element: ElementModel, rule_classes: Seq<Seq<char>>) -> bool {
    binding_place(file, element) is Some && in_context(element, css_path) && !rule_classes.contains(
        bound_name(element),
    )
}

/// Some binding of the component names a class without a rule. Without its
/// block `$style` would be gone for that binding, too.
pub open spec fn any_unresolved(file: FileModel, css_path: Seq<char>, rule_classes: Seq<Seq<char>>) -> bool {
    exists|i: int|
        0 <= i < file.html_elements.len() && unresolved(
            file,
            css_path,
            #[trigger] file.html_elements[i],
            rule_classes,
        )
}

/// What a component becomes when the candidates of its `<style module>` block
/// are written into it. `rule_classes` are the classes of the block's rules,
/// where bindings have to name one of them.
pub open spec fn vue_module_plan(
    file: FileModel,
    css_path: Seq<char>,
    entries: Entries,
    preserved: Seq<Seq<char>>,
    rule_classes: Option<Seq<Seq<char>>>,
    prefix: Option<Seq<char>>,
    pairs: Seq<(Seq<char>, Seq<char>)>,
) -> PlanModel {
    if rule_classes matches Some(classes) && any_unresolved(file, css_path, classes) {
        PlanModel { module_references_safe: false, ..no_plan() }
    } else {
        planned_bindings(file, css_path, entries, preserved, prefix, pairs, file.html_elements.len() as int)
    }
}

fn is_any_unresolved(file: &SourceFile, css_path: &str, rule_classes: &Vec<String>) -> (result: bool)
    ensures
        result == any_unresolved(file@, css_path@, texts(rule_classes@)),
{
    let mut i: usize = 0;
    while i < file.html_elements.len()
        invariant
            i <= file.html_elements@.len(),
            forall|j: int|
                0 <= j < i ==> !unresolved(
                    file@,
                    css_path@,
                    #[trigger] file@.html_elements[j],
                    texts(rule_classes@),
                ),
        decreases file.html_elements.len() - i,
    {
        let element = &file.html_elements[i];
        assert(file@.html_elements[i as int] == element@);
        if let Some(binding) = &element.module_binding {
            if find_binding_place(file, element).is_some() && element_has_context(element, css_path) && !list_has(
                rule_classes,
                binding.name.as_str(),
            ) {
                assert(unresolved(file@, css_path@, file@.html_elements[i as int], texts(rule_classes@)));
                return true;
            }
        }
        i += 1;
    }
    false
}

fn write_class_attribute(classes: &Vec<String>) -> (result: String)
    ensures
        result@ == " class=\""@ + joined(texts(classes@), " "@) + "\""@,
{
    let mut result = " class=\"".to_owned();
    result.append(join(classes, " ").as_str());
    result.append("\"");
    result
}

fn plan_binding(
    plan: SourcePlan,
    file: &SourceFile,
    css_path: &str,
    element: &HtmlElement,
    candidates: &Candidates,
    preserved: &Vec<String>,
    contexts: &Vec<HtmlStylesheet>,
    prefix: &Option<String>,
    conflicts: &Conflicts,
) -> (result: SourcePlan)
    ensures
        result@ == with_binding(
            plan@,
            file@,
            css_path@,
            element@,
            candidates@,
            texts(preserved@),
            views(contexts@),
            maybe(*prefix),
            conflicts@,
        ),
{
    let place = match find_binding_place(file, element) {
        Some(place) => place,
        None => {
            return plan;
        },
    };
    let name = match &element.module_binding {
        Some(binding) => binding.name.clone(),
        None => {
            return plan;
        },
    };
    if !element_has_context(element, css_path) {
        return plan;
    }
    let mut plan = plan;
    let key = SelectorKey::Class(name.clone());
    let known = candidates.has(&key);
    let own_class = match &element.class_attribute {
        Some(attribute) => !attribute.synthetic,
        None => false,
    };
    let site = Site {
        start: place.start,
        end: place.end,
        element_start: element.node_start,
        quote: Some('"'),
        directive: false,
    };
    let mut gathered = Gathered {
        additions: Vec::new(),
        emitted: copy_texts(&plan.candidates),
        matches: duplicate_all(&plan.matches),
        complete: true,
    };
    assert(gathered@.additions =~= Seq::<Seq<char>>::empty());
    collect_candidates(&mut gathered, &site, &key, candidates, contexts, prefix);
    plan.module_refs.record(name.as_str());
    if !known || !gathered.complete || own_class {
        return plan;
    }
    plan.matched_module_refs.record(name.as_str());
    let none: Vec<String> = Vec::new();
    assert(texts(none@) =~= Seq::empty());
    let mut existing: Vec<String> = Vec::new();
    assert(texts(existing@) =~= Seq::<Seq<char>>::empty());
    insert_names(&mut existing, &element_classes(element));
    insert_names(&mut existing, &none);
    let clash = conflicts.find_first_clash(&gathered.additions, &existing);
    let classes = find_fresh(&gathered.additions, &none);
    assert(texts(gathered.additions@).len() == gathered.additions@.len());
    plan.candidates = gathered.emitted;
    plan.matches = gathered.matches;
    push_conflict(&mut plan, &file.path, element, clash);
    let end = if list_has(preserved, name.as_str()) {
        place.start
    } else {
        place.end
    };
    let ghost before = plan.edits@;
    plan.edits.push(Edit { start: place.start, end, replacement: write_class_attribute(&classes) });
    assert(views(plan.edits@) =~= views(before).push(plan.edits@.last()@));
    plan
}

/// What a component becomes when the candidates of its `<style module>` block
/// are written into it.
pub fn plan_vue_module_file(
    file: &SourceFile,
    css_path: &str,
    candidates: &Candidates,
    preserved: &Vec<String>,
    rule_classes: Option<&Vec<String>>,
    prefix: &Option<String>,
    conflicts: &Conflicts,
) -> (result: SourcePlan)
    ensures
        result@ == vue_module_plan(
            file@,
            css_path@,
            candidates@,
            texts(preserved@),
            match rule_classes {
                Some(classes) => Some(texts(classes@)),
                None => None,
            },
            maybe(*prefix),
            conflicts@,
        ),
{
    let mut plan = empty_source_plan();
    if let Some(classes) = rule_classes {
        if is_any_unresolved(file, css_path, classes) {
            plan.module_references_safe = false;
            return plan;
        }
    }
    let contexts = file.analyzable_contexts(css_path);
    let mut i: usize = 0;
    while i < file.html_elements.len()
        invariant
            i <= file.html_elements@.len(),
            views(contexts@) == contexts_of(file@, css_path@),
            plan@ == planned_bindings(
                file@,
                css_path@,
                candidates@,
                texts(preserved@),
                maybe(*prefix),
                conflicts@,
                i as int,
            ),
        decreases file.html_elements.len() - i,
    {
        let element = &file.html_elements[i];
        assert(file@.html_elements[i as int] == element@);
        plan = plan_binding(
            plan,
            file,
            css_path,
            element,
            candidates,
            preserved,
            &contexts,
            prefix,
            conflicts,
        );
        i += 1;
    }
    plan
}

/// Whatever is collected for a site can be written there.
pub open spec fn all_writable(gathered: GatheredModel, site: SiteModel) -> bool {
    forall|i: int| 0 <= i < gathered.additions.len() ==> !unwritable(#[trigger] gathered.additions[i], site)
}

proof fn lemma_origin_writable(
    gathered: GatheredModel,
    site: SiteModel,
    key: KeyModel,
    origin: Seq<char>,
    contexts: Seq<ContextModel>,
    prefix: Option<Seq<char>>,
    n: int,
)
    requires
        all_writable(gathered, site),
    ensures
        all_writable(with_origin(gathered, site, key, origin, contexts, prefix, n), site),
    decreases n,
{
    if n > 0 {
        lemma_origin_writable(gathered, site, key, origin, contexts, prefix, n - 1);
    }
}

proof fn lemma_origins_writable(
    gathered: GatheredModel,
    site: SiteModel,
    key: KeyModel,
    origins: Seq<Seq<char>>,
    contexts: Seq<ContextModel>,
    prefix: Option<Seq<char>>,
    n: int,
)
    requires
        all_writable(gathered, site),
    ensures
        all_writable(with_origins(gathered, site, key, origins, contexts, prefix, n), site),
    decreases n,
{
    if n > 0 {
        lemma_origins_writable(gathered, site, key, origins, contexts, prefix, n - 1);
        lemma_origin_writable(
            with_origins(gathered, site, key, origins, contexts, prefix, n - 1),
            site,
            key,
            origins[n - 1],
            contexts,
            prefix,
            contexts.len() as int,
        );
    }
}

proof fn lemma_classes_writable(
    state: ClassesModel,
    site: SiteModel,
    classes: Seq<Seq<char>>,
    entries: Entries,
    contexts: Seq<ContextModel>,
    prefix: Option<Seq<char>>,
    n: int,
)
    requires
        all_writable(state.gathered, site),
    ensures
        all_writable(with_classes_of(state, site, classes, entries, contexts, prefix, n).gathered, site),
    decreases n,
{
    if n > 0 {
        lemma_classes_writable(state, site, classes, entries, contexts, prefix, n - 1);
        let before = with_classes_of(state, site, classes, entries, contexts, prefix, n - 1).gathered;
        let key = KeyModel::Class(classes[n - 1]);
        if let Some(origins) = held(entries, key) {
            lemma_origins_writable(
                GatheredModel { complete: true, ..before },
                site,
                key,
                origins,
                contexts,
                prefix,
                origins.len() as int,
            );
        }
    }
}

proof fn lemma_ids_writable(
    gathered: GatheredModel,
    site: SiteModel,
    ids: Seq<Seq<char>>,
    entries: Entries,
    contexts: Seq<ContextModel>,
    prefix: Option<Seq<char>>,
    n: int,
)
    requires
        all_writable(gathered, site),
    ensures
        all_writable(with_ids(gathered, site, ids, entries, contexts, prefix, n), site),
    decreases n,
{
    if n > 0 {
        lemma_ids_writable(gathered, site, ids, entries, contexts, prefix, n - 1);
        let before = with_ids(gathered, site, ids, entries, contexts, prefix, n - 1);
        let key = KeyModel::Id(ids[n - 1]);
        if let Some(origins) = held(entries, key) {
            lemma_origins_writable(
                GatheredModel { complete: true, ..before },
                site,
                key,
                origins,
                contexts,
                prefix,
                origins.len() as int,
            );
        }
    }
}

/// Nothing is written into an attribute that would end it: every class that
/// an element's site gains is free of the quote around it, and inside a
/// directive expression it is free of `&` too.
pub proof fn additions_fit_their_site(
    plan: PlanModel,
    file: FileModel,
    attribute: AttributeModel,
    element: ElementModel,
    entries: Entries,
    contexts: Seq<ContextModel>,
    prefix: Option<Seq<char>>,
)
    ensures
        all_writable(
            element_gathered(plan, file, attribute, element, entries, contexts, prefix).gathered,
            element_site(file.source, attribute, element),
        ),
{
    let site = element_site(file.source, attribute, element);
    let writable = writable_of(element);
    let ids = ids_of(element);
    let start = ClassesModel {
        gathered: GatheredModel {
            additions: seq![],
            emitted: plan.candidates,
            matches: plan.matches,
            complete: true,
        },
        refs: plan.module_refs,
        matched: plan.matched_module_refs,
    };
    lemma_classes_writable(start, site, writable, entries, contexts, prefix, writable.len() as int);
    let state = with_classes_of(start, site, writable, entries, contexts, prefix, writable.len() as int);
    lemma_ids_writable(state.gathered, site, ids, entries, contexts, prefix, ids.len() as int);
}

/// No name is matched more often than it is referred to.
pub open spec fn matched_within(matched: Seq<Seq<char>>, refs: Seq<Seq<char>>) -> bool {
    forall|name: Seq<char>| #[trigger] occurrences_of(matched, name) <= occurrences_of(refs, name)
}

proof fn lemma_classes_matched(
    state: ClassesModel,
    site: SiteModel,
    classes: Seq<Seq<char>>,
    entries: Entries,
    contexts: Seq<ContextModel>,
    prefix: Option<Seq<char>>,
    n: int,
)
    requires
        matched_within(state.matched, state.refs),
    ensures
        matched_within(
            with_classes_of(state, site, classes, entries, contexts, prefix, n).matched,
            with_classes_of(state, site, classes, entries, contexts, prefix, n).refs,
        ),
    decreases n,
{
    if n > 0 {
        lemma_classes_matched(state, site, classes, entries, contexts, prefix, n - 1);
        let before = with_classes_of(state, site, classes, entries, contexts, prefix, n - 1);
        let after = with_classes_of(state, site, classes, entries, contexts, prefix, n);
        assert forall|name: Seq<char>| #[trigger]
            occurrences_of(after.matched, name) <= occurrences_of(after.refs, name) by {
            assert(occurrences_of(before.matched, name) <= occurrences_of(before.refs, name));
            assert(before.refs.push(classes[n - 1]).drop_last() =~= before.refs);
            assert(before.matched.push(classes[n - 1]).drop_last() =~= before.matched);
        }
    }
}

proof fn lemma_elements_matched(
    file: FileModel,
    css_path: Seq<char>,
    entries: Entries,
    prefix: Option<Seq<char>>,
    pairs: Seq<(Seq<char>, Seq<char>)>,
    n: int,
)
    ensures
        matched_within(
            planned_elements(file, css_path, entries, prefix, pairs, n).matched_module_refs,
            planned_elements(file, css_path, entries, prefix, pairs, n).module_refs,
        ),
    decreases n,
{
    if n > 0 {
        lemma_elements_matched(file, css_path, entries, prefix, pairs, n - 1);
        let before = planned_elements(file, css_path, entries, prefix, pairs, n - 1);
        let element = file.html_elements[n - 1];
        let contexts = contexts_of(file, css_path);
        let writable = writable_of(element);
        if let Some(attribute) = writable_site(element, live_sites(file)) {
            if directive_metadata(attribute) && site_of(file.source, attribute) is None {
                let more = referred(writable, entries, writable.len() as int);
                assert forall|name: Seq<char>| #[trigger]
                    occurrences_of(before.matched_module_refs, name) <= occurrences_of(
                        before.module_refs + more,
                        name,
                    ) by {
                    merged_counts_add_up(before.module_refs, more, name);
                }
            } else {
                let start = ClassesModel {
                    gathered: GatheredModel {
                        additions: seq![],
                        emitted: before.candidates,
                        matches: before.matches,
                        complete: true,
                    },
                    refs: before.module_refs,
                    matched: before.matched_module_refs,
                };
                lemma_classes_matched(
                    start,
                    element_site(file.source, attribute, element),
                    writable,
                    entries,
                    contexts,
                    prefix,
                    writable.len() as int,
                );
            }
        }
    }
}

/// A reference only counts as matched where it was referred to: the rule of a
/// class can be removed only if every reference to it was rewritten.
pub proof fn matches_never_exceed_references(
    file: FileModel,
    css_path: Seq<char>,
    entries: Entries,
    prefix: Option<Seq<char>>,
    pairs: Seq<(Seq<char>, Seq<char>)>,
    name: Seq<char>,
)
    ensures
        occurrences_of(html_plan(file, css_path, entries, prefix, pairs).matched_module_refs, name) <= occurrences_of(
            html_plan(file, css_path, entries, prefix, pairs).module_refs,
            name,
        ),
{
    lemma_elements_matched(file, css_path, entries, prefix, pairs, file.html_elements.len() as int);
}

proof fn lemma_bindings_matched(
    file: FileModel,
    css_path: Seq<char>,
    entries: Entries,
    preserved: Seq<Seq<char>>,
    prefix: Option<Seq<char>>,
    pairs: Seq<(Seq<char>, Seq<char>)>,
    n: int,
)
    ensures
        matched_within(
            planned_bindings(file, css_path, entries, preserved, prefix, pairs, n).matched_module_refs,
            planned_bindings(file, css_path, entries, preserved, prefix, pairs, n).module_refs,
        ),
    decreases n,
{
    if n > 0 {
        lemma_bindings_matched(file, css_path, entries, preserved, prefix, pairs, n - 1);
        let before = planned_bindings(file, css_path, entries, preserved, prefix, pairs, n - 1);
        let after = planned_bindings(file, css_path, entries, preserved, prefix, pairs, n);
        let name = bound_name(file.html_elements[n - 1]);
        assert forall|other: Seq<char>| #[trigger]
            occurrences_of(after.matched_module_refs, other) <= occurrences_of(after.module_refs, other) by {
            assert(occurrences_of(before.matched_module_refs, other) <= occurrences_of(before.module_refs, other));
            assert(before.module_refs.push(name).drop_last() =~= before.module_refs);
            assert(before.matched_module_refs.push(name).drop_last() =~= before.matched_module_refs);
        }
    }
}

/// A binding only counts as matched where it was referred to, too.
pub proof fn binding_matches_never_exceed_references(
    file: FileModel,
    css_path: Seq<char>,
    entries: Entries,
    preserved: Seq<Seq<char>>,
    rule_classes: Option<Seq<Seq<char>>>,
    prefix: Option<Seq<char>>,
    pairs: Seq<(Seq<char>, Seq<char>)>,
    name: Seq<char>,
)
    ensures
        ({
            let plan = vue_module_plan(file, css_path, entries, preserved, rule_classes, prefix, pairs);
            occurrences_of(plan.matched_module_refs, name) <= occurrences_of(plan.module_refs, name)
        }),
{
    lemma_bindings_matched(
        file,
        css_path,
        entries,
        preserved,
        prefix,
        pairs,
        file.html_elements.len() as int,
    );
}

} // verus!
