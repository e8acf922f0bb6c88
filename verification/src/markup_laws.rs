//! What HTML-like files keep and gain when utilities are written into them.
use crate::html_attribute::{byte_before, directive_metadata, rendered, runtime_value, with_classes, rendering_keeps_runtime_classes};
use crate::html_live::{live_sites, LiveModel};
use crate::html_rewrite::{
    binding_place, binding_site, bound_name, class_replacement, contextual, element_gathered, element_site, fresh_ones, html_plan, planned_elements, unwritable,
    with_binding, with_candidate, with_classes_of, with_element, with_ids, with_key, with_origin, with_origins, writable_site,
    ClassesModel, Entries, GatheredModel, SiteModel,
};
use crate::plan::{held, held_from, MatchModel, PlanModel};
use crate::selector::KeyModel;
use crate::source::{contexts_of, in_context, AttributeModel, ContextModel, ElementModel, FileModel};
use crate::text::{begins, is_word, joined, lemma_words_are_words, separates, splitting_undoes_joining, words, Separator};
use vstd::prelude::*;

verus! {

// ---------------------------------------------------------------------------
// Candidates
// ---------------------------------------------------------------------------

/// The first entry of the key holds the candidate.
pub open spec fn offers(entries: Entries, key: KeyModel, candidate: Seq<char>) -> bool {
    exists|i: int|
        0 <= i < entries.len() && (#[trigger] entries[i]).0 == key && entries[i].1.contains(candidate) && forall|j: int|
            0 <= j < i ==> (#[trigger] entries[j]).0 != key
}

/// Some entry is that of the key.
pub open spec fn has_entry(entries: Entries, key: KeyModel) -> bool {
    exists|i: int| 0 <= i < entries.len() && (#[trigger] entries[i]).0 == key
}

proof fn lemma_held_from(entries: Entries, key: KeyModel, i: int)
    requires
        0 <= i <= entries.len(),
        forall|j: int| 0 <= j < i ==> (#[trigger] entries[j]).0 != key,
    ensures
        held_from(entries, key, i) is Some <==> has_entry(entries, key),
        forall|candidate: Seq<char>|
            (held_from(entries, key, i) matches Some(list) && list.contains(candidate)) <==> #[trigger] offers(
                entries,
                key,
                candidate,
            ),
    decreases entries.len() - i,
{
    if i < entries.len() {
        if entries[i].0 == key {
            assert forall|candidate: Seq<char>| #[trigger]
                offers(entries, key, candidate) == entries[i].1.contains(candidate) by {
                if offers(entries, key, candidate) {
                    let k = choose|k: int|
                        0 <= k < entries.len() && (#[trigger] entries[k]).0 == key && entries[k].1.contains(candidate)
                            && forall|j: int| 0 <= j < k ==> (#[trigger] entries[j]).0 != key;
                    assert(k >= i);
                    if k > i {
                        assert(entries[i].0 != key);
                    }
                }
            }
        } else {
            lemma_held_from(entries, key, i + 1);
        }
    } else {
        assert forall|candidate: Seq<char>| !#[trigger] offers(entries, key, candidate) by {}
    }
}

/// The candidates of a key are those of its first entry.
pub proof fn candidates_are_those_of_the_first_entry(entries: Entries, key: KeyModel)
    ensures
        held(entries, key) is Some <==> has_entry(entries, key),
        forall|candidate: Seq<char>|
            (held(entries, key) matches Some(list) && list.contains(candidate)) <==> #[trigger] offers(
                entries,
                key,
                candidate,
            ),
{
    lemma_held_from(entries, key, 0);
}

/// A candidate under the variants of a link is the candidate itself with the
/// chain of the variants in it: behind the utility prefix where it has one, else
/// before everything. Without variants nothing changes.
pub proof fn links_put_their_variants_before_the_utility(
    candidate: Seq<char>,
    variants: Seq<Seq<char>>,
    prefix: Option<Seq<char>>,
)
    ensures
        variants.len() == 0 ==> contextual(candidate, variants, prefix) == candidate,
        variants.len() > 0 ==> exists|head: Seq<char>, tail: Seq<char>|
            candidate == head + tail && #[trigger] (head + joined(variants, ":"@) + seq![':'] + tail) == contextual(
                candidate,
                variants,
                prefix,
            ) && match prefix {
                Some(prefix) => if prefix.len() > 0 && begins(candidate, prefix + seq![':']) {
                    head == prefix + seq![':']
                } else {
                    head.len() == 0
                },
                None => head.len() == 0,
            },
{
    reveal_strlit(":");
    assert(":"@ =~= seq![':']);
    if variants.len() > 0 {
        let chain = joined(variants, ":"@);
        let none = Seq::<char>::empty();
        assert(candidate =~= none + candidate);
        assert(none + chain + seq![':'] + candidate =~= chain + ":"@ + candidate);
        if let Some(prefix) = prefix {
            let head = prefix + seq![':'];
            if prefix.len() > 0 && begins(candidate, head) {
                let tail = candidate.skip(head.len() as int);
                assert(candidate.subrange(0, head.len() as int) == head);
                assert(candidate =~= head + tail);
                assert(head + chain + seq![':'] + tail =~= prefix + ":"@ + chain + ":"@ + tail);
            }
        }
    }
}

// ---------------------------------------------------------------------------
// Growing lists of matches
// ---------------------------------------------------------------------------

/// A key, one of its candidates, and what a link makes of that.
pub type Want = (KeyModel, Seq<char>, Seq<char>);

/// The match says that this was wanted at the site.
pub open spec fn tells(found: MatchModel, site: SiteModel, want: Want) -> bool {
    &&& found.start == site.start
    &&& found.end == site.end
    &&& found.element_start == site.element_start
    &&& found.key == want.0
    &&& found.origin_candidate == want.1
    &&& found.candidate == want.2
}

/// The second list holds the first, and behind it one match and one addition
/// for everything that is wanted and can be written, and for nothing else.
pub open spec fn grown(before: GatheredModel, after: GatheredModel, site: SiteModel, wants: spec_fn(Want) -> bool) -> bool {
    let m = before.matches.len() as int;
    let a = before.additions.len() as int;
    &&& after.matches.len() - m == after.additions.len() - a
    &&& after.additions.len() >= a
    &&& forall|i: int| 0 <= i < m ==> #[trigger] after.matches[i] == before.matches[i]
    &&& forall|i: int| 0 <= i < a ==> #[trigger] after.additions[i] == before.additions[i]
    &&& forall|i: int| m <= i < after.matches.len() ==> is_wanted(#[trigger] after.matches[i], site, wants)
    &&& forall|i: int|
        m <= i < after.matches.len() ==> (#[trigger] after.matches[i]).candidate == after.additions[i - m + a]
    &&& forall|want: Want| #[trigger] wants(want) && !unwritable(want.2, site) ==> has_match(after.matches, m, site, want)
}

/// Something wanted stands behind the match.
pub open spec fn is_wanted(found: MatchModel, site: SiteModel, wants: spec_fn(Want) -> bool) -> bool {
    exists|want: Want| #[trigger] wants(want) && !unwritable(want.2, site) && tells(found, site, want)
}

/// One of the matches from `m` on says that this was wanted.
pub open spec fn has_match(matches: Seq<MatchModel>, m: int, site: SiteModel, want: Want) -> bool {
    exists|i: int| m <= i < matches.len() && tells(#[trigger] matches[i], site, want)
}

proof fn lemma_grown_both(
    a: GatheredModel,
    b: GatheredModel,
    c: GatheredModel,
    site: SiteModel,
    first: spec_fn(Want) -> bool,
    second: spec_fn(Want) -> bool,
    both: spec_fn(Want) -> bool,
)
    requires
        grown(a, b, site, first),
        grown(b, c, site, second),
        forall|want: Want| #[trigger] both(want) <==> first(want) || second(want),
    ensures
        grown(a, c, site, both),
{
    let m = a.matches.len() as int;
    assert forall|i: int| 0 <= i < m implies #[trigger] c.matches[i] == a.matches[i] by {
        assert(c.matches[i] == b.matches[i]);
    }
    assert forall|i: int| 0 <= i < a.additions.len() implies #[trigger] c.additions[i] == a.additions[i] by {
        assert(c.additions[i] == b.additions[i]);
    }
    assert forall|i: int| m <= i < c.matches.len() implies is_wanted(#[trigger] c.matches[i], site, both) by {
        if i < b.matches.len() {
            assert(c.matches[i] == b.matches[i]);
            assert(is_wanted(b.matches[i], site, first));
            let want = choose|want: Want|
                #[trigger] first(want) && !unwritable(want.2, site) && tells(b.matches[i], site, want);
            assert(both(want));
        } else {
            assert(is_wanted(c.matches[i], site, second));
            let want = choose|want: Want|
                #[trigger] second(want) && !unwritable(want.2, site) && tells(c.matches[i], site, want);
            assert(both(want));
        }
    }
    assert forall|i: int| m <= i < c.matches.len() implies (#[trigger] c.matches[i]).candidate == c.additions[i - m
        + a.additions.len()] by {
        if i < b.matches.len() {
            assert(c.matches[i] == b.matches[i]);
            assert(c.additions[i - m + a.additions.len()] == b.additions[i - m + a.additions.len()]);
        }
    }
    assert forall|want: Want| #[trigger] both(want) && !unwritable(want.2, site) implies has_match(
        c.matches,
        m,
        site,
        want,
    ) by {
        if first(want) {
            assert(has_match(b.matches, m, site, want));
            let i = choose|i: int| m <= i < b.matches.len() && tells(#[trigger] b.matches[i], site, want);
            assert(c.matches[i] == b.matches[i]);
        } else {
            assert(second(want));
            assert(has_match(c.matches, b.matches.len() as int, site, want));
            let i = choose|i: int|
                b.matches.len() <= i < c.matches.len() && tells(#[trigger] c.matches[i], site, want);
            assert(tells(c.matches[i], site, want));
        }
    }
}

proof fn lemma_grown_none(a: GatheredModel, b: GatheredModel, site: SiteModel, wants: spec_fn(Want) -> bool)
    requires
        a.matches == b.matches,
        a.additions == b.additions,
        forall|want: Want| !#[trigger] wants(want),
    ensures
        grown(a, b, site, wants),
{
}

proof fn lemma_grown_one(
    gathered: GatheredModel,
    site: SiteModel,
    key: KeyModel,
    origin: Seq<char>,
    candidate: Seq<char>,
    wants: spec_fn(Want) -> bool,
)
    requires
        forall|want: Want| #[trigger] wants(want) <==> want == (key, origin, candidate),
    ensures
        grown(gathered, with_candidate(gathered, site, key, origin, candidate), site, wants),
{
    let after = with_candidate(gathered, site, key, origin, candidate);
    let want = (key, origin, candidate);
    assert(wants(want));
    if !unwritable(candidate, site) {
        let m = gathered.matches.len() as int;
        assert(tells(after.matches[m], site, want));
        assert(is_wanted(after.matches[m], site, wants));
        assert(has_match(after.matches, m, site, want));
    }
}

/// What the first `n` links make of a candidate.
pub open spec fn by_links(
    key: KeyModel,
    origin: Seq<char>,
    contexts: Seq<ContextModel>,
    prefix: Option<Seq<char>>,
    n: int,
    want: Want,
) -> bool {
    &&& want.0 == key
    &&& want.1 == origin
    &&& exists|c: int|
        0 <= c < n && want.2 == contextual(origin, (#[trigger] contexts[c]).variants, prefix)
}

proof fn lemma_origin(
    gathered: GatheredModel,
    site: SiteModel,
    key: KeyModel,
    origin: Seq<char>,
    contexts: Seq<ContextModel>,
    prefix: Option<Seq<char>>,
    n: int,
)
    requires
        0 <= n <= contexts.len(),
    ensures
        grown(
            gathered,
            with_origin(gathered, site, key, origin, contexts, prefix, n),
            site,
            |want: Want| by_links(key, origin, contexts, prefix, n, want),
        ),
    decreases n,
{
    let all = |want: Want| by_links(key, origin, contexts, prefix, n, want);
    if n > 0 {
        lemma_origin(gathered, site, key, origin, contexts, prefix, n - 1);
        let before = with_origin(gathered, site, key, origin, contexts, prefix, n - 1);
        let candidate = contextual(origin, contexts[n - 1].variants, prefix);
        let one = |want: Want| want == (key, origin, candidate);
        lemma_grown_one(before, site, key, origin, candidate, one);
        let first = |want: Want| by_links(key, origin, contexts, prefix, n - 1, want);
        assert forall|want: Want| #[trigger] all(want) <==> first(want) || one(want) by {
            if all(want) {
                let c = choose|c: int|
                    0 <= c < n && want.2 == contextual(origin, (#[trigger] contexts[c]).variants, prefix);
                if c < n - 1 {
                    assert(contexts[c].variants == contexts[c].variants);
                }
            }
            if one(want) {
                assert(want.2 == contextual(origin, contexts[n - 1].variants, prefix));
            }
        }
        lemma_grown_both(
            gathered,
            before,
            with_origin(gathered, site, key, origin, contexts, prefix, n),
            site,
            first,
            one,
            all,
        );
    } else {
        lemma_grown_none(gathered, gathered, site, all);
    }
}

/// What the links make of the first `n` candidates.
pub open spec fn by_origins(
    key: KeyModel,
    origins: Seq<Seq<char>>,
    contexts: Seq<ContextModel>,
    prefix: Option<Seq<char>>,
    n: int,
    want: Want,
) -> bool {
    exists|j: int|
        0 <= j < n && by_links(key, #[trigger] origins[j], contexts, prefix, contexts.len() as int, want)
}

proof fn lemma_origins(
    gathered: GatheredModel,
    site: SiteModel,
    key: KeyModel,
    origins: Seq<Seq<char>>,
    contexts: Seq<ContextModel>,
    prefix: Option<Seq<char>>,
    n: int,
)
    requires
        0 <= n <= origins.len(),
    ensures
        grown(
            gathered,
            with_origins(gathered, site, key, origins, contexts, prefix, n),
            site,
            |want: Want| by_origins(key, origins, contexts, prefix, n, want),
        ),
    decreases n,
{
    let all = |want: Want| by_origins(key, origins, contexts, prefix, n, want);
    let count = contexts.len() as int;
    if n > 0 {
        lemma_origins(gathered, site, key, origins, contexts, prefix, n - 1);
        let before = with_origins(gathered, site, key, origins, contexts, prefix, n - 1);
        lemma_origin(before, site, key, origins[n - 1], contexts, prefix, count);
        let first = |want: Want| by_origins(key, origins, contexts, prefix, n - 1, want);
        let second = |want: Want| by_links(key, origins[n - 1], contexts, prefix, count, want);
        assert forall|want: Want| #[trigger] all(want) <==> first(want) || second(want) by {
            if all(want) {
                let j = choose|j: int|
                    0 <= j < n && by_links(key, #[trigger] origins[j], contexts, prefix, count, want);
                if j < n - 1 {
                    assert(by_links(key, origins[j], contexts, prefix, count, want));
                }
            }
            if first(want) {
                let j = choose|j: int|
                    0 <= j < n - 1 && by_links(key, #[trigger] origins[j], contexts, prefix, count, want);
                assert(by_links(key, origins[j], contexts, prefix, count, want));
            }
        }
        lemma_grown_both(
            gathered,
            before,
            with_origins(gathered, site, key, origins, contexts, prefix, n),
            site,
            first,
            second,
            all,
        );
    } else {
        lemma_grown_none(gathered, gathered, site, all);
    }
}

/// What the links make of a candidate of the key.
pub open spec fn by_key(
    entries: Entries,
    key: KeyModel,
    contexts: Seq<ContextModel>,
    prefix: Option<Seq<char>>,
    want: Want,
) -> bool {
    &&& want.0 == key
    &&& offers(entries, key, want.1)
    &&& exists|c: int|
        0 <= c < contexts.len() && want.2 == contextual(want.1, (#[trigger] contexts[c]).variants, prefix)
}

proof fn lemma_key(
    gathered: GatheredModel,
    site: SiteModel,
    key: KeyModel,
    entries: Entries,
    contexts: Seq<ContextModel>,
    prefix: Option<Seq<char>>,
)
    ensures
        grown(
            gathered,
            with_key(gathered, site, key, entries, contexts, prefix),
            site,
            |want: Want| by_key(entries, key, contexts, prefix, want),
        ),
{
    let all = |want: Want| by_key(entries, key, contexts, prefix, want);
    let fresh = GatheredModel { complete: true, ..gathered };
    candidates_are_those_of_the_first_entry(entries, key);
    match held(entries, key) {
        Some(origins) => {
            let n = origins.len() as int;
            let listed = |want: Want| by_origins(key, origins, contexts, prefix, n, want);
            lemma_origins(fresh, site, key, origins, contexts, prefix, n);
            assert forall|want: Want| #[trigger] all(want) <==> listed(want) by {
                if all(want) {
                    assert(origins.contains(want.1));
                    let j = choose|j: int| 0 <= j < origins.len() && origins[j] == want.1;
                    assert(by_links(key, origins[j], contexts, prefix, contexts.len() as int, want));
                }
                if listed(want) {
                    let j = choose|j: int|
                        0 <= j < n && by_links(
                            key,
                            #[trigger] origins[j],
                            contexts,
                            prefix,
                            contexts.len() as int,
                            want,
                        );
                    assert(origins.contains(origins[j]));
                    assert(offers(entries, key, want.1));
                }
            }
            let none = |want: Want| false;
            lemma_grown_none(gathered, fresh, site, none);
            lemma_grown_both(
                gathered,
                fresh,
                with_key(gathered, site, key, entries, contexts, prefix),
                site,
                none,
                listed,
                all,
            );
        },
        None => {
            assert forall|want: Want| !#[trigger] all(want) by {
                if all(want) {
                    assert(offers(entries, key, want.1));
                }
            }
            lemma_grown_none(gathered, fresh, site, all);
        },
    }
}

/// What the links make of a candidate of one of the first `n` classes.
pub open spec fn by_classes(
    entries: Entries,
    classes: Seq<Seq<char>>,
    contexts: Seq<ContextModel>,
    prefix: Option<Seq<char>>,
    n: int,
    want: Want,
) -> bool {
    exists|i: int| 0 <= i < n && by_key(entries, KeyModel::Class(#[trigger] classes[i]), contexts, prefix, want)
}

proof fn lemma_classes(
    state: ClassesModel,
    site: SiteModel,
    classes: Seq<Seq<char>>,
    entries: Entries,
    contexts: Seq<ContextModel>,
    prefix: Option<Seq<char>>,
    n: int,
)
    requires
        0 <= n <= classes.len(),
    ensures
        grown(
            state.gathered,
            with_classes_of(state, site, classes, entries, contexts, prefix, n).gathered,
            site,
            |want: Want| by_classes(entries, classes, contexts, prefix, n, want),
        ),
    decreases n,
{
    let all = |want: Want| by_classes(entries, classes, contexts, prefix, n, want);
    if n > 0 {
        lemma_classes(state, site, classes, entries, contexts, prefix, n - 1);
        let before = with_classes_of(state, site, classes, entries, contexts, prefix, n - 1).gathered;
        let key = KeyModel::Class(classes[n - 1]);
        lemma_key(before, site, key, entries, contexts, prefix);
        let first = |want: Want| by_classes(entries, classes, contexts, prefix, n - 1, want);
        let second = |want: Want| by_key(entries, key, contexts, prefix, want);
        assert forall|want: Want| #[trigger] all(want) <==> first(want) || second(want) by {
            if all(want) {
                let i = choose|i: int|
                    0 <= i < n && by_key(entries, KeyModel::Class(#[trigger] classes[i]), contexts, prefix, want);
                if i < n - 1 {
                    assert(by_key(entries, KeyModel::Class(classes[i]), contexts, prefix, want));
                }
            }
            if first(want) {
                let i = choose|i: int|
                    0 <= i < n - 1 && by_key(entries, KeyModel::Class(#[trigger] classes[i]), contexts, prefix, want);
                assert(by_key(entries, KeyModel::Class(classes[i]), contexts, prefix, want));
            }
        }
        lemma_grown_both(
            state.gathered,
            before,
            with_classes_of(state, site, classes, entries, contexts, prefix, n).gathered,
            site,
            first,
            second,
            all,
        );
    } else {
        lemma_grown_none(state.gathered, state.gathered, site, all);
    }
}

/// What the links make of a candidate of one of the first `n` ids.
pub open spec fn by_ids(
    entries: Entries,
    ids: Seq<Seq<char>>,
    contexts: Seq<ContextModel>,
    prefix: Option<Seq<char>>,
    n: int,
    want: Want,
) -> bool {
    exists|i: int| 0 <= i < n && by_key(entries, KeyModel::Id(#[trigger] ids[i]), contexts, prefix, want)
}

proof fn lemma_ids(
    gathered: GatheredModel,
    site: SiteModel,
    ids: Seq<Seq<char>>,
    entries: Entries,
    contexts: Seq<ContextModel>,
    prefix: Option<Seq<char>>,
    n: int,
)
    requires
        0 <= n <= ids.len(),
    ensures
        grown(
            gathered,
            with_ids(gathered, site, ids, entries, contexts, prefix, n),
            site,
            |want: Want| by_ids(entries, ids, contexts, prefix, n, want),
        ),
    decreases n,
{
    let all = |want: Want| by_ids(entries, ids, contexts, prefix, n, want);
    if n > 0 {
        lemma_ids(gathered, site, ids, entries, contexts, prefix, n - 1);
        let before = with_ids(gathered, site, ids, entries, contexts, prefix, n - 1);
        let key = KeyModel::Id(ids[n - 1]);
        lemma_key(before, site, key, entries, contexts, prefix);
        let first = |want: Want| by_ids(entries, ids, contexts, prefix, n - 1, want);
        let second = |want: Want| by_key(entries, key, contexts, prefix, want);
        assert forall|want: Want| #[trigger] all(want) <==> first(want) || second(want) by {
            if all(want) {
                let i = choose|i: int|
                    0 <= i < n && by_key(entries, KeyModel::Id(#[trigger] ids[i]), contexts, prefix, want);
                if i < n - 1 {
                    assert(by_key(entries, KeyModel::Id(ids[i]), contexts, prefix, want));
                }
            }
            if first(want) {
                let i = choose|i: int|
                    0 <= i < n - 1 && by_key(entries, KeyModel::Id(#[trigger] ids[i]), contexts, prefix, want);
                assert(by_key(entries, KeyModel::Id(ids[i]), contexts, prefix, want));
            }
        }
        lemma_grown_both(
            gathered,
            before,
            with_ids(gathered, site, ids, entries, contexts, prefix, n),
            site,
            first,
            second,
            all,
        );
    } else {
        lemma_grown_none(gathered, gathered, site, all);
    }
}

// ---------------------------------------------------------------------------
// Class attributes
// ---------------------------------------------------------------------------

/// The classes of an element whose candidates may be written at its site: those
/// that it says itself, else those that selectors match on it, else those of
/// its class attribute.
pub open spec fn own_classes(element: ElementModel) -> Seq<Seq<char>> {
    if element.write_classes is Some {
        element.write_classes->0
    } else if element.match_classes is Some {
        element.match_classes->0
    } else if element.class_attribute is Some {
        words((element.class_attribute->0).value, Separator::AsciiWhitespace)
    } else {
        seq![]
    }
}

/// The ids of an element whose candidates may be written at its site. A site
/// that holds only for some of the classes holds for no id.
pub open spec fn own_ids(element: ElementModel) -> Seq<Seq<char>> {
    if element.write_classes is Some && (element.write_classes->0).len() > 0 {
        seq![]
    } else if element.match_ids is Some {
        element.match_ids->0
    } else if element.id_attribute is Some {
        seq![(element.id_attribute->0).value]
    } else {
        seq![]
    }
}

/// What is wanted on an element.
pub open spec fn wanted_on(
    element: ElementModel,
    entries: Entries,
    contexts: Seq<ContextModel>,
    prefix: Option<Seq<char>>,
    want: Want,
) -> bool {
    by_classes(entries, own_classes(element), contexts, prefix, own_classes(element).len() as int, want) || by_ids(
        entries,
        own_ids(element),
        contexts,
        prefix,
        own_ids(element).len() as int,
        want,
    )
}

/// The class can stand in a plain attribute: it does not hold the quote that is
/// round the value, and neither quote where there is none.
pub open spec fn stands_in(source: Seq<char>, attribute: AttributeModel, class: Seq<char>) -> bool {
    if attribute.synthetic || byte_before(source, attribute.start) == Some(0x22u8) {
        !class.contains('"')
    } else if byte_before(source, attribute.start) == Some(0x27u8) {
        !class.contains('\'')
    } else {
        !class.contains('"') && !class.contains('\'')
    }
}

/// The class list that is written over an attribute; over one that does not
/// exist yet, the attribute is written whole.
pub open spec fn written_list(attribute: AttributeModel, replacement: Seq<char>) -> Seq<char> {
    if attribute.synthetic {
        replacement.subrange(8, replacement.len() - 1)
    } else {
        replacement
    }
}

/// What is written over an attribute that does not exist yet is one.
pub open spec fn is_whole(attribute: AttributeModel, replacement: Seq<char>) -> bool {
    attribute.synthetic ==> replacement.len() >= 9 && replacement.take(8) == " class=\""@ && replacement.last() == '"'
}

/// The classes of an attribute stay where they are, and those that are added
/// come behind them: each of them was wanted, none was there, none comes twice,
/// and nothing that was wanted and can stand there is missing.
pub open spec fn keeps_and_gains(
    plan: PlanModel,
    after: PlanModel,
    source: Seq<char>,
    attribute: AttributeModel,
    wants: spec_fn(Want) -> bool,
    added: Seq<Seq<char>>,
) -> bool {
    let old = words(attribute.value, Separator::AsciiWhitespace);
    &&& added.no_duplicates()
    &&& forall|i: int| 0 <= i < added.len() ==> !old.contains(#[trigger] added[i])
    &&& forall|i: int| 0 <= i < added.len() ==> is_asked(wants, source, attribute, #[trigger] added[i])
    &&& forall|want: Want| #[trigger]
        wants(want) && stands_in(source, attribute, want.2) ==> old.contains(want.2) || added.contains(want.2)
    &&& if after.edits == plan.edits {
        added.len() == 0 || (attribute.synthetic && attribute.value.len() > 0 && words(
            written_list(attribute, attribute.value),
            Separator::AsciiWhitespace,
        ) == old + added)
    } else {
        &&& after.edits.len() == plan.edits.len() + 1
        &&& after.edits.drop_last() == plan.edits
        &&& after.edits.last().start == attribute.start
        &&& after.edits.last().end == attribute.end
        &&& is_whole(attribute, after.edits.last().replacement)
        &&& words(written_list(attribute, after.edits.last().replacement), Separator::AsciiWhitespace) == old + added
    }
}

/// Something wanted is this class.
pub open spec fn is_asked(
    wants: spec_fn(Want) -> bool,
    source: Seq<char>,
    attribute: AttributeModel,
    class: Seq<char>,
) -> bool {
    exists|want: Want| #[trigger] wants(want) && want.2 == class && stands_in(source, attribute, class)
}

proof fn lemma_fresh(additions: Seq<Seq<char>>, classes: Seq<Seq<char>>, n: int)
    requires
        0 <= n <= additions.len(),
    ensures
        fresh_ones(additions, classes, n).no_duplicates(),
        forall|i: int|
            0 <= i < fresh_ones(additions, classes, n).len() ==> !classes.contains(
                #[trigger] fresh_ones(additions, classes, n)[i],
            ),
        forall|i: int|
            0 <= i < fresh_ones(additions, classes, n).len() ==> additions.contains(
                #[trigger] fresh_ones(additions, classes, n)[i],
            ),
        forall|k: int|
            0 <= k < n ==> classes.contains(#[trigger] additions[k]) || fresh_ones(additions, classes, n).contains(
                additions[k],
            ),
    decreases n,
{
    if n > 0 {
        lemma_fresh(additions, classes, n - 1);
        let before = fresh_ones(additions, classes, n - 1);
        let all = fresh_ones(additions, classes, n);
        let last = additions[n - 1];
        if classes.contains(last) || before.contains(last) {
            assert(all == before);
        } else {
            assert(all == before.push(last));
            assert(all[before.len() as int] == last);
            assert forall|i: int, j: int| 0 <= i < all.len() && 0 <= j < all.len() && i != j implies all[i]
                != all[j] by {
                if i < before.len() && j < before.len() {
                    assert(before[i] != before[j]);
                } else if i < before.len() {
                    assert(before.contains(before[i]));
                } else {
                    assert(before.contains(before[j]));
                }
            }
            assert forall|i: int| 0 <= i < all.len() implies !classes.contains(#[trigger] all[i])
                && additions.contains(all[i]) by {
                if i < before.len() {
                    assert(all[i] == before[i]);
                } else {
                    assert(additions[n - 1] == all[i]);
                }
            }
            assert forall|k: int| 0 <= k < n implies classes.contains(#[trigger] additions[k]) || all.contains(
                additions[k],
            ) by {
                if k < n - 1 && before.contains(additions[k]) {
                    let i = choose|i: int| 0 <= i < before.len() && before[i] == additions[k];
                    assert(all[i] == additions[k]);
                }
            }
        }
    }
}

proof fn lemma_class_head()
    ensures
        " class=\""@.len() == 8,
        "\""@ == seq!['"'],
{
    reveal_strlit(" class=\"");
    reveal_strlit("\"");
    assert("\""@ =~= seq!['"']);
}

proof fn lemma_written(attribute: AttributeModel, classes: Seq<Seq<char>>, new_ones: Seq<Seq<char>>)
    requires
        forall|i: int| 0 <= i < classes.len() ==> is_word(#[trigger] classes[i], Separator::AsciiWhitespace),
        forall|i: int| 0 <= i < new_ones.len() ==> is_word(#[trigger] new_ones[i], Separator::AsciiWhitespace),
    ensures
        is_whole(attribute, class_replacement(attribute, classes, new_ones, None)),
        words(
            written_list(attribute, class_replacement(attribute, classes, new_ones, None)),
            Separator::AsciiWhitespace,
        ) == classes + new_ones,
{
    let list = classes + new_ones;
    let value = joined(list, " "@);
    assert forall|i: int| 0 <= i < list.len() implies is_word(#[trigger] list[i], Separator::AsciiWhitespace) by {
        if i < classes.len() {
            assert(list[i] == classes[i]);
        } else {
            assert(list[i] == new_ones[i - classes.len()]);
        }
    }
    splitting_undoes_joining(list, Separator::AsciiWhitespace);
    lemma_class_head();
    if attribute.synthetic {
        let whole = " class=\""@ + value + "\""@;
        assert(whole.subrange(8, whole.len() - 1) =~= value);
        assert(whole.take(8) =~= " class=\""@);
    }
}

proof fn lemma_fits(source: Seq<char>, attribute: AttributeModel, element: ElementModel, class: Seq<char>)
    requires
        !directive_metadata(attribute),
    ensures
        unwritable(class, element_site(source, attribute, element)) <==> !stands_in(source, attribute, class),
{
}

/// A class attribute keeps its classes, in order, and gains every utility of the
/// element that can stand there, and no other, behind them. Each utility is
/// reported with the class or id that it comes from, and nothing else is.
pub proof fn class_attributes_keep_their_classes(
    plan: PlanModel,
    file: FileModel,
    css_path: Seq<char>,
    live: Seq<LiveModel>,
    element: ElementModel,
    entries: Entries,
    contexts: Seq<ContextModel>,
    prefix: Option<Seq<char>>,
    pairs: Seq<(Seq<char>, Seq<char>)>,
)
    requires
        element.css_paths.len() == 0 || element.css_paths.contains(css_path),
        writable_site(element, live) is Some,
        !directive_metadata(writable_site(element, live)->0),
        forall|want: Want| #[trigger]
            wanted_on(element, entries, contexts, prefix, want) ==> is_word(want.2, Separator::AsciiWhitespace),
    ensures
        ({
            let attribute = writable_site(element, live)->0;
            let wants = |want: Want| wanted_on(element, entries, contexts, prefix, want);
            let after = with_element(plan, file, css_path, live, element, entries, contexts, prefix, pairs);
            &&& exists|added: Seq<Seq<char>>| #[trigger]
                keeps_and_gains(plan, after, file.source, attribute, wants, added)
            &&& tells_all(plan.matches, after.matches, file.source, attribute, element, wants)
        }),
{
    let attribute = writable_site(element, live)->0;
    let wants = |want: Want| wanted_on(element, entries, contexts, prefix, want);
    let after = with_element(plan, file, css_path, live, element, entries, contexts, prefix, pairs);
    let site = element_site(file.source, attribute, element);
    let state = element_gathered(plan, file, attribute, element, entries, contexts, prefix);
    let start = GatheredModel {
        additions: seq![],
        emitted: plan.candidates,
        matches: plan.matches,
        complete: true,
    };
    lemma_element(plan, file, attribute, element, entries, contexts, prefix);
    assert(grown(start, state.gathered, site, wants));
    let old = words(attribute.value, Separator::AsciiWhitespace);
    let additions = state.gathered.additions;
    let added = fresh_ones(additions, old, additions.len() as int);
    lemma_fresh(additions, old, additions.len() as int);
    lemma_words_are_words(attribute.value, Separator::AsciiWhitespace);
    let m = plan.matches.len() as int;
    assert forall|k: int| 0 <= k < additions.len() implies is_word(
        #[trigger] additions[k],
        Separator::AsciiWhitespace,
    ) && is_asked(wants, file.source, attribute, additions[k]) by {
        let found = state.gathered.matches[m + k];
        assert(is_wanted(found, site, wants));
        let want = choose|want: Want| #[trigger] wants(want) && !unwritable(want.2, site) && tells(found, site, want);
        assert(wants(want));
        lemma_fits(file.source, attribute, element, want.2);
        assert(wanted_on(element, entries, contexts, prefix, want));
    }
    assert forall|i: int| 0 <= i < added.len() implies is_word(#[trigger] added[i], Separator::AsciiWhitespace)
        && is_asked(wants, file.source, attribute, added[i]) by {
        assert(additions.contains(added[i]));
        let k = choose|k: int| 0 <= k < additions.len() && additions[k] == added[i];
        assert(is_word(additions[k], Separator::AsciiWhitespace));
    }
    assert forall|want: Want| #[trigger] wants(want) && stands_in(file.source, attribute, want.2) implies old.contains(
        want.2,
    ) || added.contains(want.2) by {
        lemma_fits(file.source, attribute, element, want.2);
        assert(has_match(state.gathered.matches, m, site, want));
        let i = choose|i: int|
            m <= i < state.gathered.matches.len() && tells(#[trigger] state.gathered.matches[i], site, want);
        assert(additions[i - m] == want.2);
    }
    lemma_written(attribute, old, added);
    let replacement = class_replacement(attribute, old, added, None);
    if after.edits == plan.edits {
        assert(!(after.edits.len() == plan.edits.len() + 1));
        if attribute.synthetic && (old + added).len() == 0 {
            assert(added.len() == 0);
        } else {
            assert(replacement == attribute.value);
            if !attribute.synthetic {
                assert(old == old + added);
                assert(added.len() == 0);
            }
        }
    } else {
        assert(after.edits.drop_last() =~= plan.edits);
    }
    assert(keeps_and_gains(plan, after, file.source, attribute, wants, added));
    assert forall|i: int| m <= i < after.matches.len() implies is_told(
        #[trigger] after.matches[i],
        file.source,
        attribute,
        element,
        wants,
    ) by {
        let found = after.matches[i];
        assert(is_wanted(state.gathered.matches[i], site, wants));
        let want = choose|want: Want| #[trigger] wants(want) && !unwritable(want.2, site) && tells(found, site, want);
        lemma_fits(file.source, attribute, element, want.2);
        assert(wants(want));
    }
    assert forall|want: Want| #[trigger] wants(want) && stands_in(file.source, attribute, want.2) implies has_match(
        after.matches,
        m,
        site,
        want,
    ) by {
        lemma_fits(file.source, attribute, element, want.2);
    }
}

/// The match tells of something wanted.
pub open spec fn is_told(
    found: MatchModel,
    source: Seq<char>,
    attribute: AttributeModel,
    element: ElementModel,
    wants: spec_fn(Want) -> bool,
) -> bool {
    exists|want: Want| #[trigger]
        wants(want) && stands_in(source, attribute, want.2) && tells(found, element_site(source, attribute, element), want)
}

/// The matches stay, and behind them stands one for everything that was wanted
/// and can stand there.
pub open spec fn tells_all(
    before: Seq<MatchModel>,
    after: Seq<MatchModel>,
    source: Seq<char>,
    attribute: AttributeModel,
    element: ElementModel,
    wants: spec_fn(Want) -> bool,
) -> bool {
    let m = before.len() as int;
    &&& after.len() >= m
    &&& forall|i: int| 0 <= i < m ==> #[trigger] after[i] == before[i]
    &&& forall|i: int| m <= i < after.len() ==> is_told(#[trigger] after[i], source, attribute, element, wants)
    &&& forall|want: Want| #[trigger]
        wants(want) && stands_in(source, attribute, want.2) ==> has_match(
            after,
            m,
            element_site(source, attribute, element),
            want,
        )
}

proof fn lemma_element(
    plan: PlanModel,
    file: FileModel,
    attribute: AttributeModel,
    element: ElementModel,
    entries: Entries,
    contexts: Seq<ContextModel>,
    prefix: Option<Seq<char>>,
)
    ensures
        grown(
            (GatheredModel { additions: seq![], emitted: plan.candidates, matches: plan.matches, complete: true }),
            element_gathered(plan, file, attribute, element, entries, contexts, prefix).gathered,
            element_site(file.source, attribute, element),
            |want: Want| wanted_on(element, entries, contexts, prefix, want),
        ),
{
    let all = |want: Want| wanted_on(element, entries, contexts, prefix, want);
    let site = element_site(file.source, attribute, element);
    let classes = own_classes(element);
    let ids = own_ids(element);
    let start = ClassesModel {
        gathered: GatheredModel {
            additions: seq![],
            emitted: plan.candidates,
            matches: plan.matches,
            complete: true,
        },
        refs: plan.module_refs,
        matched: plan.matched_module_refs,
    };
    let state = with_classes_of(start, site, classes, entries, contexts, prefix, classes.len() as int);
    lemma_classes(start, site, classes, entries, contexts, prefix, classes.len() as int);
    let first = |want: Want| by_classes(entries, classes, contexts, prefix, classes.len() as int, want);
    let second = |want: Want| by_ids(entries, ids, contexts, prefix, ids.len() as int, want);
    let result = element_gathered(plan, file, attribute, element, entries, contexts, prefix).gathered;
    lemma_ids(state.gathered, site, ids, entries, contexts, prefix, ids.len() as int);
    if element.write_classes is Some && (element.write_classes->0).len() > 0 {
        lemma_grown_none(state.gathered, result, site, second);
    } else {
        assert(result == with_ids(state.gathered, site, ids, entries, contexts, prefix, ids.len() as int));
    }
    assert forall|want: Want| #[trigger] all(want) <==> first(want) || second(want) by {}
    lemma_grown_both(start.gathered, state.gathered, result, site, first, second, all);
}

// ---------------------------------------------------------------------------
// Sites in directives
// ---------------------------------------------------------------------------

proof fn lemma_with_classes(value: Seq<char>, additions: Seq<Seq<char>>, n: int)
    requires
        0 <= n <= additions.len(),
        forall|i: int| 0 <= i < additions.len() ==> is_word(#[trigger] additions[i], Separator::AsciiWhitespace),
    ensures
        words(with_classes(value, additions, n), Separator::AsciiWhitespace) == words(value, Separator::AsciiWhitespace)
            + additions.take(n),
    decreases n,
{
    let separator = Separator::AsciiWhitespace;
    if n > 0 {
        lemma_with_classes(value, additions, n - 1);
        assert(is_word(additions[n - 1], separator));
        let before = with_classes(value, additions, n - 1);
        crate::text::lemma_word_behind(before, ' ', additions[n - 1], separator);
        assert(before.push(' ') + additions[n - 1] =~= before + seq![' '] + additions[n - 1]);
        assert(words(value, separator) + additions.take(n) =~= (words(value, separator) + additions.take(n - 1)).push(
            additions[n - 1],
        ));
    } else {
        assert(words(value, separator) + additions.take(0) =~= words(value, separator));
    }
}

/// A literal in a directive keeps its classes, in order, and gains the new ones
/// behind them: read as the directive reads it, what is written stands for
/// both.
pub proof fn directive_literals_keep_their_classes(attribute: AttributeModel, additions: Seq<Seq<char>>, quote: char)
    requires
        quote == '\'' || quote == '"' || quote == '`',
        attribute.raw_value is Some,
        !attribute.quote_key,
        forall|k: int| 0 <= k < additions.len() ==> is_word(#[trigger] additions[k], Separator::AsciiWhitespace),
    ensures
        ({
            let text = rendered(
                attribute.raw_value->0,
                attribute.value,
                quote,
                attribute.quote_key,
                attribute.object_shorthand,
                additions,
            );
            runtime_value(attribute, text, quote) matches Some(value) && words(value, Separator::AsciiWhitespace)
                == words(attribute.value, Separator::AsciiWhitespace) + additions
        }),
{
    assert forall|k: int| 0 <= k < additions.len() implies !(#[trigger] additions[k]).contains(' ') by {
        assert(is_word(additions[k], Separator::AsciiWhitespace));
        if additions[k].contains(' ') {
            let i = choose|i: int| 0 <= i < additions[k].len() && additions[k][i] == ' ';
            assert(!separates(Separator::AsciiWhitespace, additions[k][i]));
        }
    }
    rendering_keeps_runtime_classes(attribute, additions, quote);
    lemma_with_classes(attribute.value, additions, additions.len() as int);
    assert(additions.take(additions.len() as int) =~= additions);
}

// ---------------------------------------------------------------------------
// Files
// ---------------------------------------------------------------------------

/// The first list stands at the front of the second.
pub open spec fn stays_ahead<T>(first: Seq<T>, second: Seq<T>) -> bool {
    first.len() <= second.len() && forall|i: int| 0 <= i < first.len() ==> #[trigger] second[i] == first[i]
}

proof fn lemma_ahead(
    file: FileModel,
    css_path: Seq<char>,
    entries: Entries,
    prefix: Option<Seq<char>>,
    pairs: Seq<(Seq<char>, Seq<char>)>,
    k: int,
    n: int,
)
    requires
        0 <= k <= n,
    ensures
        stays_ahead(
            planned_elements(file, css_path, entries, prefix, pairs, k).edits,
            planned_elements(file, css_path, entries, prefix, pairs, n).edits,
        ),
    decreases n - k,
{
    if k < n {
        lemma_ahead(file, css_path, entries, prefix, pairs, k, n - 1);
        let before = planned_elements(file, css_path, entries, prefix, pairs, n - 1);
        let after = planned_elements(file, css_path, entries, prefix, pairs, n);
        let first = planned_elements(file, css_path, entries, prefix, pairs, k);
        assert(stays_ahead(before.edits, after.edits));
        assert forall|i: int| 0 <= i < first.edits.len() implies #[trigger] after.edits[i] == first.edits[i] by {
            assert(after.edits[i] == before.edits[i]);
        }
    }
}

/// Some edit writes the class behind those of the attribute.
pub open spec fn is_written(plan: PlanModel, attribute: AttributeModel, class: Seq<char>) -> bool {
    exists|e: int|
        0 <= e < plan.edits.len() && (#[trigger] plan.edits[e]).start == attribute.start && plan.edits[e].end
            == attribute.end && stays_ahead(
            words(attribute.value, Separator::AsciiWhitespace),
            words(written_list(attribute, plan.edits[e].replacement), Separator::AsciiWhitespace),
        ) && words(written_list(attribute, plan.edits[e].replacement), Separator::AsciiWhitespace).contains(class)
}

/// Every element of a file that a stylesheet reaches gets its utilities: what
/// is wanted on the element and can stand in its class attribute is there
/// already, or an edit of the file writes it behind the classes of the
/// attribute.
pub proof fn every_element_gets_its_utilities(
    file: FileModel,
    css_path: Seq<char>,
    entries: Entries,
    prefix: Option<Seq<char>>,
    pairs: Seq<(Seq<char>, Seq<char>)>,
    n: int,
    want: Want,
)
    requires
        contexts_of(file, css_path).len() > 0,
        0 <= n < file.html_elements.len(),
        ({
            let element = file.html_elements[n];
            let site = writable_site(element, live_sites(file));
            &&& element.css_paths.len() == 0 || element.css_paths.contains(css_path)
            &&& site is Some
            &&& !directive_metadata(site->0)
            &&& !(site->0).synthetic || (site->0).value.len() == 0
            &&& wanted_on(element, entries, contexts_of(file, css_path), prefix, want)
            &&& stands_in(file.source, site->0, want.2)
            &&& forall|other: Want| #[trigger]
                wanted_on(element, entries, contexts_of(file, css_path), prefix, other) ==> is_word(
                    other.2,
                    Separator::AsciiWhitespace,
                )
        }),
    ensures
        ({
            let attribute = writable_site(file.html_elements[n], live_sites(file))->0;
            ||| words(attribute.value, Separator::AsciiWhitespace).contains(want.2)
            ||| is_written(html_plan(file, css_path, entries, prefix, pairs), attribute, want.2)
        }),
{
    let element = file.html_elements[n];
    let live = live_sites(file);
    let contexts = contexts_of(file, css_path);
    let attribute = writable_site(element, live)->0;
    let before = planned_elements(file, css_path, entries, prefix, pairs, n);
    let after = planned_elements(file, css_path, entries, prefix, pairs, n + 1);
    let whole = html_plan(file, css_path, entries, prefix, pairs);
    let wants = |want: Want| wanted_on(element, entries, contexts, prefix, want);
    class_attributes_keep_their_classes(
        before,
        file,
        css_path,
        live,
        element,
        entries,
        contexts,
        prefix,
        pairs,
    );
    assert(after == with_element(before, file, css_path, live, element, entries, contexts, prefix, pairs));
    let added = choose|added: Seq<Seq<char>>| #[trigger]
        keeps_and_gains(before, after, file.source, attribute, wants, added);
    let old = words(attribute.value, Separator::AsciiWhitespace);
    assert(wants(want));
    lemma_ahead(file, css_path, entries, prefix, pairs, n + 1, file.html_elements.len() as int);
    if !old.contains(want.2) {
        assert(added.contains(want.2));
        let k = choose|k: int| 0 <= k < added.len() && added[k] == want.2;
        if after.edits == before.edits {
            assert(attribute.value.len() == 0);
        } else {
            let e = before.edits.len() as int;
            assert(whole.edits[e] == after.edits[e]);
            let list = words(written_list(attribute, whole.edits[e].replacement), Separator::AsciiWhitespace);
            assert(list == old + added);
            assert(list[old.len() + k] == want.2);
            assert(stays_ahead(old, list));
        }
    }
}

// ---------------------------------------------------------------------------
// Bindings of a component
// ---------------------------------------------------------------------------

/// What the links make of the candidate can be written.
spec fn fits_all(origin: Seq<char>, contexts: Seq<ContextModel>, prefix: Option<Seq<char>>, n: int, site: SiteModel) -> bool {
    forall|c: int| 0 <= c < n ==> fits_link(origin, #[trigger] contexts[c], prefix, site)
}

spec fn fits_link(origin: Seq<char>, context: ContextModel, prefix: Option<Seq<char>>, site: SiteModel) -> bool {
    !unwritable(contextual(origin, context.variants, prefix), site)
}

proof fn lemma_candidate_complete(
    gathered: GatheredModel,
    site: SiteModel,
    key: KeyModel,
    origin: Seq<char>,
    candidate: Seq<char>,
)
    ensures
        with_candidate(gathered, site, key, origin, candidate).complete <==> gathered.complete && !unwritable(
            candidate,
            site,
        ),
{
}

#[verifier::spinoff_prover]
proof fn lemma_origin_complete(
    gathered: GatheredModel,
    site: SiteModel,
    key: KeyModel,
    origin: Seq<char>,
    contexts: Seq<ContextModel>,
    prefix: Option<Seq<char>>,
    n: int,
)
    requires
        0 <= n <= contexts.len(),
    ensures
        with_origin(gathered, site, key, origin, contexts, prefix, n).complete <==> gathered.complete && fits_all(
            origin,
            contexts,
            prefix,
            n,
            site,
        ),
    decreases n,
{
    if n > 0 {
        lemma_origin_complete(gathered, site, key, origin, contexts, prefix, n - 1);
        let before = with_origin(gathered, site, key, origin, contexts, prefix, n - 1);
        let candidate = contextual(origin, contexts[n - 1].variants, prefix);
        lemma_candidate_complete(before, site, key, origin, candidate);
        assert(with_origin(gathered, site, key, origin, contexts, prefix, n) == with_candidate(
            before,
            site,
            key,
            origin,
            candidate,
        ));
        lemma_fits_step(origin, contexts, prefix, n, site);
    }
}

proof fn lemma_fits_step(origin: Seq<char>, contexts: Seq<ContextModel>, prefix: Option<Seq<char>>, n: int, site: SiteModel)
    requires
        0 < n <= contexts.len(),
    ensures
        fits_all(origin, contexts, prefix, n, site) <==> fits_all(origin, contexts, prefix, n - 1, site) && fits_link(
            origin,
            contexts[n - 1],
            prefix,
            site,
        ),
{
}

#[verifier::spinoff_prover]
proof fn lemma_origins_complete(
    gathered: GatheredModel,
    site: SiteModel,
    key: KeyModel,
    origins: Seq<Seq<char>>,
    contexts: Seq<ContextModel>,
    prefix: Option<Seq<char>>,
    n: int,
)
    requires
        0 <= n <= origins.len(),
    ensures
        with_origins(gathered, site, key, origins, contexts, prefix, n).complete <==> gathered.complete && (forall|j: int|
            0 <= j < n ==> fits_all(#[trigger] origins[j], contexts, prefix, contexts.len() as int, site)),
    decreases n,
{
    if n > 0 {
        let count = contexts.len() as int;
        let before = with_origins(gathered, site, key, origins, contexts, prefix, n - 1);
        lemma_origins_complete(gathered, site, key, origins, contexts, prefix, n - 1);
        lemma_origin_complete(before, site, key, origins[n - 1], contexts, prefix, count);
        assert(with_origins(gathered, site, key, origins, contexts, prefix, n) == with_origin(
            before,
            site,
            key,
            origins[n - 1],
            contexts,
            prefix,
            count,
        ));
    }
}

/// Everything that is wanted of the class can be written between double quotes.
pub open spec fn fits_quotes(
    entries: Entries,
    key: KeyModel,
    contexts: Seq<ContextModel>,
    prefix: Option<Seq<char>>,
) -> bool {
    forall|want: Want| #[trigger] by_key(entries, key, contexts, prefix, want) ==> !want.2.contains('"')
}

proof fn lemma_key_complete(
    gathered: GatheredModel,
    site: SiteModel,
    key: KeyModel,
    entries: Entries,
    contexts: Seq<ContextModel>,
    prefix: Option<Seq<char>>,
)
    requires
        site.quote == Some('"'),
        !site.directive,
    ensures
        with_key(gathered, site, key, entries, contexts, prefix).complete <==> fits_quotes(
            entries,
            key,
            contexts,
            prefix,
        ),
{
    let fresh = GatheredModel { complete: true, ..gathered };
    candidates_are_those_of_the_first_entry(entries, key);
    let complete = with_key(gathered, site, key, entries, contexts, prefix).complete;
    if let Some(origins) = held(entries, key) {
        lemma_origins_complete(fresh, site, key, origins, contexts, prefix, origins.len() as int);
        if complete {
            assert forall|want: Want| #[trigger] by_key(entries, key, contexts, prefix, want) implies !want.2.contains(
                '"',
            ) by {
                assert(origins.contains(want.1));
                let j = choose|j: int| 0 <= j < origins.len() && origins[j] == want.1;
                let c = choose|c: int|
                    0 <= c < contexts.len() && want.2 == contextual(want.1, (#[trigger] contexts[c]).variants, prefix);
                assert(fits_all(origins[j], contexts, prefix, contexts.len() as int, site));
                assert(fits_link(origins[j], contexts[c], prefix, site));
            }
        }
        if fits_quotes(entries, key, contexts, prefix) {
            assert forall|j: int| 0 <= j < origins.len() implies fits_all(
                #[trigger] origins[j],
                contexts,
                prefix,
                contexts.len() as int,
                site,
            ) by {
                assert forall|c: int| 0 <= c < contexts.len() implies fits_link(
                    origins[j],
                    #[trigger] contexts[c],
                    prefix,
                    site,
                ) by {
                let want = (key, origins[j], contextual(origins[j], contexts[c].variants, prefix));
                assert(origins.contains(origins[j]));
                assert(offers(entries, key, want.1));
                assert(by_key(entries, key, contexts, prefix, want));
                }
            }
        }
    } else {
        assert forall|want: Want| !(#[trigger] by_key(entries, key, contexts, prefix, want)) by {
            assert(!offers(entries, key, want.1));
        }
    }
}

/// A class binding of a component becomes a class attribute with everything
/// that the class's candidates come to, each once, where all of it can be
/// written; else the binding stays as it is. The binding itself stays where the
/// class is still needed. It counts as a reference either way.
pub proof fn bindings_become_all_their_candidates(
    plan: PlanModel,
    file: FileModel,
    css_path: Seq<char>,
    element: ElementModel,
    place: AttributeModel,
    entries: Entries,
    preserved: Seq<Seq<char>>,
    contexts: Seq<ContextModel>,
    prefix: Option<Seq<char>>,
    pairs: Seq<(Seq<char>, Seq<char>)>,
)
    requires
        binding_place(file, element) == Some(place),
        in_context(element, css_path),
        !(element.class_attribute matches Some(attribute) && !attribute.synthetic),
        has_entry(entries, KeyModel::Class(bound_name(element))),
        forall|want: Want| #[trigger]
            by_key(entries, KeyModel::Class(bound_name(element)), contexts, prefix, want) ==> is_word(
                want.2,
                Separator::Whitespace,
            ),
    ensures
        ({
            let name = bound_name(element);
            let key = KeyModel::Class(name);
            let after = with_binding(plan, file, css_path, element, entries, preserved, contexts, prefix, pairs);
            &&& after.module_refs == plan.module_refs.push(name)
            &&& if fits_quotes(entries, key, contexts, prefix) {
                &&& after.matched_module_refs == plan.matched_module_refs.push(name)
                &&& after.edits.len() == plan.edits.len() + 1
                &&& after.edits.drop_last() == plan.edits
                &&& after.edits.last().start == place.start
                &&& after.edits.last().end == if preserved.contains(name) {
                    place.start
                } else {
                    place.end
                }
                &&& exists|list: Seq<Seq<char>>|
                    {
                        &&& after.edits.last().replacement == " class=\""@ + #[trigger] joined(list, " "@) + "\""@
                        &&& words(joined(list, " "@), Separator::Whitespace) == list
                        &&& list.no_duplicates()
                        &&& forall|class: Seq<char>| #[trigger]
                            list.contains(class) <==> wanted_class(entries, key, contexts, prefix, class)
                        &&& forall|i: int| 0 <= i < list.len() ==> !(#[trigger] list[i]).contains('"')
                    }
            } else {
                after.matched_module_refs == plan.matched_module_refs && after.edits == plan.edits
            }
        }),
{
    let name = bound_name(element);
    let key = KeyModel::Class(name);
    let site = binding_site(place, element);
    let start = GatheredModel {
        additions: seq![],
        emitted: plan.candidates,
        matches: plan.matches,
        complete: true,
    };
    let gathered = with_key(start, site, key, entries, contexts, prefix);
    let wants = |want: Want| by_key(entries, key, contexts, prefix, want);
    candidates_are_those_of_the_first_entry(entries, key);
    lemma_key(start, site, key, entries, contexts, prefix);
    lemma_key_complete(start, site, key, entries, contexts, prefix);
    assert(grown(start, gathered, site, wants));
    let after = with_binding(plan, file, css_path, element, entries, preserved, contexts, prefix, pairs);
    if fits_quotes(entries, key, contexts, prefix) {
        let additions = gathered.additions;
        let none = Seq::<Seq<char>>::empty();
        let list = fresh_ones(additions, none, additions.len() as int);
        lemma_fresh(additions, none, additions.len() as int);
        let m = plan.matches.len() as int;
        assert forall|class: Seq<char>| #[trigger] list.contains(class) <==> wanted_class(
            entries,
            key,
            contexts,
            prefix,
            class,
        ) by {
            if list.contains(class) {
                let i = choose|i: int| 0 <= i < list.len() && list[i] == class;
                assert(additions.contains(list[i]));
                let k = choose|k: int| 0 <= k < additions.len() && additions[k] == class;
                assert(is_wanted(gathered.matches[m + k], site, wants));
                let want = choose|want: Want|
                    #[trigger] wants(want) && !unwritable(want.2, site) && tells(gathered.matches[m + k], site, want);
                assert(gathered.matches[m + k].candidate == additions[k]);
                assert(by_key(entries, key, contexts, prefix, want) && want.2 == class);
            }
            if wanted_class(entries, key, contexts, prefix, class) {
                let want = choose|want: Want| #[trigger]
                    by_key(entries, key, contexts, prefix, want) && want.2 == class;
                assert(wants(want) && !unwritable(want.2, site));
                assert(has_match(gathered.matches, m, site, want));
                let i = choose|i: int| m <= i < gathered.matches.len() && tells(#[trigger] gathered.matches[i], site, want);
                assert(gathered.matches[i].candidate == additions[i - m]);
                assert(!none.contains(additions[i - m]));
                assert(list.contains(additions[i - m]));
            }
        }
        assert forall|i: int| 0 <= i < list.len() implies is_word(#[trigger] list[i], Separator::Whitespace)
            && !list[i].contains('"') by {
            assert(list.contains(list[i]));
            let want = choose|want: Want| #[trigger]
                by_key(entries, key, contexts, prefix, want) && want.2 == list[i];
            assert(!want.2.contains('"'));
        }
        splitting_undoes_joining(list, Separator::Whitespace);
        assert(after.edits.drop_last() =~= plan.edits);
        assert(after.edits.last().replacement == " class=\""@ + joined(list, " "@) + "\""@);
    }
}

/// Something wanted of the key comes to the class.
pub open spec fn wanted_class(
    entries: Entries,
    key: KeyModel,
    contexts: Seq<ContextModel>,
    prefix: Option<Seq<char>>,
    class: Seq<char>,
) -> bool {
    exists|want: Want| #[trigger] by_key(entries, key, contexts, prefix, want) && want.2 == class
}

} // verus!
