//! Every element of a script is looked at, and keeps the classes it has.
use crate::edit::EditModel;
use crate::js_rewrite::{
    after_attribute, after_usage, attribute_value, attributes_of, before_blanks, blank_byte, candidates_of, comes_from,
    completed, has_candidates, insertion_point, lemma_extra, lemma_own_classes, used, used_fields, used_items,
    with_container, with_extra, with_global_element, with_global_leaf, with_global_leaves, with_inserted, with_listed,
    with_listed_all, with_literal, with_member_match, with_member_matches, with_module_attribute,
    with_module_attributes, with_module_leaf, with_module_leaves, with_own_classes, with_rewritten, with_template,
    ClassListModel, Entries, GlobalModel, SceneModel, Site, TemplateModel, UsageModel,
};
use crate::jsx_extract::attribute_name;
use crate::markup_laws::{candidates_are_those_of_the_first_entry, offers, stays_ahead};
use crate::plan::held;
use crate::script_laws::{
    are_words, class_names_of_one_reference_are_rewritten, is_reference, lemma_reference, read_list,
    references_become_all_their_candidates, written_lists_read_back,
};
use crate::selector::KeyModel;
use crate::syntax::{inner, lemma_field_smaller, lemma_inner_smaller, of_kind, result_leaves, field, items, span_of, string_value};
use crate::text::{is_word, joined, lemma_words_are_words, splitting_undoes_joining, words, Separator};
use crate::tree::TreeModel;
use vstd::prelude::*;
use vstd::utf8::*;

verus! {

// ---------------------------------------------------------------------------
// Class lists
// ---------------------------------------------------------------------------

/// The class is a candidate of one that stands in the list.
pub open spec fn offered_by(entries: Entries, list: Seq<Seq<char>>, class: Seq<char>) -> bool {
    exists|i: int| 0 <= i < list.len() && offers(entries, KeyModel::Class(#[trigger] list[i]), class)
}

/// The class is one of the extra candidates.
pub open spec fn offered_extra(extra: Seq<(KeyModel, Seq<char>)>, class: Seq<char>) -> bool {
    exists|i: int| 0 <= i < extra.len() && (#[trigger] extra[i]).1 == class
}

/// The first list stands at the front of the second, and what follows is new
/// and comes once.
pub open spec fn extends(first: Seq<Seq<char>>, second: Seq<Seq<char>>) -> bool {
    &&& stays_ahead(first, second)
    &&& forall|j: int, k: int|
        first.len() <= j < second.len() && 0 <= k < j ==> #[trigger] second[k] != #[trigger] second[j]
}

proof fn lemma_extends(a: Seq<Seq<char>>, b: Seq<Seq<char>>, c: Seq<Seq<char>>)
    requires
        extends(a, b),
        extends(b, c),
    ensures
        extends(a, c),
{
    assert forall|i: int| 0 <= i < a.len() implies #[trigger] c[i] == a[i] by {
        assert(c[i] == b[i]);
    }
    assert forall|j: int, k: int| a.len() <= j < c.len() && 0 <= k < j implies #[trigger] c[k] != #[trigger] c[j] by {
        if j < b.len() {
            assert(c[j] == b[j]);
            assert(c[k] == b[k]);
        }
    }
}

proof fn lemma_listed(key: KeyModel, candidate: Seq<char>, span: (usize, usize), state: ClassListModel)
    ensures
        extends(state.classes, with_listed(key, candidate, span, state).classes),
{
    let after = with_listed(key, candidate, span, state).classes;
    if !state.classes.contains(candidate) {
        assert forall|j: int, k: int|
            state.classes.len() <= j < after.len() && 0 <= k < j implies #[trigger] after[k] != #[trigger] after[j] by {
            assert(after[k] == state.classes[k]);
            assert(state.classes.contains(state.classes[k]));
        }
    }
}

proof fn lemma_all_listed(
    key: KeyModel,
    candidates: Seq<Seq<char>>,
    span: (usize, usize),
    n: int,
    state: ClassListModel,
)
    ensures
        extends(state.classes, with_listed_all(key, candidates, span, n, state).classes),
    decreases n,
{
    if n > 0 {
        lemma_all_listed(key, candidates, span, n - 1, state);
        let before = with_listed_all(key, candidates, span, n - 1, state);
        lemma_listed(key, candidates[n - 1], span, before);
        lemma_extends(
            state.classes,
            before.classes,
            with_listed_all(key, candidates, span, n, state).classes,
        );
    }
}

proof fn lemma_own(at: SceneModel, own: Seq<Seq<char>>, span: (usize, usize), n: int, state: ClassListModel)
    ensures
        extends(state.classes, with_own_classes(at, own, span, n, state).classes),
    decreases n,
{
    if n > 0 {
        lemma_own(at, own, span, n - 1, state);
        let before = with_own_classes(at, own, span, n - 1, state);
        let key = KeyModel::Class(own[n - 1]);
        if let Some(candidates) = held(at.entries, key) {
            lemma_all_listed(key, candidates, span, candidates.len() as int, before);
            lemma_extends(
                state.classes,
                before.classes,
                with_own_classes(at, own, span, n, state).classes,
            );
        }
    }
}

proof fn lemma_extras(extra: Seq<(KeyModel, Seq<char>)>, span: (usize, usize), n: int, state: ClassListModel)
    ensures
        extends(state.classes, with_extra(extra, span, n, state).classes),
    decreases n,
{
    if n > 0 {
        lemma_extras(extra, span, n - 1, state);
        let before = with_extra(extra, span, n - 1, state);
        lemma_listed(extra[n - 1].0, extra[n - 1].1, span, before);
        lemma_extends(state.classes, before.classes, with_extra(extra, span, n, state).classes);
    }
}

/// A class list keeps its classes, in order, and gains every candidate of them,
/// and every extra one, behind them: each once, and no other. What the script
/// reads afterwards is that list; nothing is written where it was all there.
pub proof fn class_lists_keep_and_gain(
    at: SceneModel,
    span: (usize, usize),
    value: Seq<char>,
    extra: Seq<(KeyModel, Seq<char>)>,
    site: Site,
    out: UsageModel,
)
    requires
        forall|class: Seq<char>|
            #![trigger offered_by(at.entries, words(value, Separator::Whitespace), class)]
            #![trigger offered_extra(extra, class)]
            offered_by(at.entries, words(value, Separator::Whitespace), class) || offered_extra(extra, class)
                ==> is_word(class, Separator::Whitespace),
    ensures
        ({
            let old = words(value, Separator::Whitespace);
            let after = with_literal(at, span, value, extra, site, out);
            exists|list: Seq<Seq<char>>|
                {
                    &&& #[trigger] extends(old, list)
                    &&& forall|class: Seq<char>| #[trigger]
                        list.contains(class) <==> old.contains(class) || offered_by(at.entries, old, class)
                            || offered_extra(extra, class)
                    &&& if after.edits == out.edits {
                        list == old
                    } else {
                        &&& after.edits.len() == out.edits.len() + 1
                        &&& after.edits.drop_last() == out.edits
                        &&& after.edits.last().start == span.0
                        &&& after.edits.last().end == span.1
                        &&& words(read_list(site, after.edits.last().replacement), Separator::Whitespace) == list
                    }
                }
        }),
{
    let old = words(value, Separator::Whitespace);
    let n = old.len() as int;
    let start = ClassListModel { classes: old, out };
    let middle = with_own_classes(at, old, span, n, start);
    let whole = completed(at, span, value, extra, out);
    let list = whole.classes;
    let after = with_literal(at, span, value, extra, site, out);
    lemma_own(at, old, span, n, start);
    lemma_extras(extra, span, extra.len() as int, middle);
    lemma_extends(old, middle.classes, list);
    lemma_own_classes(at, old, span, n, start);
    lemma_extra(extra, span, extra.len() as int, middle);
    assert forall|class: Seq<char>| #[trigger] list.contains(class) <==> old.contains(class) || offered_by(
        at.entries,
        old,
        class,
    ) || offered_extra(extra, class) by {
        if list.contains(class) {
            if middle.classes.contains(class) {
                if !old.contains(class) {
                    assert(comes_from(at, old, class));
                    let i = choose|i: int|
                        0 <= i < old.len() && (held(at.entries, KeyModel::Class(#[trigger] old[i])) matches Some(
                            candidates,
                        ) && candidates.contains(class));
                    candidates_are_those_of_the_first_entry(at.entries, KeyModel::Class(old[i]));
                    assert(offers(at.entries, KeyModel::Class(old[i]), class));
                }
            } else {
                let i = choose|i: int| 0 <= i < extra.len() && (#[trigger] extra[i]).1 == class;
                assert(offered_extra(extra, class));
            }
        }
        if offered_by(at.entries, old, class) {
            let i = choose|i: int|
                0 <= i < old.len() && offers(at.entries, KeyModel::Class(#[trigger] old[i]), class);
            candidates_are_those_of_the_first_entry(at.entries, KeyModel::Class(old[i]));
            assert(has_candidates(at, middle.classes, old[i]));
            let candidates = held(at.entries, KeyModel::Class(old[i]))->0;
            let k = choose|k: int| 0 <= k < candidates.len() && candidates[k] == class;
            assert(middle.classes.contains(candidates[k]));
        }
        if offered_extra(extra, class) {
            let i = choose|i: int| 0 <= i < extra.len() && (#[trigger] extra[i]).1 == class;
            assert(list.contains(extra[i].1));
        }
        if old.contains(class) {
            assert(middle.classes.contains(class));
        }
    }
    lemma_words_are_words(value, Separator::Whitespace);
    assert forall|i: int| 0 <= i < list.len() implies is_word(#[trigger] list[i], Separator::Whitespace) by {
        assert(list.contains(list[i]));
        if old.contains(list[i]) {
            let k = choose|k: int| 0 <= k < old.len() && old[k] == list[i];
            assert(is_word(old[k], Separator::Whitespace));
        }
    }
    splitting_undoes_joining(list, Separator::Whitespace);
    written_lists_read_back(site, joined(list, " "@));
    if after.edits != out.edits {
        assert(after.edits.drop_last() =~= out.edits);
    } else {
        assert(joined(list, " "@) == value);
    }
    assert(extends(old, list));
}

// ---------------------------------------------------------------------------
// Elements outside CSS Modules
// ---------------------------------------------------------------------------

proof fn lemma_attributes(at: SceneModel, list: Seq<TreeModel>, n: int, k: int, out: UsageModel)
    requires
        0 <= k < list.len(),
        0 <= n <= list.len(),
        forall|j: int|
            0 <= j < list.len() && j != k ==> attribute_name(#[trigger] list[j]) != Some("className"@)
                && attribute_name(list[j]) != Some("id"@),
    ensures
        attributes_of(at, list, n, out) == if n <= k {
            GlobalModel { ids: seq![], literal: None, has_class_name: false, out }
        } else {
            after_attribute(
                at,
                list[k],
                GlobalModel { ids: seq![], literal: None, has_class_name: false, out },
            )
        },
    decreases n,
{
    if n > 0 {
        lemma_attributes(at, list, n - 1, k, out);
        if n - 1 != k {
            assert(attribute_name(list[n - 1]) != Some("className"@));
        }
    }
}

/// A `className` between quotes is the class list of its element: it is
/// rewritten as one, over the whole value.
pub proof fn quoted_class_names_are_class_lists(at: SceneModel, element: TreeModel, k: int, out: UsageModel)
    requires
        ({
            let list = items(element, "attributes"@);
            &&& 0 <= k < list.len()
            &&& attribute_name(list[k]) == Some("className"@)
            &&& string_value(field(list[k], "value"@)) is Some
            &&& forall|j: int|
                0 <= j < list.len() && j != k ==> attribute_name(#[trigger] list[j]) != Some("className"@)
                    && attribute_name(list[j]) != Some("id"@)
        }),
    ensures
        ({
            let value = field(items(element, "attributes"@)[k], "value"@);
            with_global_element(at, element, out) == with_literal(
                at,
                span_of(value),
                string_value(value)->0,
                seq![],
                Site::Attribute,
                out,
            )
        }),
{
    let list = items(element, "attributes"@);
    lemma_attributes(at, list, list.len() as int, k, out);
}

/// Bytes that an opening tag may end in.
pub open spec fn closes_tag(bytes: Seq<u8>, place: int, end: int) -> bool {
    exists|close: int|
        place <= close < end <= bytes.len() && (bytes.subrange(close, end) == seq![0x3eu8] || #[trigger] bytes.subrange(
            close,
            end,
        ) == seq![0x2fu8, 0x3eu8]) && forall|i: int| place <= i < close ==> blank_byte(#[trigger] bytes[i])
}

proof fn lemma_blanks(bytes: Seq<u8>, start: int, i: int)
    requires
        0 <= i <= bytes.len(),
    ensures
        before_blanks(bytes, start, i) <= i,
        i >= start && start >= 0 ==> start <= before_blanks(bytes, start, i),
        0 <= before_blanks(bytes, start, i),
        forall|k: int| before_blanks(bytes, start, i) <= k < i ==> blank_byte(#[trigger] bytes[k]),
    decreases i,
{
    if !(i <= 0 || i <= start || i > bytes.len() || !blank_byte(bytes[i - 1])) {
        lemma_blanks(bytes, start, i - 1);
    }
}

/// An attribute is inserted inside its tag: only whitespace and the end of the
/// tag follow it.
pub proof fn attributes_are_inserted_before_the_end_of_the_tag(source: Seq<char>, span: (usize, usize))
    requires
        span.0 < span.1 <= encode_utf8(source).len(),
        encode_utf8(source)[span.1 - 1] == 0x3e,
        encode_utf8(source)[span.0 as int] == 0x3c,
    ensures
        span.0 <= insertion_point(source, span) < span.1,
        closes_tag(encode_utf8(source), insertion_point(source, span), span.1 as int),
{
    let bytes = encode_utf8(source);
    let end = span.1 as int;
    let place = insertion_point(source, span);
    if 2 <= end && bytes[end - 2] == 0x2f {
        lemma_blanks(bytes, span.0 as int, end - 2);
        assert(bytes.subrange(end - 2, end) =~= seq![0x2fu8, 0x3eu8]);
        assert(span.0 <= end - 2);
    } else {
        lemma_blanks(bytes, span.0 as int, end - 1);
        assert(bytes.subrange(end - 1, end) =~= seq![0x3eu8]);
    }
}

proof fn lemma_inserted(ids: Seq<(KeyModel, Seq<char>)>, place: int, n: int, out: UsageModel)
    requires
        0 <= n <= ids.len(),
    ensures
        with_inserted(ids, place, n, out).edits == out.edits,
        with_inserted(ids, place, n, out).matches.len() == out.matches.len() + n,
        forall|i: int|
            0 <= i < n ==> {
                let found = #[trigger] with_inserted(ids, place, n, out).matches[out.matches.len() + i];
                found.key == ids[i].0 && found.candidate == ids[i].1 && found.start == place && found.end == place
            },
    decreases n,
{
    if n > 0 {
        lemma_inserted(ids, place, n - 1, out);
        let before = with_inserted(ids, place, n - 1, out);
        let after = with_inserted(ids, place, n, out);
        assert forall|i: int| 0 <= i < n implies {
            let found = #[trigger] after.matches[out.matches.len() + i];
            found.key == ids[i].0 && found.candidate == ids[i].1 && found.start == place && found.end == place
        } by {
            if i < n - 1 {
                assert(after.matches[out.matches.len() + i] == before.matches[out.matches.len() + i]);
            }
        }
    }
}

/// An element with an id and no `className` gets one: all candidates of the id
/// are written into a new attribute inside its tag, and reported for the id.
pub proof fn ids_become_class_names(
    at: SceneModel,
    element: TreeModel,
    k: int,
    name: Seq<char>,
    candidates: Seq<Seq<char>>,
    out: UsageModel,
)
    requires
        ({
            let list = items(element, "attributes"@);
            &&& 0 <= k < list.len()
            &&& attribute_name(list[k]) == Some("id"@)
            &&& string_value(field(list[k], "value"@)) == Some(name)
            &&& forall|j: int|
                0 <= j < list.len() && j != k ==> attribute_name(#[trigger] list[j]) != Some("className"@)
                    && attribute_name(list[j]) != Some("id"@)
        }),
        held(at.entries, KeyModel::Id(name)) == Some(candidates),
        candidates.len() > 0,
        forall|i: int| 0 <= i < candidates.len() ==> is_word(#[trigger] candidates[i], Separator::Whitespace),
    ensures
        ({
            let after = with_global_element(at, element, out);
            let place = insertion_point(at.source, span_of(element));
            let written = after.edits.last().replacement;
            &&& after.edits.len() == out.edits.len() + 1
            &&& after.edits.drop_last() == out.edits
            &&& after.edits.last().start == place
            &&& after.edits.last().end == place
            &&& written.len() > 11
            &&& written.take(11) == " className="@
            &&& words(read_list(Site::Attribute, written.skip(11)), Separator::Whitespace) == candidates
            &&& after.matches.len() == out.matches.len() + candidates.len()
            &&& forall|i: int|
                0 <= i < candidates.len() ==> {
                    let found = #[trigger] after.matches[out.matches.len() + i];
                    found.key == KeyModel::Id(name) && found.candidate == candidates[i] && found.start == place
                }
        }),
{
    reveal_strlit(" className=");
    reveal_strlit("className");
    reveal_strlit("id");
    assert("className"@.len() != "id"@.len());
    let list = items(element, "attributes"@);
    lemma_attributes(at, list, list.len() as int, k, out);
    let found = attributes_of(at, list, list.len() as int, out);
    let key = KeyModel::Id(name);
    let place = insertion_point(at.source, span_of(element));
    let none = Seq::<(KeyModel, Seq<char>)>::empty();
    assert(found.ids =~= crate::js_rewrite::with_id(key, candidates));
    assert(found.ids.len() == candidates.len());
    assert(candidates_of(found.ids) =~= candidates);
    lemma_inserted(found.ids, place, found.ids.len() as int, out);
    let after = with_global_element(at, element, out);
    let value = joined(candidates, " "@);
    written_lists_read_back(Site::Attribute, value);
    splitting_undoes_joining(candidates, Separator::Whitespace);
    let written = after.edits.last().replacement;
    assert(written.skip(11) =~= attribute_value(value));
    assert(written.take(11) =~= " className="@);
    assert(after.edits.drop_last() =~= out.edits);
    assert forall|i: int| 0 <= i < candidates.len() implies {
        let told = #[trigger] after.matches[out.matches.len() + i];
        told.key == KeyModel::Id(name) && told.candidate == candidates[i] && told.start == place
    } by {
        assert(found.ids[i] == (key, candidates[i]));
    }
}

// ---------------------------------------------------------------------------
// Every node
// ---------------------------------------------------------------------------

/// Nothing that was collected is lost.
pub open spec fn stays(before: UsageModel, after: UsageModel) -> bool {
    &&& stays_ahead(before.edits, after.edits)
    &&& stays_ahead(before.matches, after.matches)
    &&& stays_ahead(before.module_refs, after.module_refs)
    &&& stays_ahead(before.warnings, after.warnings)
    &&& before.unsafe_reference ==> after.unsafe_reference
}

proof fn lemma_stays(a: UsageModel, b: UsageModel, c: UsageModel)
    requires
        stays(a, b),
        stays(b, c),
    ensures
        stays(a, c),
{
    assert forall|i: int| 0 <= i < a.edits.len() implies #[trigger] c.edits[i] == a.edits[i] by {
        assert(c.edits[i] == b.edits[i]);
    }
    assert forall|i: int| 0 <= i < a.matches.len() implies #[trigger] c.matches[i] == a.matches[i] by {
        assert(c.matches[i] == b.matches[i]);
    }
    assert forall|i: int| 0 <= i < a.module_refs.len() implies #[trigger] c.module_refs[i] == a.module_refs[i] by {
        assert(c.module_refs[i] == b.module_refs[i]);
    }
    assert forall|i: int| 0 <= i < a.warnings.len() implies #[trigger] c.warnings[i] == a.warnings[i] by {
        assert(c.warnings[i] == b.warnings[i]);
    }
}

proof fn lemma_listed_stays(key: KeyModel, candidates: Seq<Seq<char>>, span: (usize, usize), n: int, state: ClassListModel)
    ensures
        stays(state.out, with_listed_all(key, candidates, span, n, state).out),
    decreases n,
{
    if n > 0 {
        lemma_listed_stays(key, candidates, span, n - 1, state);
        let before = with_listed_all(key, candidates, span, n - 1, state).out;
        let after = with_listed_all(key, candidates, span, n, state).out;
        assert(stays(before, after));
        lemma_stays(state.out, before, after);
    }
}

proof fn lemma_own_stays(at: SceneModel, own: Seq<Seq<char>>, span: (usize, usize), n: int, state: ClassListModel)
    ensures
        stays(state.out, with_own_classes(at, own, span, n, state).out),
    decreases n,
{
    if n > 0 {
        lemma_own_stays(at, own, span, n - 1, state);
        let before = with_own_classes(at, own, span, n - 1, state);
        let key = KeyModel::Class(own[n - 1]);
        if let Some(candidates) = held(at.entries, key) {
            lemma_listed_stays(key, candidates, span, candidates.len() as int, before);
            lemma_stays(state.out, before.out, with_own_classes(at, own, span, n, state).out);
        }
    }
}

proof fn lemma_extra_stays(extra: Seq<(KeyModel, Seq<char>)>, span: (usize, usize), n: int, state: ClassListModel)
    ensures
        stays(state.out, with_extra(extra, span, n, state).out),
    decreases n,
{
    if n > 0 {
        lemma_extra_stays(extra, span, n - 1, state);
        let before = with_extra(extra, span, n - 1, state).out;
        let after = with_extra(extra, span, n, state).out;
        assert(stays(before, after));
        lemma_stays(state.out, before, after);
    }
}

proof fn lemma_literal_stays(
    at: SceneModel,
    span: (usize, usize),
    value: Seq<char>,
    extra: Seq<(KeyModel, Seq<char>)>,
    site: Site,
    out: UsageModel,
)
    ensures
        stays(out, with_literal(at, span, value, extra, site, out)),
{
    let own = words(value, Separator::Whitespace);
    let start = ClassListModel { classes: own, out };
    let middle = with_own_classes(at, own, span, own.len() as int, start);
    let whole = completed(at, span, value, extra, out);
    lemma_own_stays(at, own, span, own.len() as int, start);
    lemma_extra_stays(extra, span, extra.len() as int, middle);
    lemma_stays(out, middle.out, whole.out);
    assert(stays(whole.out, with_literal(at, span, value, extra, site, out)));
    lemma_stays(out, whole.out, with_literal(at, span, value, extra, site, out));
}

proof fn lemma_leaf_stays(at: SceneModel, leaf: TreeModel, out: UsageModel)
    ensures
        stays(out, with_global_leaf(at, leaf, out)),
{
    let span = span_of(leaf);
    if string_value(leaf) is Some {
        lemma_literal_stays(
            at,
            span,
            string_value(leaf)->0,
            seq![],
            Site::Expression { single_quoted: crate::position::byte_at(at.source, span.0 as int, 0x27u8) },
            out,
        );
    } else if crate::js_rewrite::plain_template(leaf) is Some {
        lemma_literal_stays(
            at,
            span,
            crate::js_rewrite::plain_template(leaf)->0,
            seq![],
            Site::Expression { single_quoted: false },
            out,
        );
    }
}

proof fn lemma_leaves_stay(at: SceneModel, leaves: Seq<TreeModel>, n: int, out: UsageModel)
    ensures
        stays(out, with_global_leaves(at, leaves, n, out)),
    decreases n,
{
    if n > 0 {
        lemma_leaves_stay(at, leaves, n - 1, out);
        let before = with_global_leaves(at, leaves, n - 1, out);
        lemma_leaf_stays(at, leaves[n - 1], before);
        lemma_stays(out, before, with_global_leaves(at, leaves, n, out));
    }
}

proof fn lemma_attributes_stay(at: SceneModel, list: Seq<TreeModel>, n: int, out: UsageModel)
    ensures
        stays(out, attributes_of(at, list, n, out).out),
    decreases n,
{
    if n > 0 {
        lemma_attributes_stay(at, list, n - 1, out);
        let before = attributes_of(at, list, n - 1, out);
        let after = attributes_of(at, list, n, out);
        let expression = field(field(list[n - 1], "value"@), "expression"@);
        let leaves = crate::syntax::result_leaves(expression);
        lemma_leaves_stay(at, leaves, leaves.len() as int, before.out);
        assert(stays(before.out, after.out));
        lemma_stays(out, before.out, after.out);
    }
}

proof fn lemma_inserted_stays(ids: Seq<(KeyModel, Seq<char>)>, place: int, n: int, out: UsageModel)
    ensures
        stays(out, with_inserted(ids, place, n, out)),
    decreases n,
{
    if n > 0 {
        lemma_inserted_stays(ids, place, n - 1, out);
        let before = with_inserted(ids, place, n - 1, out);
        assert(stays(before, with_inserted(ids, place, n, out)));
        lemma_stays(out, before, with_inserted(ids, place, n, out));
    }
}

proof fn lemma_element_stays(at: SceneModel, element: TreeModel, out: UsageModel)
    ensures
        stays(out, with_global_element(at, element, out)),
{
    let list = items(element, "attributes"@);
    lemma_attributes_stay(at, list, list.len() as int, out);
    let found = attributes_of(at, list, list.len() as int, out);
    let after = with_global_element(at, element, out);
    match found.literal {
        Some(literal) => {
            lemma_literal_stays(at, literal.0, literal.1, found.ids, Site::Attribute, found.out);
        },
        None => {
            let place = insertion_point(at.source, span_of(element));
            lemma_inserted_stays(found.ids, place, found.ids.len() as int, found.out);
            let inserted = with_inserted(found.ids, place, found.ids.len() as int, found.out);
            if !found.has_class_name && found.ids.len() > 0 {
                assert(stays(inserted, after));
                lemma_stays(found.out, inserted, after);
            }
        },
    }
    lemma_stays(out, found.out, after);
}

proof fn lemma_match_stays(
    member: Seq<char>,
    candidates: Seq<Seq<char>>,
    span: (usize, usize),
    n: int,
    out: UsageModel,
)
    ensures
        stays(out, with_member_match(member, candidates, span, n, out)),
    decreases n,
{
    if n > 0 {
        lemma_match_stays(member, candidates, span, n - 1, out);
        let before = with_member_match(member, candidates, span, n - 1, out);
        assert(stays(before, with_member_match(member, candidates, span, n, out)));
        lemma_stays(out, before, with_member_match(member, candidates, span, n, out));
    }
}

proof fn lemma_matches_stay(at: SceneModel, members: Seq<Seq<char>>, span: (usize, usize), n: int, out: UsageModel)
    ensures
        stays(out, with_member_matches(at, members, span, n, out)),
    decreases n,
{
    if n > 0 {
        lemma_matches_stay(at, members, span, n - 1, out);
        let before = with_member_matches(at, members, span, n - 1, out);
        let candidates = crate::js_rewrite::held_or_none(at.entries, members[n - 1]);
        lemma_match_stays(members[n - 1], candidates, span, candidates.len() as int, before);
        lemma_stays(out, before, with_member_matches(at, members, span, n, out));
    }
}

proof fn lemma_rewritten_stays(at: SceneModel, members: Seq<Seq<char>>, n: int, out: UsageModel)
    ensures
        stays(out, with_rewritten(at, members, n, out)),
    decreases n,
{
    if n > 0 {
        lemma_rewritten_stays(at, members, n - 1, out);
        let before = with_rewritten(at, members, n - 1, out);
        assert(stays(before, with_rewritten(at, members, n, out)));
        lemma_stays(out, before, with_rewritten(at, members, n, out));
    }
}

proof fn lemma_template_stays(
    at: SceneModel,
    template: TemplateModel,
    span: (usize, usize),
    site: Site,
    out: UsageModel,
)
    ensures
        stays(out, with_template(at, template, span, site, out)),
{
    let members = template.members;
    let n = members.len() as int;
    let matched = with_member_matches(at, members, span, n, out);
    lemma_matches_stay(at, members, span, n, out);
    let after = with_template(at, template, span, site, out);
    if crate::js_rewrite::member_clash(at, members, 0) is None {
        let warned = match crate::js_rewrite::static_clash(at, members, template.static_classes, 0) {
            Some(clash) => UsageModel {
                warnings: matched.warnings.push(
                    crate::plan::conflict_warning(at.path, span.0 as int, span.1 as int, clash.0, clash.1),
                ),
                ..matched
            },
            None => matched,
        };
        assert(stays(matched, warned));
        let contained = with_container(template, span, site, warned);
        assert(stays(warned, contained));
        lemma_rewritten_stays(at, members, n, contained);
        lemma_stays(matched, warned, contained);
        lemma_stays(matched, contained, after);
    } else {
        assert(stays(matched, after));
    }
    lemma_stays(out, matched, after);
}

proof fn lemma_module_leaf_stays(at: SceneModel, leaf: TreeModel, out: UsageModel)
    ensures
        stays(out, with_module_leaf(at, leaf, out)),
{
    let span = span_of(leaf);
    let site = Site::Expression { single_quoted: false };
    if let Some(template) = crate::js_rewrite::member_template(at, leaf) {
        lemma_template_stays(at, template, span, site, out);
    }
    if let Some(template) = crate::js_rewrite::static_template_of(at, leaf) {
        lemma_template_stays(at, template, span, site, out);
    }
}

proof fn lemma_module_leaves_stay(at: SceneModel, leaves: Seq<TreeModel>, n: int, out: UsageModel)
    ensures
        stays(out, with_module_leaves(at, leaves, n, out)),
    decreases n,
{
    if n > 0 {
        lemma_module_leaves_stay(at, leaves, n - 1, out);
        let before = with_module_leaves(at, leaves, n - 1, out);
        lemma_module_leaf_stays(at, leaves[n - 1], before);
        lemma_stays(out, before, with_module_leaves(at, leaves, n, out));
    }
}

proof fn lemma_module_attribute_stays(at: SceneModel, item: TreeModel, out: UsageModel)
    ensures
        stays(out, with_module_attribute(at, item, out)),
{
    let value = field(item, "value"@);
    let expression = field(value, "expression"@);
    if let Some(template) = crate::js_rewrite::member_template(at, expression) {
        lemma_template_stays(at, template, span_of(value), Site::Attribute, out);
    }
    if let Some(template) = crate::js_rewrite::static_template_of(at, expression) {
        lemma_template_stays(at, template, span_of(value), Site::Attribute, out);
    }
    let leaves = crate::syntax::result_leaves(expression);
    lemma_module_leaves_stay(at, leaves, leaves.len() as int, out);
}

proof fn lemma_module_attributes_stay(at: SceneModel, list: Seq<TreeModel>, n: int, out: UsageModel)
    ensures
        stays(out, with_module_attributes(at, list, n, out)),
    decreases n,
{
    if n > 0 {
        lemma_module_attributes_stay(at, list, n - 1, out);
        let before = with_module_attributes(at, list, n - 1, out);
        lemma_module_attribute_stays(at, list[n - 1], before);
        lemma_stays(out, before, with_module_attributes(at, list, n, out));
    }
}

proof fn lemma_usage_stays(at: SceneModel, tree: TreeModel, inside: bool, out: UsageModel)
    ensures
        stays(out, after_usage(at, tree, inside, out)),
{
    let list = items(tree, "attributes"@);
    lemma_module_attributes_stay(at, list, list.len() as int, out);
    lemma_element_stays(at, tree, out);
}

proof fn lemma_used_stays(at: SceneModel, tree: TreeModel, inside: bool, out: UsageModel)
    ensures
        stays(out, used(at, tree, inside, out)),
    decreases tree, 0nat,
{
    match tree {
        TreeModel::List(list) => {
            lemma_used_items_stay(at, list, list.len(), inside, out);
        },
        TreeModel::Node(fields) => {
            let deeper = inside || attribute_name(tree) == Some("className"@);
            let own = after_usage(at, tree, inside, out);
            lemma_usage_stays(at, tree, inside, out);
            lemma_used_fields_stay(at, fields, fields.len(), deeper, own);
            lemma_stays(out, own, used(at, tree, inside, out));
        },
        _ => {},
    }
}

proof fn lemma_used_items_stay(at: SceneModel, list: Seq<TreeModel>, n: nat, inside: bool, out: UsageModel)
    ensures
        stays(out, used_items(at, list, n, inside, out)),
    decreases list, n,
{
    if n > 0 && n <= list.len() {
        lemma_used_items_stay(at, list, (n - 1) as nat, inside, out);
        let before = used_items(at, list, (n - 1) as nat, inside, out);
        lemma_used_stays(at, list[n - 1], inside, before);
        lemma_stays(out, before, used_items(at, list, n, inside, out));
    }
}

proof fn lemma_used_fields_stay(
    at: SceneModel,
    fields: Seq<(Seq<char>, TreeModel)>,
    n: nat,
    inside: bool,
    out: UsageModel,
)
    ensures
        stays(out, used_fields(at, fields, n, inside, out)),
    decreases fields, n,
{
    if n > 0 && n <= fields.len() {
        lemma_used_fields_stay(at, fields, (n - 1) as nat, inside, out);
        let before = used_fields(at, fields, (n - 1) as nat, inside, out);
        lemma_used_stays(at, fields[n - 1].1, inside, before);
        lemma_stays(out, before, used_fields(at, fields, n, inside, out));
    }
}

/// The node stands somewhere in the tree; `within` says whether a `className`
/// attribute is round it there, or round the whole tree.
pub open spec fn stands(tree: TreeModel, inside: bool, node: TreeModel, within: bool) -> bool
    decreases tree, 0nat,
{
    match tree {
        TreeModel::List(list) => stands_in_items(list, list.len(), inside, node, within),
        TreeModel::Node(fields) => (tree == node && inside == within) || stands_in_fields(
            fields,
            fields.len(),
            inside || attribute_name(tree) == Some("className"@),
            node,
            within,
        ),
        _ => false,
    }
}

pub open spec fn stands_in_items(list: Seq<TreeModel>, n: nat, inside: bool, node: TreeModel, within: bool) -> bool
    decreases list, n,
{
    n != 0 && n <= list.len() && (stands_in_items(list, (n - 1) as nat, inside, node, within) || stands(
        list[n - 1],
        inside,
        node,
        within,
    ))
}

pub open spec fn stands_in_fields(
    fields: Seq<(Seq<char>, TreeModel)>,
    n: nat,
    inside: bool,
    node: TreeModel,
    within: bool,
) -> bool
    decreases fields, n,
{
    n != 0 && n <= fields.len() && (stands_in_fields(fields, (n - 1) as nat, inside, node, within) || stands(
        fields[n - 1].1,
        inside,
        node,
        within,
    ))
}

/// The node was looked at, and what that gave is there.
pub open spec fn looked_at(at: SceneModel, node: TreeModel, within: bool, result: UsageModel) -> bool {
    exists|before: UsageModel| #[trigger] stays(after_usage(at, node, within, before), result)
}

proof fn lemma_looked(at: SceneModel, tree: TreeModel, inside: bool, node: TreeModel, within: bool, out: UsageModel)
    requires
        stands(tree, inside, node, within),
    ensures
        looked_at(at, node, within, used(at, tree, inside, out)),
    decreases tree, 0nat,
{
    match tree {
        TreeModel::List(list) => {
            lemma_looked_items(at, list, list.len(), inside, node, within, out);
        },
        TreeModel::Node(fields) => {
            let deeper = inside || attribute_name(tree) == Some("className"@);
            let own = after_usage(at, tree, inside, out);
            lemma_used_fields_stay(at, fields, fields.len(), deeper, own);
            if tree == node && inside == within {
                assert(stays(after_usage(at, node, within, out), used(at, tree, inside, out)));
            } else {
                lemma_looked_fields(at, fields, fields.len(), deeper, node, within, own);
            }
        },
        _ => {},
    }
}

proof fn lemma_looked_items(
    at: SceneModel,
    list: Seq<TreeModel>,
    n: nat,
    inside: bool,
    node: TreeModel,
    within: bool,
    out: UsageModel,
)
    requires
        stands_in_items(list, n, inside, node, within),
    ensures
        looked_at(at, node, within, used_items(at, list, n, inside, out)),
    decreases list, n,
{
    let before = used_items(at, list, (n - 1) as nat, inside, out);
    let after = used_items(at, list, n, inside, out);
    if stands_in_items(list, (n - 1) as nat, inside, node, within) {
        lemma_looked_items(at, list, (n - 1) as nat, inside, node, within, out);
        lemma_used_stays(at, list[n - 1], inside, before);
        let first = choose|first: UsageModel| #[trigger] stays(after_usage(at, node, within, first), before);
        lemma_stays(after_usage(at, node, within, first), before, after);
    } else {
        lemma_looked(at, list[n - 1], inside, node, within, before);
    }
}

proof fn lemma_looked_fields(
    at: SceneModel,
    fields: Seq<(Seq<char>, TreeModel)>,
    n: nat,
    inside: bool,
    node: TreeModel,
    within: bool,
    out: UsageModel,
)
    requires
        stands_in_fields(fields, n, inside, node, within),
    ensures
        looked_at(at, node, within, used_fields(at, fields, n, inside, out)),
    decreases fields, n,
{
    let before = used_fields(at, fields, (n - 1) as nat, inside, out);
    let after = used_fields(at, fields, n, inside, out);
    if stands_in_fields(fields, (n - 1) as nat, inside, node, within) {
        lemma_looked_fields(at, fields, (n - 1) as nat, inside, node, within, out);
        lemma_used_stays(at, fields[n - 1].1, inside, before);
        let first = choose|first: UsageModel| #[trigger] stays(after_usage(at, node, within, first), before);
        lemma_stays(after_usage(at, node, within, first), before, after);
    } else {
        lemma_looked(at, fields[n - 1].1, inside, node, within, before);
    }
}

/// Every node of a script is looked at, and nothing that this gave is lost: what
/// an element gains stays among the edits, wherever in the script it stands.
pub proof fn every_node_is_looked_at(at: SceneModel, tree: TreeModel, node: TreeModel, within: bool, out: UsageModel)
    requires
        stands(tree, false, node, within),
    ensures
        looked_at(at, node, within, used(at, tree, false, out)),
{
    lemma_looked(at, tree, false, node, within, out);
}

/// Every reference to a class of the CSS Module is counted, and one outside a
/// `className` makes the module unsafe to change.
pub proof fn every_reference_is_counted(
    at: SceneModel,
    tree: TreeModel,
    node: TreeModel,
    within: bool,
    name: Seq<char>,
    out: UsageModel,
)
    requires
        stands(tree, false, node, within),
        is_reference(at, node, name),
    ensures
        used(at, tree, false, out).module_refs.contains(name),
        !within ==> used(at, tree, false, out).unsafe_reference,
{
    lemma_looked(at, tree, false, node, within, out);
    let result = used(at, tree, false, out);
    let before = choose|before: UsageModel| #[trigger] stays(after_usage(at, node, within, before), result);
    lemma_reference(at, node);
    let own = after_usage(at, node, within, before);
    assert(own.module_refs == before.module_refs.push(name));
    assert(own.module_refs[before.module_refs.len() as int] == name);
    assert(result.module_refs[before.module_refs.len() as int] == name);
}

/// A class list of the script is complete behind the edits: it stands as it was
/// and nothing was owed, or an edit writes it anew.
pub open spec fn list_settled(
    at: SceneModel,
    span: (usize, usize),
    value: Seq<char>,
    site: Site,
    edits: Seq<EditModel>,
) -> bool {
    let old = words(value, Separator::Whitespace);
    exists|list: Seq<Seq<char>>|
        {
            &&& #[trigger] extends(old, list)
            &&& forall|class: Seq<char>| #[trigger]
                list.contains(class) <==> old.contains(class) || offered_by(at.entries, old, class)
            &&& list == old || writes_list(edits, span, site, list)
        }
}

/// Some edit replaces the span by a text that reads as the class list.
pub open spec fn writes_list(edits: Seq<EditModel>, span: (usize, usize), site: Site, list: Seq<Seq<char>>) -> bool {
    exists|i: int|
        0 <= i < edits.len() && (#[trigger] edits[i]).start == span.0 && edits[i].end == span.1 && words(
            read_list(site, edits[i].replacement),
            Separator::Whitespace,
        ) == list
}

proof fn lemma_list_settled(
    at: SceneModel,
    span: (usize, usize),
    value: Seq<char>,
    site: Site,
    out: UsageModel,
    result: UsageModel,
)
    requires
        forall|class: Seq<char>| #[trigger]
            offered_by(at.entries, words(value, Separator::Whitespace), class) ==> is_word(class, Separator::Whitespace),
        stays(with_literal(at, span, value, seq![], site, out), result),
    ensures
        list_settled(at, span, value, site, result.edits),
{
    let none = Seq::<(KeyModel, Seq<char>)>::empty();
    let old = words(value, Separator::Whitespace);
    assert forall|class: Seq<char>|
        #![trigger offered_by(at.entries, old, class)]
        #![trigger offered_extra(none, class)]
        offered_by(at.entries, old, class) || offered_extra(none, class) implies is_word(class, Separator::Whitespace) by {
        assert(!offered_extra(none, class));
    }
    class_lists_keep_and_gain(at, span, value, none, site, out);
    let after = with_literal(at, span, value, none, site, out);
    let list = choose|list: Seq<Seq<char>>|
        {
            &&& #[trigger] extends(old, list)
            &&& forall|class: Seq<char>| #[trigger]
                list.contains(class) <==> old.contains(class) || offered_by(at.entries, old, class) || offered_extra(
                    none,
                    class,
                )
            &&& if after.edits == out.edits {
                list == old
            } else {
                &&& after.edits.len() == out.edits.len() + 1
                &&& after.edits.drop_last() == out.edits
                &&& after.edits.last().start == span.0
                &&& after.edits.last().end == span.1
                &&& words(read_list(site, after.edits.last().replacement), Separator::Whitespace) == list
            }
        };
    assert forall|class: Seq<char>| #[trigger] list.contains(class) <==> old.contains(class) || offered_by(
        at.entries,
        old,
        class,
    ) by {
        assert(!offered_extra(none, class));
    }
    if list != old {
        let k = after.edits.len() - 1;
        assert(result.edits[k] == after.edits[k]);
        assert(writes_list(result.edits, span, site, list));
    }
    assert(extends(old, list));
}

/// Outside CSS Modules every element with a quoted `className` keeps its classes
/// and gains their candidates, wherever in the script it stands.
pub proof fn every_quoted_class_name_gets_its_utilities(
    at: SceneModel,
    tree: TreeModel,
    element: TreeModel,
    within: bool,
    k: int,
    out: UsageModel,
)
    requires
        !at.is_module,
        stands(tree, false, element, within),
        of_kind(element, "JSXOpeningElement"@),
        ({
            let list = items(element, "attributes"@);
            &&& 0 <= k < list.len()
            &&& attribute_name(list[k]) == Some("className"@)
            &&& string_value(field(list[k], "value"@)) is Some
            &&& forall|j: int|
                0 <= j < list.len() && j != k ==> attribute_name(#[trigger] list[j]) != Some("className"@)
                    && attribute_name(list[j]) != Some("id"@)
        }),
        forall|class: Seq<char>| #[trigger]
            offered_by(
                at.entries,
                words(string_value(field(items(element, "attributes"@)[k], "value"@))->0, Separator::Whitespace),
                class,
            ) ==> is_word(class, Separator::Whitespace),
    ensures
        ({
            let value = field(items(element, "attributes"@)[k], "value"@);
            list_settled(
                at,
                span_of(value),
                string_value(value)->0,
                Site::Attribute,
                used(at, tree, false, out).edits,
            )
        }),
{
    lemma_element_kinds();
    lemma_looked(at, tree, false, element, within, out);
    let result = used(at, tree, false, out);
    let before = choose|before: UsageModel| #[trigger] stays(after_usage(at, element, within, before), result);
    quoted_class_names_are_class_lists(at, element, k, before);
    let value = field(items(element, "attributes"@)[k], "value"@);
    lemma_list_settled(at, span_of(value), string_value(value)->0, Site::Attribute, before, result);
}

proof fn lemma_element_kinds()
    ensures
        "JSXOpeningElement"@ != "MemberExpression"@,
        "JSXOpeningElement"@ != "VariableDeclarator"@,
{
    reveal_strlit("JSXOpeningElement");
    reveal_strlit("MemberExpression");
    reveal_strlit("VariableDeclarator");
    assert("JSXOpeningElement"@.len() == 17);
    assert("MemberExpression"@.len() == 16);
    assert("VariableDeclarator"@.len() == 18);
}

/// In a CSS Module every element whose `className` is one reference gets all
/// candidates of the class in its place, wherever in the script it stands.
pub proof fn every_module_class_gets_its_utilities(
    at: SceneModel,
    tree: TreeModel,
    element: TreeModel,
    within: bool,
    k: int,
    name: Seq<char>,
    candidates: Seq<Seq<char>>,
    out: UsageModel,
)
    requires
        at.is_module,
        stands(tree, false, element, within),
        of_kind(element, "JSXOpeningElement"@),
        0 <= k < items(element, "attributes"@).len(),
        ({
            let item = items(element, "attributes"@)[k];
            &&& attribute_name(item) == Some("className"@)
            &&& of_kind(field(item, "value"@), "JSXExpressionContainer"@)
            &&& is_reference(at, field(field(item, "value"@), "expression"@), name)
        }),
        held(at.entries, KeyModel::Class(name)) == Some(candidates),
        are_words(candidates),
        !at.preserved.contains(name),
    ensures
        writes_list(
            used(at, tree, false, out).edits,
            span_of(field(items(element, "attributes"@)[k], "value"@)),
            Site::Attribute,
            candidates,
        ),
{
    lemma_element_kinds();
    lemma_looked(at, tree, false, element, within, out);
    let result = used(at, tree, false, out);
    let before = choose|before: UsageModel| #[trigger] stays(after_usage(at, element, within, before), result);
    let list = items(element, "attributes"@);
    let n = list.len() as int;
    let first = with_module_attributes(at, list, k, before);
    let own = with_module_attributes(at, list, k + 1, before);
    class_names_of_one_reference_are_rewritten(at, list[k], name, candidates, first);
    lemma_later_attributes_stay(at, list, k + 1, n, before);
    lemma_stays(own, with_module_attributes(at, list, n, before), result);
    let e = own.edits.len() - 1;
    assert(result.edits[e] == own.edits[e]);
}

proof fn lemma_later_attributes_stay(at: SceneModel, list: Seq<TreeModel>, k: int, n: int, out: UsageModel)
    requires
        0 <= k <= n,
    ensures
        stays(with_module_attributes(at, list, k, out), with_module_attributes(at, list, n, out)),
    decreases n - k,
{
    if k < n {
        lemma_later_attributes_stay(at, list, k, n - 1, out);
        let before = with_module_attributes(at, list, n - 1, out);
        lemma_module_attribute_stays(at, list[n - 1], before);
        lemma_stays(
            with_module_attributes(at, list, k, out),
            before,
            with_module_attributes(at, list, n, out),
        );
    }
}

// ---------------------------------------------------------------------------
// Conditional results
// ---------------------------------------------------------------------------

/// The expression may be the result: it is the whole, or a result of one of the
/// branches, or of the right operand.
pub open spec fn may_result(tree: TreeModel, leaf: TreeModel, depth: nat) -> bool
    decreases depth,
{
    let expression = inner(tree);
    if of_kind(expression, "ConditionalExpression"@) {
        depth > 0 && (field(expression, "consequent"@) != TreeModel::Null && may_result(
            field(expression, "consequent"@),
            leaf,
            (depth - 1) as nat,
        ) || field(expression, "alternate"@) != TreeModel::Null && may_result(
            field(expression, "alternate"@),
            leaf,
            (depth - 1) as nat,
        ))
    } else if of_kind(expression, "LogicalExpression"@) {
        depth > 0 && field(expression, "right"@) != TreeModel::Null && may_result(
            field(expression, "right"@),
            leaf,
            (depth - 1) as nat,
        )
    } else {
        leaf == expression
    }
}

/// Every expression that may be the result of a `className` is looked at: both
/// branches of a conditional, and the right operand of a logical expression.
pub proof fn every_result_is_looked_at(tree: TreeModel, leaf: TreeModel, depth: nat)
    requires
        may_result(tree, leaf, depth),
    ensures
        result_leaves(tree).contains(leaf),
    decreases depth,
{
    let expression = inner(tree);
    lemma_inner_smaller(tree);
    lemma_field_smaller(expression, "consequent"@);
    lemma_field_smaller(expression, "alternate"@);
    lemma_field_smaller(expression, "right"@);
    if of_kind(expression, "ConditionalExpression"@) {
        let first = field(expression, "consequent"@);
        let second = field(expression, "alternate"@);
        let left = if first != TreeModel::Null {
            result_leaves(first)
        } else {
            seq![]
        };
        let right = if second != TreeModel::Null {
            result_leaves(second)
        } else {
            seq![]
        };
        assert(result_leaves(tree) == left + right);
        if first != TreeModel::Null && may_result(first, leaf, (depth - 1) as nat) {
            every_result_is_looked_at(first, leaf, (depth - 1) as nat);
            let k = choose|k: int| 0 <= k < left.len() && left[k] == leaf;
            assert((left + right)[k] == leaf);
        } else {
            every_result_is_looked_at(second, leaf, (depth - 1) as nat);
            let k = choose|k: int| 0 <= k < right.len() && right[k] == leaf;
            assert((left + right)[left.len() + k] == leaf);
        }
    } else if of_kind(expression, "LogicalExpression"@) {
        every_result_is_looked_at(field(expression, "right"@), leaf, (depth - 1) as nat);
    } else {
        assert(seq![expression][0] == leaf);
    }
}

proof fn lemma_later_leaves_stay(at: SceneModel, leaves: Seq<TreeModel>, k: int, n: int, out: UsageModel)
    requires
        0 <= k <= n,
    ensures
        stays(with_module_leaves(at, leaves, k, out), with_module_leaves(at, leaves, n, out)),
        stays(with_global_leaves(at, leaves, k, out), with_global_leaves(at, leaves, n, out)),
    decreases n - k,
{
    if k < n {
        lemma_later_leaves_stay(at, leaves, k, n - 1, out);
        let before = with_module_leaves(at, leaves, n - 1, out);
        lemma_module_leaf_stays(at, leaves[n - 1], before);
        lemma_stays(with_module_leaves(at, leaves, k, out), before, with_module_leaves(at, leaves, n, out));
        let others = with_global_leaves(at, leaves, n - 1, out);
        lemma_leaf_stays(at, leaves[n - 1], others);
        lemma_stays(with_global_leaves(at, leaves, k, out), others, with_global_leaves(at, leaves, n, out));
    }
}

/// A reference that may be the result of a `className` becomes all candidates
/// of its class, written as a string.
pub proof fn conditional_references_are_rewritten(
    at: SceneModel,
    item: TreeModel,
    leaf: TreeModel,
    depth: nat,
    name: Seq<char>,
    candidates: Seq<Seq<char>>,
    out: UsageModel,
)
    requires
        attribute_name(item) == Some("className"@),
        of_kind(field(item, "value"@), "JSXExpressionContainer"@),
        ({
            let expression = field(field(item, "value"@), "expression"@);
            of_kind(inner(expression), "ConditionalExpression"@) || of_kind(inner(expression), "LogicalExpression"@)
        }),
        may_result(field(field(item, "value"@), "expression"@), leaf, depth),
        is_reference(at, leaf, name),
        held(at.entries, KeyModel::Class(name)) == Some(candidates),
        are_words(candidates),
        !at.preserved.contains(name),
    ensures
        writes_list(
            with_module_attribute(at, item, out).edits,
            span_of(leaf),
            Site::Expression { single_quoted: false },
            candidates,
        ),
{
    reveal_strlit("ConditionalExpression");
    reveal_strlit("LogicalExpression");
    reveal_strlit("TemplateLiteral");
    reveal_strlit("MemberExpression");
    reveal_strlit("ParenthesizedExpression");
    reveal_strlit("TSAsExpression");
    reveal_strlit("TSSatisfiesExpression");
    reveal_strlit("TSNonNullExpression");
    reveal_strlit("TSTypeAssertion");
    reveal_strlit("TSInstantiationExpression");
    assert("ConditionalExpression"@.len() == 21);
    assert("LogicalExpression"@.len() == 17);
    assert("TemplateLiteral"@.len() == 15);
    assert("MemberExpression"@.len() == 16);
    assert("ParenthesizedExpression"@.len() == 23);
    assert("TSAsExpression"@.len() == 14);
    assert("TSSatisfiesExpression"@.len() == 21);
    assert("TSNonNullExpression"@.len() == 19);
    assert("TSInstantiationExpression"@.len() == 25);
    assert("TSTypeAssertion"@.len() == 15);
    assert("TSTypeAssertion"@[1] != "TemplateLiteral"@[1]);
    let expression = field(field(item, "value"@), "expression"@);
    let leaves = result_leaves(expression);
    let n = leaves.len() as int;
    every_result_is_looked_at(expression, leaf, depth);
    let k = choose|k: int| 0 <= k < leaves.len() && leaves[k] == leaf;
    let first = with_module_leaves(at, leaves, k, out);
    let own = with_module_leaves(at, leaves, k + 1, out);
    let site = Site::Expression { single_quoted: false };
    references_become_all_their_candidates(at, leaf, name, candidates, span_of(leaf), site, first);
    lemma_reference(at, leaf);
    lemma_later_leaves_stay(at, leaves, k + 1, n, out);
    let after = with_module_attribute(at, item, out);
    assert(!of_kind(expression, "MemberExpression"@));
    assert(!of_kind(expression, "TemplateLiteral"@));
    assert(after == with_module_leaves(at, leaves, n, out));
    let e = own.edits.len() - 1;
    assert(after.edits[e] == own.edits[e]);
}

/// A string that may be the result of a `className` outside CSS Modules keeps
/// its classes and gains their candidates.
pub proof fn conditional_strings_are_class_lists(
    at: SceneModel,
    leaves: Seq<TreeModel>,
    k: int,
    out: UsageModel,
)
    requires
        0 <= k < leaves.len(),
        string_value(leaves[k]) is Some,
        forall|class: Seq<char>| #[trigger]
            offered_by(at.entries, words(string_value(leaves[k])->0, Separator::Whitespace), class) ==> is_word(
                class,
                Separator::Whitespace,
            ),
    ensures
        list_settled(
            at,
            span_of(leaves[k]),
            string_value(leaves[k])->0,
            Site::Expression {
                single_quoted: crate::position::byte_at(at.source, span_of(leaves[k]).0 as int, 0x27u8),
            },
            with_global_leaves(at, leaves, leaves.len() as int, out).edits,
        ),
{
    let n = leaves.len() as int;
    lemma_later_leaves_stay(at, leaves, k + 1, n, out);
    lemma_list_settled(
        at,
        span_of(leaves[k]),
        string_value(leaves[k])->0,
        Site::Expression { single_quoted: crate::position::byte_at(at.source, span_of(leaves[k]).0 as int, 0x27u8) },
        with_global_leaves(at, leaves, k, out),
        with_global_leaves(at, leaves, n, out),
    );
}

} // verus!
