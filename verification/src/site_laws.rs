//! Sites, authored rules and workspaces are found again.
use crate::css::RuleSpans;
use crate::edit::{applicable, delta_before, shifted_offset_finds_the_same_byte, spliced, EditModel};
use crate::html_live::{by_start, drift_before, exact_edit, intrudes, rebased, same_span, with_live, LiveModel};
use crate::request::MappingModel;
use crate::rules::RuleModel;
use crate::snapshots::{ascending, change, changes_from, delta};
use crate::source::AttributeModel;
use crate::source_map::{
    authored_offset, authored_offsets, based, located, mapping_at, shortest, spans_all, AuthoredModel,
};
use crate::staging::{created, packed};
use crate::text::precedes;
use vstd::prelude::*;

verus! {

// ---------------------------------------------------------------------------
// Sites behind edits
// ---------------------------------------------------------------------------

proof fn lemma_no_exact(edits: Seq<EditModel>, attribute: AttributeModel, i: int)
    requires
        0 <= i <= edits.len(),
    ensures
        exact_edit(edits, attribute, i) is None <==> forall|k: int|
            i <= k < edits.len() ==> !same_span(#[trigger] edits[k], attribute),
    decreases edits.len() - i,
{
    if i < edits.len() && !same_span(edits[i], attribute) {
        lemma_no_exact(edits, attribute, i + 1);
        assert forall|k: int| i <= k < edits.len() && exact_edit(edits, attribute, i) is None implies !same_span(
            #[trigger] edits[k],
            attribute,
        ) by {
            if k > i {
                assert(i + 1 <= k);
            }
        }
    }
}

proof fn lemma_drift(edits: Seq<EditModel>, attribute: AttributeModel, offset: int, n: int, length: int)
    requires
        applicable(edits, length),
        0 <= n <= edits.len(),
        attribute.start <= offset,
        offset < attribute.end || offset == attribute.start,
        forall|k: int| 0 <= k < edits.len() ==> !same_span(#[trigger] edits[k], attribute),
        forall|k: int| 0 <= k < edits.len() ==> !intrudes(#[trigger] edits[k], attribute),
    ensures
        drift_before(edits, attribute, n) == delta_before(edits, offset, n),
    decreases n,
{
    if n > 0 {
        lemma_drift(edits, attribute, offset, n - 1, length);
        let edit = edits[n - 1];
        assert(edit.in_range(length));
        assert(!same_span(edit, attribute));
        assert(!intrudes(edit, attribute));
    }
}

/// A site that no edit reaches into is found again behind the edits, with the
/// same value and the same bytes.
pub proof fn untouched_sites_keep_their_text(
    bytes: Seq<u8>,
    edits: Seq<EditModel>,
    attribute: AttributeModel,
    offset: int,
)
    requires
        applicable(edits, bytes.len() as int),
        0 <= attribute.start <= offset < attribute.end <= bytes.len(),
        forall|k: int|
            0 <= k < edits.len() ==> (#[trigger] edits[k]).end <= attribute.start || edits[k].start >= attribute.end,
        forall|k: int|
            0 <= k < edits.len() ==> !((#[trigger] edits[k]).start == edits[k].end && edits[k].start <= attribute.start),
        spliced(bytes, edits).len() <= usize::MAX,
    ensures
        rebased(attribute, edits) matches Some(moved) && moved == (AttributeModel {
            start: moved.start,
            end: moved.end,
            ..attribute
        }) && moved.end - moved.start == attribute.end - attribute.start && {
            let place = moved.start + (offset - attribute.start);
            0 <= place < spliced(bytes, edits).len() && spliced(bytes, edits)[place] == bytes[offset]
        },
{
    let length = bytes.len() as int;
    assert forall|k: int| 0 <= k < edits.len() implies !same_span(#[trigger] edits[k], attribute) by {
        assert(edits[k].in_range(length));
        assert(edits[k].end <= attribute.start || edits[k].start >= attribute.end);
    }
    assert forall|k: int| 0 <= k < edits.len() implies !intrudes(#[trigger] edits[k], attribute) by {
        assert(edits[k].in_range(length));
        assert(edits[k].end <= attribute.start || edits[k].start >= attribute.end);
        assert(!(edits[k].start == edits[k].end && edits[k].start <= attribute.start));
    }
    lemma_no_exact(edits, attribute, 0);
    let last = attribute.end - 1;
    lemma_drift(edits, attribute, attribute.start, edits.len() as int, length);
    lemma_drift(edits, attribute, offset, edits.len() as int, length);
    lemma_drift(edits, attribute, last, edits.len() as int, length);
    assert forall|i: int| 0 <= i < edits.len() implies !((#[trigger] edits[i]).start <= offset < edits[i].end) by {
        assert(edits[i].end <= attribute.start || edits[i].start >= attribute.end);
    }
    assert forall|i: int| 0 <= i < edits.len() implies !((#[trigger] edits[i]).start <= last < edits[i].end) by {
        assert(edits[i].end <= attribute.start || edits[i].start >= attribute.end);
    }
    assert forall|i: int| 0 <= i < edits.len() implies !((#[trigger] edits[i]).start <= attribute.start
        < edits[i].end) by {
        assert(edits[i].end <= attribute.start || edits[i].start >= attribute.end);
    }
    shifted_offset_finds_the_same_byte(bytes, edits, offset);
    shifted_offset_finds_the_same_byte(bytes, edits, last);
    shifted_offset_finds_the_same_byte(bytes, edits, attribute.start);
    crate::edit::lemma_place(bytes, edits, offset);
    crate::edit::lemma_place(bytes, edits, last);
    crate::edit::lemma_place(bytes, edits, attribute.start);
}

proof fn lemma_live(list: Seq<LiveModel>, entry: LiveModel)
    ensures
        with_live(list, entry).contains(entry),
        forall|other: LiveModel| list.contains(other) ==> #[trigger] with_live(list, entry).contains(other),
        with_live(list, entry).len() == list.len() + 1,
    decreases list.len(),
{
    let after = with_live(list, entry);
    if list.len() == 0 || list.last().1.start <= entry.1.start {
        assert(after[list.len() as int] == entry);
        assert forall|other: LiveModel| list.contains(other) implies #[trigger] after.contains(other) by {
            let k = choose|k: int| 0 <= k < list.len() && list[k] == other;
            assert(after[k] == other);
        }
    } else {
        let shorter = list.drop_last();
        lemma_live(shorter, entry);
        let inner = with_live(shorter, entry);
        let k = choose|k: int| 0 <= k < inner.len() && inner[k] == entry;
        assert(after[k] == entry);
        assert forall|other: LiveModel| list.contains(other) implies #[trigger] after.contains(other) by {
            let m = choose|m: int| 0 <= m < list.len() && list[m] == other;
            if m == list.len() - 1 {
                assert(after[inner.len() as int] == other);
            } else {
                assert(shorter[m] == other);
                assert(inner.contains(other));
                let j = choose|j: int| 0 <= j < inner.len() && inner[j] == other;
                assert(after[j] == other);
            }
        }
    }
}

/// No site is lost when the sites are put in order.
pub proof fn ordering_keeps_every_site(list: Seq<LiveModel>)
    ensures
        by_start(list).len() == list.len(),
        forall|k: int| 0 <= k < list.len() ==> by_start(list).contains(#[trigger] list[k]),
    decreases list.len(),
{
    if list.len() > 0 {
        let shorter = list.drop_last();
        ordering_keeps_every_site(shorter);
        lemma_live(by_start(shorter), list.last());
        assert forall|k: int| 0 <= k < list.len() implies by_start(list).contains(#[trigger] list[k]) by {
            if k < list.len() - 1 {
                assert(shorter[k] == list[k]);
                assert(by_start(shorter).contains(shorter[k]));
            }
        }
    }
}

// ---------------------------------------------------------------------------
// Authored rules
// ---------------------------------------------------------------------------

proof fn lemma_mapping(mappings: Seq<MappingModel>, place: (int, int), n: int)
    requires
        0 <= n <= mappings.len(),
    ensures
        match mapping_at(mappings, place, n) {
            Some(mapping) => mapping.generated.0 == place.0 && mapping.generated.1 == place.1 && mappings.contains(
                mapping,
            ),
            None => forall|i: int|
                0 <= i < n ==> !((#[trigger] mappings[i]).generated.0 == place.0 && mappings[i].generated.1 == place.1),
        },
    decreases n,
{
    if n > 0 {
        if mappings[n - 1].generated.0 == place.0 && mappings[n - 1].generated.1 == place.1 {
            assert(mappings.contains(mappings[n - 1]));
        } else {
            lemma_mapping(mappings, place, n - 1);
        }
    }
}

/// A generated position is looked up under itself, and found wherever a mapping
/// has it.
pub proof fn mappings_are_found_by_their_position(mappings: Seq<MappingModel>, place: (int, int))
    ensures
        match mapping_at(mappings, place, mappings.len() as int) {
            Some(mapping) => mapping.generated.0 == place.0 && mapping.generated.1 == place.1 && mappings.contains(
                mapping,
            ),
            None => forall|i: int|
                0 <= i < mappings.len() ==> !((#[trigger] mappings[i]).generated.0 == place.0 && mappings[i].generated.1
                    == place.1),
        },
{
    lemma_mapping(mappings, place, mappings.len() as int);
}

proof fn lemma_shortest(rules: Seq<RuleSpans>, offsets: Seq<int>, n: int)
    requires
        0 <= n <= rules.len(),
    ensures
        match shortest(rules, offsets, n) {
            Some(span) => {
                &&& exists|i: int| 0 <= i < n && (#[trigger] rules[i]).0 == span
                &&& forall|k: int| 0 <= k < offsets.len() ==> span.0 <= #[trigger] offsets[k] < span.1
                &&& forall|i: int|
                    0 <= i < n && spans_all((#[trigger] rules[i]).0, offsets) ==> span.1 - span.0 <= rules[i].0.1
                        - rules[i].0.0
            },
            None => forall|i: int| 0 <= i < n ==> !spans_all((#[trigger] rules[i]).0, offsets),
        },
    decreases n,
{
    if n > 0 {
        lemma_shortest(rules, offsets, n - 1);
        let before = shortest(rules, offsets, n - 1);
        let span = rules[n - 1].0;
        if spans_all(span, offsets) {
            assert(rules[n - 1].0 == span);
            if let Some(best) = before {
                let i = choose|i: int| 0 <= i < n - 1 && (#[trigger] rules[i]).0 == best;
                assert(rules[i].0 == best);
            }
        } else if let Some(best) = before {
            let i = choose|i: int| 0 <= i < n - 1 && (#[trigger] rules[i]).0 == best;
            assert(rules[i].0 == best);
        }
    }
}

proof fn lemma_offsets(at: AuthoredModel, offsets: Seq<usize>, n: int)
    requires
        0 <= n <= offsets.len(),
        authored_offsets(at.source, at.path, at.mappings, at.analysis, offsets, n) is Some,
    ensures
        ({
            let found = authored_offsets(at.source, at.path, at.mappings, at.analysis, offsets, n)->0;
            &&& found.len() == n
            &&& forall|k: int|
                0 <= k < n ==> authored_offset(at.source, at.path, at.mappings, at.analysis, offsets[k] as int) == Some(
                    #[trigger] found[k],
                )
        }),
    decreases n,
{
    if n > 0 {
        lemma_offsets(at, offsets, n - 1);
        let before = authored_offsets(at.source, at.path, at.mappings, at.analysis, offsets, n - 1)->0;
        let found = authored_offsets(at.source, at.path, at.mappings, at.analysis, offsets, n)->0;
        assert forall|k: int| 0 <= k < n implies authored_offset(
            at.source,
            at.path,
            at.mappings,
            at.analysis,
            offsets[k] as int,
        ) == Some(#[trigger] found[k]) by {
            if k < n - 1 {
                assert(found[k] == before[k]);
            }
        }
    }
}

/// The authored rule holds what every offset of the rule maps to.
pub open spec fn holds_origins(at: AuthoredModel, rule: RuleModel, span: (usize, usize)) -> bool {
    forall|k: int|
        0 <= k < rule.provenance_offsets.len() ==> (authored_offset(
            at.source,
            at.path,
            at.mappings,
            at.analysis,
            #[trigger] rule.provenance_offsets[k] as int,
        ) matches Some(offset) && span.0 <= offset < span.1)
}

/// The authored span of a rule is that of an authored rule that every offset of
/// the rule maps into; nothing else of the rule changes.
pub proof fn located_rules_hold_their_origins(at: AuthoredModel, rule: RuleModel)
    requires
        rule.authored_span is None,
    ensures
        ({
            let after = located(at, rule);
            &&& after == (RuleModel { authored_span: after.authored_span, ..rule })
            &&& after.authored_span matches Some(found) ==> exists|i: int|
                0 <= i < at.rules.len() && based(at.base, (#[trigger] at.rules[i]).0) == Some(found) && holds_origins(
                    at,
                    rule,
                    at.rules[i].0,
                )
        }),
{
    let offsets = rule.provenance_offsets;
    let after = located(at, rule);
    if let Some(found) = after.authored_span {
        lemma_offsets(at, offsets, offsets.len() as int);
        let places = authored_offsets(at.source, at.path, at.mappings, at.analysis, offsets, offsets.len() as int)->0;
        lemma_shortest(at.rules, places, at.rules.len() as int);
        let span = shortest(at.rules, places, at.rules.len() as int)->0;
        let i = choose|i: int| 0 <= i < at.rules.len() && (#[trigger] at.rules[i]).0 == span;
        assert forall|k: int| 0 <= k < offsets.len() implies (authored_offset(
            at.source,
            at.path,
            at.mappings,
            at.analysis,
            #[trigger] offsets[k] as int,
        ) matches Some(offset) && span.0 <= offset < span.1) by {
            assert(span.0 <= places[k] < span.1);
        }
        assert(holds_origins(at, rule, at.rules[i].0));
    }
}

// ---------------------------------------------------------------------------
// Workspaces
// ---------------------------------------------------------------------------

/// The entries from `i` and from `j` on are the same.
pub open spec fn same_from(before: Seq<(String, String)>, after: Seq<(String, String)>, i: int, j: int) -> bool {
    &&& before.len() - i == after.len() - j
    &&& forall|k: int|
        0 <= k < before.len() - i ==> #[trigger] before[i + k].0@ == after[j + k].0@ && before[i + k].1@ == after[j
            + k].1@
}

proof fn lemma_changes(before: Seq<(String, String)>, after: Seq<(String, String)>, i: int, j: int)
    requires
        0 <= i <= before.len(),
        0 <= j <= after.len(),
        ascending(before),
        ascending(after),
    ensures
        changes_from(before, after, i, j).len() == 0 ==> same_from(before, after, i, j),
    decreases before.len() - i + after.len() - j,
{
    reveal_strlit("  added ");
    reveal_strlit("  deleted ");
    reveal_strlit("  modified ");
    if changes_from(before, after, i, j).len() == 0 && !(i == before.len() && j == after.len()) {
        if j == after.len() || (i < before.len() && precedes(before[i].0@, after[j].0@)) {
            assert(change(before[i].0@, Some(before[i].1@), None).len() > 0);
        } else if i == before.len() || precedes(after[j].0@, before[i].0@) {
            assert(change(after[j].0@, None, Some(after[j].1@)).len() > 0);
        } else {
            lemma_changes(before, after, i + 1, j + 1);
            assert(before[i].0@.take(0) =~= after[j].0@.take(0));
            crate::text::lemma_precedes_total(before[i].0@, after[j].0@, 0);
            assert(before[i].0@ == after[j].0@);
            assert(before[i].1@ == after[j].1@);
            assert forall|k: int| 0 <= k < before.len() - i implies #[trigger] before[i + k].0@ == after[j + k].0@
                && before[i + k].1@ == after[j + k].1@ by {
                if k > 0 {
                    assert(before[(i + 1) + (k - 1)].0@ == after[(j + 1) + (k - 1)].0@);
                }
            }
        }
    }
}

/// A workspace counts as unchanged only where every file is there before and
/// after, with the same content.
pub proof fn unchanged_workspaces_are_the_same(before: Seq<(String, String)>, after: Seq<(String, String)>)
    requires
        ascending(before),
        ascending(after),
        delta(before, after) == "  unchanged\n"@,
    ensures
        before.len() == after.len(),
        forall|k: int|
            0 <= k < before.len() ==> (#[trigger] before[k]).0@ == after[k].0@ && before[k].1@ == after[k].1@,
{
    lemma_unchanged(before, after);
    lemma_changes(before, after, 0, 0);
    assert forall|k: int| 0 <= k < before.len() implies (#[trigger] before[k]).0@ == after[k].0@ && before[k].1@
        == after[k].1@ by {
        assert(before[0 + k].0@ == after[0 + k].0@);
    }
}

proof fn lemma_unchanged(before: Seq<(String, String)>, after: Seq<(String, String)>)
    requires
        delta(before, after) == "  unchanged\n"@,
    ensures
        changes_from(before, after, 0, 0).len() == 0,
{
    reveal_strlit("  unchanged\n");
    let changes = changes_from(before, after, 0, 0);
    if changes.len() > 0 {
        lemma_first(before, after, 0, 0);
        assert(changes[2] == "  unchanged\n"@[2]);
        assert("  unchanged\n"@[2] == 'u');
    }
}

proof fn lemma_first(before: Seq<(String, String)>, after: Seq<(String, String)>, i: int, j: int)
    requires
        changes_from(before, after, i, j).len() > 0,
    ensures
        changes_from(before, after, i, j).len() > 2,
        changes_from(before, after, i, j)[2] != 'u',
    decreases before.len() - i + after.len() - j,
{
    reveal_strlit("  added ");
    reveal_strlit("  deleted ");
    reveal_strlit("  modified ");
    if j == after.len() || (i < before.len() && precedes(before[i].0@, after[j].0@)) {
        assert(change(before[i].0@, Some(before[i].1@), None)[2] == 'd');
    } else if i == before.len() || precedes(after[j].0@, before[i].0@) {
        assert(change(after[j].0@, None, Some(after[j].1@))[2] == 'a');
    } else {
        let own = change(before[i].0@, Some(before[i].1@), Some(after[j].1@));
        if own.len() == 0 {
            assert(own + changes_from(before, after, i + 1, j + 1) =~= changes_from(before, after, i + 1, j + 1));
            lemma_first(before, after, i + 1, j + 1);
        } else {
            assert(own[2] == 'm');
        }
    }
}

// ---------------------------------------------------------------------------
// Packing
// ---------------------------------------------------------------------------

/// What packing created is what is there afterwards and was not there before.
pub proof fn created_paths_are_new(before: Seq<Seq<char>>, after: Seq<Seq<char>>, n: int, path: Seq<char>)
    requires
        0 <= n <= after.len(),
    ensures
        created(before, after, n).contains(path) <==> !before.contains(path) && exists|i: int|
            0 <= i < n && #[trigger] after[i] == path,
    decreases n,
{
    if n > 0 {
        created_paths_are_new(before, after, n - 1, path);
        let fewer = created(before, after, n - 1);
        let all = created(before, after, n);
        if fewer.contains(path) {
            let k = choose|k: int| 0 <= k < fewer.len() && fewer[k] == path;
            assert(all[k] == path);
        }
        if all.contains(path) {
            let k = choose|k: int| 0 <= k < all.len() && all[k] == path;
            if k < fewer.len() {
                assert(fewer[k] == path);
            } else {
                assert(after[n - 1] == path);
            }
        }
        if !before.contains(path) && after[n - 1] == path {
            assert(all[fewer.len() as int] == path);
        }
        if exists|i: int| 0 <= i < n && #[trigger] after[i] == path {
            let i = choose|i: int| 0 <= i < n && #[trigger] after[i] == path;
            if i < n - 1 {
                assert(after[i] == path);
            }
        }
    }
}

/// The tarball of a package is a new one.
pub proof fn packed_tarballs_are_new(package: Seq<char>, before: Seq<Seq<char>>, after: Seq<Seq<char>>)
    ensures
        packed(package, before, after) matches Ok(path) ==> !before.contains(path) && after.contains(path),
{
    if let Ok(path) = packed(package, before, after) {
        let made = created(before, after, after.len() as int);
        assert(made[0] == path);
        created_paths_are_new(before, after, after.len() as int, path);
        let i = choose|i: int| 0 <= i < after.len() && #[trigger] after[i] == path;
        assert(after.contains(after[i]));
    }
}

} // verus!
