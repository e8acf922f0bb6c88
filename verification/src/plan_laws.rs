//! What a plan does to the files.
use crate::animations::KeyframeModel;
use crate::consumer::{consumer_plan, OfferModel};
use crate::consumption::{consumed, linked, writable_plan, Link};
use crate::css::HaltModel;
use crate::decisions::{blocked_stamped, conflicts_from, RuleConflictModels};
use crate::edit::{applicable, spliced, spliced_from, EditModel};
use crate::markup_laws::stays_ahead;
use crate::plan::PlanModel;
use crate::planner::{moved_keyframes, other_plans, own_edits, written, PlannedModel, WrittenModel};
use crate::request::{sheet_is_module, SheetModel};
use crate::rules::{RuleId, RuleModel};
use crate::source::FileModel;
use crate::text::holds;
use crate::vue::edited;
use vstd::prelude::*;

verus! {

// ---------------------------------------------------------------------------
// Edits
// ---------------------------------------------------------------------------

/// How much longer the text becomes by the first `n` edits.
pub open spec fn grown_by(edits: Seq<EditModel>, n: int) -> int
    decreases n,
{
    if n <= 0 {
        0
    } else {
        grown_by(edits, n - 1) + edits[n - 1].bytes().len() - (edits[n - 1].end - edits[n - 1].start)
    }
}

proof fn lemma_written_at(bytes: Seq<u8>, edits: Seq<EditModel>, i: int, k: int, cursor: int)
    requires
        applicable(edits, bytes.len() as int),
        0 <= i <= k < edits.len(),
        0 <= cursor <= edits[i].start,
    ensures
        ({
            let place = edits[k].start - cursor + grown_by(edits, k) - grown_by(edits, i);
            let text = spliced_from(bytes, edits, i, cursor);
            &&& 0 <= place
            &&& place + edits[k].bytes().len() <= text.len()
            &&& text.subrange(place, place + edits[k].bytes().len()) == edits[k].bytes()
        }),
    decreases k - i,
{
    let edit = edits[i];
    assert(edit.in_range(bytes.len() as int));
    let head = bytes.subrange(cursor, edit.start as int);
    let tail = spliced_from(bytes, edits, i + 1, edit.end as int);
    let text = spliced_from(bytes, edits, i, cursor);
    assert(text == head + edit.bytes() + tail);
    let place = edits[k].start - cursor + grown_by(edits, k) - grown_by(edits, i);
    if i == k {
        assert(text.subrange(place, place + edit.bytes().len()) =~= edit.bytes());
    } else {
        assert(edits[i].end <= edits[i + 1].start);
        lemma_written_at(bytes, edits, i + 1, k, edit.end as int);
        let inner = edits[k].start - edit.end + grown_by(edits, k) - grown_by(edits, i + 1);
        let shift = head.len() + edit.bytes().len();
        assert(place == shift + inner);
        assert(text.subrange(place, place + edits[k].bytes().len()) =~= tail.subrange(
            inner,
            inner + edits[k].bytes().len(),
        ));
    }
}

/// Every edit writes its replacement: it stands in the edited text where the
/// edit started, moved by what the edits before it added.
pub proof fn edits_write_their_replacements(bytes: Seq<u8>, edits: Seq<EditModel>, k: int)
    requires
        applicable(edits, bytes.len() as int),
        0 <= k < edits.len(),
    ensures
        ({
            let place = edits[k].start + grown_by(edits, k);
            &&& 0 <= place
            &&& place + edits[k].bytes().len() <= spliced(bytes, edits).len()
            &&& spliced(bytes, edits).subrange(place, place + edits[k].bytes().len()) == edits[k].bytes()
        }),
{
    assert(edits[0].in_range(bytes.len() as int));
    lemma_written_at(bytes, edits, 0, k, 0);
}

// ---------------------------------------------------------------------------
// Files
// ---------------------------------------------------------------------------

/// The file's text under its plan's edits, and the removal of its import where
/// the module goes.
pub open spec fn becomes(file: FileModel, plan: PlanModel, unlink: bool, source: Seq<char>) -> bool {
    edited(
        file.source,
        if unlink {
            plan.edits + plan.removable_import_edits
        } else {
            plan.edits
        },
    ) == Ok::<Seq<char>, HaltModel>(source)
}

/// The plan changes its file.
pub open spec fn changes(plan: PlanModel, unlink: bool) -> bool {
    plan.edits.len() > 0 || unlink && plan.removable_import_edits.len() > 0
}

/// One of the first `n` files was written so.
pub open spec fn was_written(
    files: Seq<FileModel>,
    plans: Seq<PlanModel>,
    unlink: bool,
    n: int,
    written_file: PlannedModel,
) -> bool {
    exists|i: int|
        0 <= i < n && (#[trigger] files[i]).path == written_file.path && changes(plans[i], unlink) && becomes(
            files[i],
            plans[i],
            unlink,
            written_file.source,
        )
}

/// A file that its plan changes is written, with its plan's edits applied to its
/// text; no other file is, and what was written before stays.
pub proof fn files_are_written_as_planned(
    files: Seq<FileModel>,
    plans: Seq<PlanModel>,
    unlink: bool,
    start: WrittenModel,
    n: int,
)
    requires
        0 <= n <= files.len(),
        plans.len() == files.len(),
        written(files, plans, unlink, start, n) is Ok,
    ensures
        ({
            let done = written(files, plans, unlink, start, n)->Ok_0;
            &&& stays_ahead(start.files, done.files)
            &&& forall|i: int|
                0 <= i < n && changes(#[trigger] plans[i], unlink) ==> exists|k: int|
                    start.files.len() <= k < done.files.len() && (#[trigger] done.files[k]).path == files[i].path
                        && becomes(files[i], plans[i], unlink, done.files[k].source)
            &&& forall|k: int|
                start.files.len() <= k < done.files.len() ==> was_written(
                    files,
                    plans,
                    unlink,
                    n,
                    #[trigger] done.files[k],
                )
        }),
    decreases n,
{
    if n > 0 {
        files_are_written_as_planned(files, plans, unlink, start, n - 1);
        let before = written(files, plans, unlink, start, n - 1)->Ok_0;
        let done = written(files, plans, unlink, start, n)->Ok_0;
        assert(stays_ahead(start.files, done.files)) by {
            assert forall|k: int| 0 <= k < start.files.len() implies #[trigger] done.files[k] == start.files[k] by {
                assert(before.files[k] == start.files[k]);
            }
        }
        assert forall|i: int| 0 <= i < n && changes(#[trigger] plans[i], unlink) implies exists|k: int|
            start.files.len() <= k < done.files.len() && (#[trigger] done.files[k]).path == files[i].path && becomes(
                files[i],
                plans[i],
                unlink,
                done.files[k].source,
            ) by {
            if i < n - 1 {
                let k = choose|k: int|
                    start.files.len() <= k < before.files.len() && (#[trigger] before.files[k]).path == files[i].path
                        && becomes(files[i], plans[i], unlink, before.files[k].source);
                assert(done.files[k] == before.files[k]);
            } else {
                let k = before.files.len() as int;
                assert(done.files[k].path == files[i].path);
            }
        }
        assert forall|k: int| start.files.len() <= k < done.files.len() implies was_written(
            files,
            plans,
            unlink,
            n,
            #[trigger] done.files[k],
        ) by {
            if k < before.files.len() {
                assert(done.files[k] == before.files[k]);
                let i = choose|i: int|
                    0 <= i < n - 1 && (#[trigger] files[i]).path == before.files[k].path && changes(plans[i], unlink)
                        && becomes(files[i], plans[i], unlink, before.files[k].source);
                assert(files[i].path == done.files[k].path);
            } else {
                assert(files[n - 1].path == done.files[k].path);
            }
        }
    }
}

/// Keyframes move exactly where the whole stylesheet goes or a utility that was
/// written uses them by their new name; they keep their order.
pub proof fn keyframes_move_where_they_are_used(
    keyframes: Seq<KeyframeModel>,
    candidates: Seq<Seq<char>>,
    all: bool,
    n: int,
    keyframe: KeyframeModel,
)
    requires
        0 <= n <= keyframes.len(),
    ensures
        moved_keyframes(keyframes, candidates, all, n).contains(keyframe) <==> (exists|i: int|
            0 <= i < n && #[trigger] keyframes[i] == keyframe) && (all || exists|k: int|
            0 <= k < candidates.len() && holds(#[trigger] candidates[k], keyframe.migrated_name)),
    decreases n,
{
    if n > 0 {
        keyframes_move_where_they_are_used(keyframes, candidates, all, n - 1, keyframe);
        let before = moved_keyframes(keyframes, candidates, all, n - 1);
        let after = moved_keyframes(keyframes, candidates, all, n);
        if after.contains(keyframe) {
            let k = choose|k: int| 0 <= k < after.len() && after[k] == keyframe;
            if k < before.len() {
                assert(before[k] == keyframe);
            } else {
                assert(keyframes[n - 1] == keyframe);
            }
        }
        if before.contains(keyframe) {
            let k = choose|k: int| 0 <= k < before.len() && before[k] == keyframe;
            assert(after[k] == keyframe);
        } else if keyframes[n - 1] == keyframe && after.len() > before.len() {
            assert(after[before.len() as int] == keyframe);
        }
        if (exists|i: int| 0 <= i < n && #[trigger] keyframes[i] == keyframe) {
            let i = choose|i: int| 0 <= i < n && #[trigger] keyframes[i] == keyframe;
            if i < n - 1 {
                assert(keyframes[i] == keyframe);
            }
        }
    }
}

/// No edit of a component's own file is lost when stylesheet and consumer are
/// one: those edits go with the stylesheet's, and the other files keep theirs.
pub proof fn own_edits_are_moved_not_lost(files: Seq<FileModel>, plans: Seq<PlanModel>, path: Seq<char>, n: int, i: int, k: int)
    requires
        0 <= i < n <= files.len(),
        plans.len() == files.len(),
        0 <= k < plans[i].edits.len(),
    ensures
        files[i].path == path ==> own_edits(files, plans, path, n).contains(plans[i].edits[k]) && other_plans(
            files,
            plans,
            path,
        )[i].edits.len() == 0,
        files[i].path != path ==> other_plans(files, plans, path)[i] == plans[i],
    decreases n,
{
    let before = own_edits(files, plans, path, n - 1);
    let after = own_edits(files, plans, path, n);
    if i < n - 1 {
        own_edits_are_moved_not_lost(files, plans, path, n - 1, i, k);
        if files[i].path == path {
            let m = choose|m: int| 0 <= m < before.len() && before[m] == plans[i].edits[k];
            assert(after[m] == before[m]);
        }
    } else if files[i].path == path {
        assert(after[before.len() + k] == plans[i].edits[k]);
    }
}

// ---------------------------------------------------------------------------
// Consumers
// ---------------------------------------------------------------------------

/// The file may be left without the CSS Module: every reference it makes is
/// known, its scripts name no class of it, and it may be written.
pub open spec fn lets_go(sheet: SheetModel, rules: Seq<RuleModel>, file: FileModel, plan: PlanModel) -> bool {
    &&& plan.module_references_safe
    &&& !sheet.vue_module ==> !linked(file, sheet.css_path, Link::Opaque) && (linked(file, sheet.css_path, Link::Direct)
        ==> file.html_references_safe)
    &&& !sheet.vue_module && linked(file, sheet.css_path, Link::Any) ==> forall|i: int, k: int|
        0 <= i < rules.len() && 0 <= k < rules[i].related_classes.len() ==> !crate::position::mentioned(
            file.html_script_text,
            #[trigger] rules[i].related_classes[k],
        ) || file.html_script_text.len() == 0
    &&& !file.writable ==> !linked(file, sheet.css_path, Link::Direct) && plan.module_refs.len() == 0
        && plan.removable_import_edits.len() == 0
}

/// A CSS Module counts as safe only where no other stylesheet depends on it and
/// every file lets it go.
pub proof fn safe_modules_are_let_go_by_all(offer: OfferModel, rules: Seq<RuleModel>, files: Seq<FileModel>, n: int)
    requires
        0 <= n <= files.len(),
        sheet_is_module(offer.sheet),
        consumed(offer, rules, files, n) is Ok,
        consumed(offer, rules, files, n)->Ok_0.safe,
    ensures
        offer.sheet.css_dependents.len() == 0,
        forall|i: int|
            0 <= i < n ==> (consumer_plan(#[trigger] files[i], offer) matches Ok(plan) && lets_go(
                offer.sheet,
                rules,
                files[i],
                plan,
            )),
    decreases n,
{
    if n > 0 {
        let known = consumed(offer, rules, files, n - 1)->Ok_0;
        safe_modules_are_let_go_by_all(offer, rules, files, n - 1);
        let file = files[n - 1];
        let plan = consumer_plan(file, offer)->Ok_0;
        assert(lets_go(offer.sheet, rules, file, plan)) by {
            if !offer.sheet.vue_module && linked(file, offer.sheet.css_path, Link::Any) && file.html_script_text.len()
                > 0 {
                assert forall|i: int, k: int|
                    0 <= i < rules.len() && 0 <= k < rules[i].related_classes.len() implies !crate::position::mentioned(
                    file.html_script_text,
                    #[trigger] rules[i].related_classes[k],
                ) by {
                    if crate::position::mentioned(file.html_script_text, rules[i].related_classes[k]) {
                        assert(crate::consumption::script_names(file.html_script_text, rules[i].related_classes));
                        assert(crate::consumption::script_names_rules(file.html_script_text, rules));
                    }
                }
            }
        }
    }
}

/// The plan is what is left of the file's own: nothing is written to a file that
/// may not be written, but its references count.
pub open spec fn is_its_plan(offer: OfferModel, file: FileModel, kept: PlanModel) -> bool {
    consumer_plan(file, offer) matches Ok(plan) && if file.writable {
        kept == plan
    } else {
        kept.edits.len() == 0 && kept.removable_import_edits.len() == 0 && kept.matched_module_refs.len() == 0
            && kept.candidates.len() == 0 && kept.module_refs == plan.module_refs
    }
}

/// Every file has one plan: its own where it may be written, and one without any
/// edit where it may not. The candidates of all of them are collected.
pub proof fn every_file_has_its_plan(offer: OfferModel, rules: Seq<RuleModel>, files: Seq<FileModel>, n: int)
    requires
        0 <= n <= files.len(),
        consumed(offer, rules, files, n) is Ok,
    ensures
        ({
            let known = consumed(offer, rules, files, n)->Ok_0;
            &&& known.plans.len() == n
            &&& forall|i: int| 0 <= i < n ==> is_its_plan(offer, files[i], #[trigger] known.plans[i])
            &&& crate::names::ascending(known.candidates)
            &&& forall|candidate: Seq<char>| #[trigger]
                known.candidates.contains(candidate) <==> offered_in(known.plans, n, candidate)
        }),
    decreases n,
{
    if n > 0 {
        every_file_has_its_plan(offer, rules, files, n - 1);
        let before = consumed(offer, rules, files, n - 1)->Ok_0;
        let known = consumed(offer, rules, files, n)->Ok_0;
        let plan = consumer_plan(files[n - 1], offer)->Ok_0;
        let kept = writable_plan(files[n - 1], plan);
        crate::rule_laws::lemma_all_named(before.candidates, kept.candidates);
        assert(known.plans == before.plans.push(kept));
        assert(is_its_plan(offer, files[n - 1], kept));
        assert forall|i: int| 0 <= i < n implies is_its_plan(offer, files[i], #[trigger] known.plans[i]) by {
            if i < n - 1 {
                assert(known.plans[i] == before.plans[i]);
            }
        }
        assert forall|candidate: Seq<char>| #[trigger] known.candidates.contains(candidate) <==> offered_in(
            known.plans,
            n,
            candidate,
        ) by {
            assert(before.candidates.contains(candidate) <==> offered_in(before.plans, n - 1, candidate));
            if offered_in(before.plans, n - 1, candidate) {
                let i = choose|i: int|
                    0 <= i < n - 1 && (#[trigger] before.plans[i]).candidates.contains(candidate);
                assert(known.plans[i] == before.plans[i]);
            }
            if offered_in(known.plans, n, candidate) {
                let i = choose|i: int| 0 <= i < n && (#[trigger] known.plans[i]).candidates.contains(candidate);
                if i < n - 1 {
                    assert(before.plans[i] == known.plans[i]);
                }
            }
            if kept.candidates.contains(candidate) {
                assert(known.plans[n - 1].candidates.contains(candidate));
            }
        }
    } else {
        let known = consumed(offer, rules, files, n)->Ok_0;
        assert forall|candidate: Seq<char>| !(#[trigger] known.candidates.contains(candidate)) by {}
    }
}

/// One of the first `n` plans writes the candidate.
pub open spec fn offered_in(plans: Seq<PlanModel>, n: int, candidate: Seq<char>) -> bool {
    exists|i: int| 0 <= i < n && (#[trigger] plans[i]).candidates.contains(candidate)
}

// ---------------------------------------------------------------------------
// Decisions of a batch
// ---------------------------------------------------------------------------

proof fn lemma_conflicts(list: RuleConflictModels, id: RuleId, i: int)
    requires
        0 <= i <= list.len(),
    ensures
        conflicts_from(list, id, i) is Some <==> exists|k: int| i <= k < list.len() && (#[trigger] list[k]).0 == id,
    decreases list.len() - i,
{
    if i < list.len() {
        lemma_conflicts(list, id, i + 1);
        if list[i].0 != id && conflicts_from(list, id, i + 1) is Some {
            let k = choose|k: int| i + 1 <= k < list.len() && (#[trigger] list[k]).0 == id;
            assert(i <= k);
        }
    }
}

/// A rule stays where the caller blocked it or it conflicts with another
/// stylesheet; it keeps everything else, and no other rule changes.
pub proof fn blocked_and_conflicting_rules_stay(rule: RuleModel, conflicts: RuleConflictModels, blocked: Seq<RuleId>)
    ensures
        ({
            let after = blocked_stamped(rule, conflicts, blocked);
            let conflicting = exists|k: int| 0 <= k < conflicts.len() && (#[trigger] conflicts[k]).0 == rule.id();
            &&& blocked.contains(rule.id()) || conflicting ==> after.warning is Some
            &&& !blocked.contains(rule.id()) && !conflicting ==> after == rule
            &&& after == (RuleModel { warning: after.warning, ..rule })
        }),
{
    lemma_conflicts(conflicts, rule.id(), 0);
}

} // verus!
