//! What a request as a whole comes to.
use crate::consumer::OfferModel;
use crate::consumption::consumed;
use crate::plan_laws::{every_file_has_its_plan, files_are_written_as_planned, was_written};
use crate::planner::{concluded_plan, other_plans, ResponseModel};
use crate::reports::ReportedModel;
use crate::request::RequestModel;
use crate::request_rules::{
    components_of, folder_of, map_stamped, placed_at, spans_based, KnowledgeModel, RequestRulesModel,
};
use crate::rules::RuleModel;
use crate::source_map::based;
use crate::source::FileModel;
use crate::text::{pieces, Separator};
use vstd::prelude::*;

verus! {

// ---------------------------------------------------------------------------
// Files that may not be written
// ---------------------------------------------------------------------------

/// Some file at the path may be written.
pub open spec fn may_write(files: Seq<FileModel>, path: Seq<char>) -> bool {
    exists|i: int| 0 <= i < files.len() && (#[trigger] files[i]).path == path && files[i].writable
}

/// Nothing is written but the stylesheet itself, the Tailwind entry, and files
/// that may be written.
pub proof fn only_writable_files_are_written(
    know: KnowledgeModel,
    request: RequestModel,
    found: RequestRulesModel,
    offer: OfferModel,
    rules: Seq<RuleModel>,
    reports: ReportedModel,
    response: ResponseModel,
    k: int,
)
    requires
        consumed(offer, rules, request.files, request.files.len() as int) is Ok,
        concluded_plan(
            know,
            request,
            found,
            consumed(offer, rules, request.files, request.files.len() as int)->Ok_0,
            reports,
        ) == Ok::<ResponseModel, crate::css::HaltModel>(response),
        0 <= k < response.files.len(),
    ensures
        response.files[k].path == request.sheet.css_path || request.settings.tailwind_path == Some(
            response.files[k].path,
        ) || may_write(request.files, response.files[k].path),
{
    let files = request.files;
    let n = files.len() as int;
    let known = consumed(offer, rules, files, n)->Ok_0;
    every_file_has_its_plan(offer, rules, files, n);
    let sheet = request.sheet;
    let goes = crate::planner::module_goes(sheet, known, reports);
    let keyframes = found.parsed.keyframes;
    let globals = found.parsed.global_at_rules;
    let moved = crate::planner::moved_keyframes(keyframes, known.candidates, goes, keyframes.len() as int);
    let own = if found.masked is Some {
        crate::planner::own_edits(files, known.plans, sheet.css_path, n)
    } else {
        seq![]
    };
    let plans = if found.masked is Some {
        other_plans(files, known.plans, sheet.css_path)
    } else {
        known.plans
    };
    let edits = reports.edits + (if goes {
        crate::planner::at_rule_removals(keyframes, globals)
    } else {
        seq![]
    }) + own;
    let unused = found.masked is None && goes;
    let entry = crate::planner::entry_file(
        know,
        request,
        moved,
        if goes {
            globals
        } else {
            seq![]
        },
    )->Ok_0;
    let outcome = crate::planner::sheet_outcome(know, sheet, found.masked, edits, goes)->Ok_0;
    let unlink = outcome.deleted || unused;
    let start = crate::planner::WrittenModel { files: entry + outcome.files, applied: outcome.applied };
    files_are_written_as_planned(files, plans, unlink, start, n);
    let done = crate::planner::written(files, plans, unlink, start, n)->Ok_0;
    assert(response.files == done.files);
    if k < start.files.len() {
        assert(done.files[k] == start.files[k]);
        if k < entry.len() {
            assert(start.files[k] == entry[k]);
        } else {
            assert(start.files[k] == outcome.files[k - entry.len()]);
        }
    } else {
        assert(was_written(files, plans, unlink, n, done.files[k]));
        let i = choose|i: int|
            0 <= i < n && (#[trigger] files[i]).path == done.files[k].path && crate::plan_laws::changes(plans[i], unlink)
                && crate::plan_laws::becomes(files[i], plans[i], unlink, done.files[k].source);
        assert(crate::plan_laws::is_its_plan(offer, files[i], known.plans[i]));
        if !files[i].writable {
            assert(known.plans[i].edits.len() == 0);
            assert(known.plans[i].removable_import_edits.len() == 0);
            assert(plans[i].edits.len() == 0);
            assert(plans[i].removable_import_edits == known.plans[i].removable_import_edits);
        }
        assert(files[i].path == done.files[k].path && files[i].writable);
    }
}

// ---------------------------------------------------------------------------
// Rules of a block
// ---------------------------------------------------------------------------

/// A span behind other text has the same length, and starts that much later.
pub proof fn based_spans_keep_their_length(base: int, span: (usize, usize))
    requires
        0 <= base,
    ensures
        match based(base, span) {
            Some(moved) => moved.0 == base + span.0 && moved.1 == base + span.1,
            None => base + span.0 > usize::MAX || base + span.1 > usize::MAX,
        },
{
}

/// The rules of a later block keep everything but their spans, which lie behind
/// the text before the block.
pub proof fn later_blocks_move_spans_only(base: int, rules: Seq<RuleModel>, n: int)
    requires
        0 <= base,
        0 <= n <= rules.len(),
        spans_based(base, rules, n) is Some,
    ensures
        ({
            let after = spans_based(base, rules, n)->0;
            &&& after.len() == rules.len()
            &&& forall|i: int|
                0 <= i < n ==> #[trigger] after[i] == (RuleModel { span: after[i].span, ..rules[i] }) && after[i].span.0
                    == base + rules[i].span.0 && after[i].span.1 == base + rules[i].span.1
            &&& forall|i: int| n <= i < rules.len() ==> #[trigger] after[i] == rules[i]
        }),
    decreases n,
{
    if n > 0 {
        later_blocks_move_spans_only(base, rules, n - 1);
    }
}

/// A rule without an authored place stays; one that has a place, or a warning,
/// does not change.
pub proof fn rules_without_a_place_stay(rule: RuleModel)
    ensures
        map_stamped(rule).warning is None <==> rule.warning is None && rule.authored_span is Some,
        rule.warning is Some || rule.authored_span is Some ==> map_stamped(rule) == rule,
        map_stamped(rule) == (RuleModel { warning: map_stamped(rule).warning, ..rule }),
{
}

/// A rule of a block stands in the file where the block's content starts, plus
/// its place in the block.
pub proof fn rules_of_a_block_stand_behind_its_start(base: int, rule: RuleModel)
    requires
        0 <= base,
    ensures
        placed_at(base, rule) == (RuleModel { authored_span: placed_at(base, rule).authored_span, ..rule }),
        placed_at(base, rule).authored_span matches Some(span) ==> span.0 == base + rule.span.0 && span.1 == base
            + rule.span.1,
        base + rule.span.0 <= usize::MAX && base + rule.span.1 <= usize::MAX ==> placed_at(base, rule).authored_span is Some,
{
}

// ---------------------------------------------------------------------------
// Folders
// ---------------------------------------------------------------------------

proof fn lemma_components(segments: Seq<Seq<char>>, n: int)
    requires
        0 <= n <= segments.len(),
        forall|i: int| 0 <= i < n ==> (#[trigger] segments[i]).len() > 0 && segments[i] != "."@,
    ensures
        components_of(segments, n) == segments.take(n),
    decreases n,
{
    if n > 0 {
        lemma_components(segments, n - 1);
        assert(segments.take(n) =~= segments.take(n - 1).push(segments[n - 1]));
    } else {
        assert(components_of(segments, n) =~= segments.take(n));
    }
}

/// Two files share a folder exactly where their paths differ in the last name
/// alone.
pub proof fn folders_are_all_names_but_the_last(path: Seq<char>, other: Seq<char>)
    requires
        !crate::path::is_absolute(path),
        !crate::path::is_absolute(other),
        pieces(path, Separator::Char('/')).len() > 0,
        pieces(other, Separator::Char('/')).len() > 0,
        forall|i: int|
            0 <= i < pieces(path, Separator::Char('/')).len() ==> (#[trigger] pieces(
                path,
                Separator::Char('/'),
            )[i]).len() > 0 && pieces(path, Separator::Char('/'))[i] != "."@,
        forall|i: int|
            0 <= i < pieces(other, Separator::Char('/')).len() ==> (#[trigger] pieces(
                other,
                Separator::Char('/'),
            )[i]).len() > 0 && pieces(other, Separator::Char('/'))[i] != "."@,
    ensures
        folder_of(path) == folder_of(other) <==> pieces(path, Separator::Char('/')).drop_last() == pieces(
            other,
            Separator::Char('/'),
        ).drop_last(),
{
    let a = pieces(path, Separator::Char('/'));
    let b = pieces(other, Separator::Char('/'));
    lemma_components(a, a.len() as int);
    lemma_components(b, b.len() as int);
    assert(a.take(a.len() as int) =~= a);
    assert(b.take(b.len() as int) =~= b);
}

} // verus!
