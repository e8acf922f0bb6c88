//! Conflicts between the stylesheets of a batch.
use crate::batch_conflicts::{
    all_clashes, matches_clash, ordered_pair, row_clashes, sheet_conflicts, with_clash, with_owned, with_pair,
    GroupedModel, OwnedModel, PairModel,
};
use crate::media_gate::{clash, BatchMatchModel, UtilitiesModel};
use crate::request::SettingsModel;
use crate::rules::RuleId;
use vstd::prelude::*;

verus! {

/// The rule of the stylesheet keeps the pair.
pub open spec fn keeps_pair(list: Seq<OwnedModel>, owner: (int, RuleId), pair: PairModel) -> bool {
    exists|k: int| 0 <= k < list.len() && (#[trigger] list[k]).0 == owner && list[k].1.contains(pair)
}

proof fn lemma_pair(list: Seq<PairModel>, pair: PairModel)
    ensures
        with_pair(list, pair).contains(pair),
        forall|other: PairModel| list.contains(other) ==> #[trigger] with_pair(list, pair).contains(other),
    decreases list.len(),
{
    let after = with_pair(list, pair);
    if list.len() == 0 || crate::batch_conflicts::pair_precedes(list.last(), pair) {
        assert(after[list.len() as int] == pair);
        assert forall|other: PairModel| list.contains(other) implies #[trigger] after.contains(other) by {
            let k = choose|k: int| 0 <= k < list.len() && list[k] == other;
            assert(after[k] == other);
        }
    } else if list.last() == pair {
        assert(list[list.len() - 1] == pair);
    } else {
        let shorter = list.drop_last();
        lemma_pair(shorter, pair);
        let inner = with_pair(shorter, pair);
        let k = choose|k: int| 0 <= k < inner.len() && inner[k] == pair;
        assert(after[k] == pair);
        assert forall|other: PairModel| list.contains(other) implies #[trigger] after.contains(other) by {
            let m = choose|m: int| 0 <= m < list.len() && list[m] == other;
            if m == list.len() - 1 {
                assert(after[inner.len() as int] == other);
            } else {
                assert(shorter[m] == other);
                assert(inner.contains(other));
                let j = choose|j: int| 0 <= j < inner.len() && inner[j] == other;
                assert(after[j] == other);
            }
        }
    }
}

proof fn lemma_owned(list: Seq<OwnedModel>, owner: (int, RuleId), pair: PairModel, i: int)
    requires
        0 <= i <= list.len(),
    ensures
        keeps_pair(with_owned(list, owner, pair, i), owner, pair),
        forall|other: (int, RuleId), kept: PairModel|
            keeps_pair(list, other, kept) ==> #[trigger] keeps_pair(with_owned(list, owner, pair, i), other, kept),
    decreases list.len() - i,
{
    let after = with_owned(list, owner, pair, i);
    if i >= list.len() || list[i].0 == owner {
        let old = if i >= list.len() {
            seq![]
        } else {
            list[i].1
        };
        lemma_pair(old, pair);
        assert(after[i].0 == owner && after[i].1.contains(pair));
        assert forall|other: (int, RuleId), kept: PairModel| keeps_pair(list, other, kept) implies #[trigger] keeps_pair(
            after,
            other,
            kept,
        ) by {
            let k = choose|k: int| 0 <= k < list.len() && (#[trigger] list[k]).0 == other && list[k].1.contains(kept);
            assert(after[k].0 == other && after[k].1.contains(kept));
        }
    } else {
        lemma_owned(list, owner, pair, i + 1);
        assert(after == with_owned(list, owner, pair, i + 1));
    }
}

proof fn lemma_clash(
    settings: SettingsModel,
    known: UtilitiesModel,
    list: Seq<OwnedModel>,
    left: GroupedModel,
    right: GroupedModel,
)
    ensures
        forall|other: (int, RuleId), kept: PairModel|
            keeps_pair(list, other, kept) ==> #[trigger] keeps_pair(
                with_clash(settings, known, list, left, right),
                other,
                kept,
            ),
        matches_clash(settings, known, left, right) ==> both_keep(
            with_clash(settings, known, list, left, right),
            left,
            right,
        ),
{
    if matches_clash(settings, known, left, right) {
        let pair = ordered_pair(left, right);
        let first = (left.matched.stylesheet, left.matched.rule);
        let second = (right.matched.stylesheet, right.matched.rule);
        lemma_owned(list, first, pair, 0);
        lemma_owned(with_owned(list, first, pair, 0), second, pair, 0);
        let after = with_clash(settings, known, list, left, right);
        assert(keeps_pair(after, first, pair));
        assert(keeps_pair(after, second, pair));
    }
}

/// Both rules keep the pair of their utilities.
pub open spec fn both_keep(list: Seq<OwnedModel>, left: GroupedModel, right: GroupedModel) -> bool {
    exists|pair: PairModel|
        {
            &&& pair == (left.matched.candidate, right.matched.candidate) || pair == (
                right.matched.candidate,
                left.matched.candidate,
            )
            &&& #[trigger] keeps_pair(list, (left.matched.stylesheet, left.matched.rule), pair)
            &&& keeps_pair(list, (right.matched.stylesheet, right.matched.rule), pair)
        }
}

proof fn lemma_both_stay(a: Seq<OwnedModel>, b: Seq<OwnedModel>, left: GroupedModel, right: GroupedModel)
    requires
        both_keep(a, left, right),
        forall|other: (int, RuleId), kept: PairModel| keeps_pair(a, other, kept) ==> #[trigger] keeps_pair(b, other, kept),
    ensures
        both_keep(b, left, right),
{
    let pair = choose|pair: PairModel|
        {
            &&& pair == (left.matched.candidate, right.matched.candidate) || pair == (
                right.matched.candidate,
                left.matched.candidate,
            )
            &&& #[trigger] keeps_pair(a, (left.matched.stylesheet, left.matched.rule), pair)
            &&& keeps_pair(a, (right.matched.stylesheet, right.matched.rule), pair)
        };
    assert(keeps_pair(b, (left.matched.stylesheet, left.matched.rule), pair));
    assert(keeps_pair(b, (right.matched.stylesheet, right.matched.rule), pair));
}

proof fn lemma_row(
    settings: SettingsModel,
    known: UtilitiesModel,
    list: Seq<OwnedModel>,
    matches: Seq<GroupedModel>,
    i: int,
    j: int,
)
    requires
        0 <= i < j <= matches.len(),
    ensures
        forall|other: (int, RuleId), kept: PairModel|
            keeps_pair(list, other, kept) ==> #[trigger] keeps_pair(
                row_clashes(settings, known, list, matches, i, j),
                other,
                kept,
            ),
        forall|k: int|
            i < k < j && matches_clash(settings, known, matches[i], #[trigger] matches[k]) ==> both_keep(
                row_clashes(settings, known, list, matches, i, j),
                matches[i],
                matches[k],
            ),
    decreases j - i,
{
    if j > i + 1 {
        lemma_row(settings, known, list, matches, i, j - 1);
        let before = row_clashes(settings, known, list, matches, i, j - 1);
        lemma_clash(settings, known, before, matches[i], matches[j - 1]);
        let after = row_clashes(settings, known, list, matches, i, j);
        assert forall|k: int| i < k < j && matches_clash(settings, known, matches[i], #[trigger] matches[k]) implies both_keep(
            after,
            matches[i],
            matches[k],
        ) by {
            if k < j - 1 {
                lemma_both_stay(before, after, matches[i], matches[k]);
            }
        }
    }
}

/// Wherever two matches on one element cannot both be written, the rules behind
/// both of them keep the pair.
pub proof fn both_rules_of_a_conflict_keep_it(
    settings: SettingsModel,
    known: UtilitiesModel,
    matches: Seq<GroupedModel>,
    n: int,
)
    requires
        0 <= n <= matches.len(),
    ensures
        forall|i: int, k: int|
            0 <= i < n && i < k < matches.len() && matches_clash(
                settings,
                known,
                #[trigger] matches[i],
                #[trigger] matches[k],
            ) ==> both_keep(all_clashes(settings, known, matches, n), matches[i], matches[k]),
    decreases n,
{
    if n > 0 {
        both_rules_of_a_conflict_keep_it(settings, known, matches, n - 1);
        let before = all_clashes(settings, known, matches, n - 1);
        let after = all_clashes(settings, known, matches, n);
        lemma_row(settings, known, before, matches, n - 1, matches.len() as int);
        assert forall|i: int, k: int|
            0 <= i < n && i < k < matches.len() && matches_clash(
                settings,
                known,
                #[trigger] matches[i],
                #[trigger] matches[k],
            ) implies both_keep(after, matches[i], matches[k]) by {
            if i < n - 1 {
                lemma_both_stay(before, after, matches[i], matches[k]);
            }
        }
    }
}

/// A rule with a conflict is among the conflicts of its own stylesheet, with the
/// pairs that it keeps.
pub proof fn conflicts_go_to_their_stylesheet(list: Seq<OwnedModel>, n: int, k: int)
    requires
        0 <= k < n <= list.len(),
    ensures
        sheet_conflicts(list, (list[k].0).0, n).contains(((list[k].0).1, list[k].1)),
    decreases n,
{
    let sheet = (list[k].0).0;
    let before = sheet_conflicts(list, sheet, n - 1);
    let after = sheet_conflicts(list, sheet, n);
    let entry = ((list[k].0).1, list[k].1);
    if k < n - 1 {
        conflicts_go_to_their_stylesheet(list, n - 1, k);
        let i = choose|i: int| 0 <= i < before.len() && before[i] == entry;
        assert(after[i] == entry);
    } else {
        assert(after[before.len() as int] == entry);
    }
}

/// Two stylesheets that give one element utilities that are known to conflict
/// clash; rules of one stylesheet clash only where media variants decide.
pub proof fn stylesheets_clash_over_known_conflicts(
    settings: SettingsModel,
    known: UtilitiesModel,
    left: BatchMatchModel,
    right: BatchMatchModel,
)
    ensures
        left.stylesheet != right.stylesheet && known.conflicts.contains((left.candidate, right.candidate)) ==> clash(
            settings,
            known,
            left,
            right,
        ),
        left.stylesheet == right.stylesheet && settings.media_names is None ==> !clash(settings, known, left, right),
{
}

} // verus!
