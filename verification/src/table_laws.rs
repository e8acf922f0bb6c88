//! Tables give back what was put into them.
use crate::edit::EditModel;
use crate::order::placed;
use crate::path_table::{rounds_from, source_at, source_from, with_source, with_source_from, without_source};
use crate::planner::{with_round, AppliedModels};
use crate::stylesheet::{by_token, token_table};
use vstd::prelude::*;

verus! {

// ---------------------------------------------------------------------------
// Texts by path
// ---------------------------------------------------------------------------

/// The text of a path is that of its first entry.
pub open spec fn first_entry(list: Seq<(Seq<char>, Seq<char>)>, path: Seq<char>, i: int) -> bool {
    0 <= i < list.len() && list[i].0 == path && forall|j: int| 0 <= j < i ==> (#[trigger] list[j]).0 != path
}

proof fn lemma_source(list: Seq<(Seq<char>, Seq<char>)>, path: Seq<char>, i: int)
    requires
        0 <= i <= list.len(),
        forall|j: int| 0 <= j < i ==> (#[trigger] list[j]).0 != path,
    ensures
        match source_from(list, path, i) {
            Some(text) => exists|k: int| #[trigger] first_entry(list, path, k) && list[k].1 == text,
            None => forall|k: int| 0 <= k < list.len() ==> (#[trigger] list[k]).0 != path,
        },
    decreases list.len() - i,
{
    if i < list.len() {
        if list[i].0 == path {
            assert(first_entry(list, path, i));
        } else {
            lemma_source(list, path, i + 1);
        }
    }
}

proof fn lemma_at(list: Seq<(Seq<char>, Seq<char>)>, path: Seq<char>, i: int, k: int)
    requires
        first_entry(list, path, k),
        0 <= i <= k,
    ensures
        source_from(list, path, i) == Some(list[k].1),
    decreases k - i,
{
    if i < k {
        lemma_at(list, path, i + 1, k);
    }
}

proof fn lemma_with(list: Seq<(Seq<char>, Seq<char>)>, path: Seq<char>, source: Seq<char>, i: int)
    requires
        0 <= i <= list.len(),
        forall|j: int| 0 <= j < i ==> (#[trigger] list[j]).0 != path,
    ensures
        exists|k: int|
            #[trigger] first_entry(with_source_from(list, path, source, i), path, k) && with_source_from(
                list,
                path,
                source,
                i,
            )[k].1 == source && k <= list.len() && with_source_from(list, path, source, i) == if k < list.len() {
                list.update(k, (path, source))
            } else {
                list.push((path, source))
            } && (k < list.len() ==> list[k].0 == path),
    decreases list.len() - i,
{
    let after = with_source_from(list, path, source, i);
    if i >= list.len() || list[i].0 == path {
        assert(first_entry(after, path, i));
    } else {
        lemma_with(list, path, source, i + 1);
        assert(after == with_source_from(list, path, source, i + 1));
    }
}

/// A text that is put under a path is found under it, and every other path keeps
/// its text.
pub proof fn texts_are_found_under_their_path(
    list: Seq<(Seq<char>, Seq<char>)>,
    path: Seq<char>,
    source: Seq<char>,
    other: Seq<char>,
)
    ensures
        source_at(with_source(list, path, source), path) == Some(source),
        other != path ==> source_at(with_source(list, path, source), other) == source_at(list, other),
{
    lemma_with(list, path, source, 0);
    let after = with_source(list, path, source);
    let k = choose|k: int|
        #[trigger] first_entry(after, path, k) && after[k].1 == source && k <= list.len() && after == if k < list.len() {
            list.update(k, (path, source))
        } else {
            list.push((path, source))
        } && (k < list.len() ==> list[k].0 == path);
    lemma_at(after, path, 0, k);
    if other != path {
        lemma_source(list, other, 0);
        lemma_source(after, other, 0);
        if let Some(text) = source_at(list, other) {
            let m = choose|m: int| #[trigger] first_entry(list, other, m) && list[m].1 == text;
            assert(after[m] == list[m]);
            assert(first_entry(after, other, m)) by {
                assert forall|j: int| 0 <= j < m implies (#[trigger] after[j]).0 != other by {
                    assert(list[j].0 != other);
                }
            }
            lemma_at(after, other, 0, m);
        } else if source_at(after, other) is Some {
            let m = choose|m: int| #[trigger] first_entry(after, other, m) && after[m].1 == source_at(after, other)->0;
            if m < list.len() {
                assert(list[m].0 != other);
            }
        }
    }
}

/// A path that is forgotten has no text, and every other path keeps its own.
pub proof fn forgotten_paths_have_no_text(list: Seq<(Seq<char>, Seq<char>)>, path: Seq<char>, n: int)
    requires
        0 <= n <= list.len(),
    ensures
        forall|entry: (Seq<char>, Seq<char>)| #[trigger]
            without_source(list, path, n).contains(entry) <==> entry.0 != path && list.take(n).contains(entry),
    decreases n,
{
    let after = without_source(list, path, n);
    if n > 0 {
        forgotten_paths_have_no_text(list, path, n - 1);
        let before = without_source(list, path, n - 1);
        let fewer = list.take(n - 1);
        let all = list.take(n);
        assert forall|entry: (Seq<char>, Seq<char>)| #[trigger] after.contains(entry) <==> entry.0 != path
            && list.take(n).contains(entry) by {
            assert(before.contains(entry) <==> entry.0 != path && list.take(n - 1).contains(entry));
            if after.contains(entry) {
                let k = choose|k: int| 0 <= k < after.len() && after[k] == entry;
                if k < before.len() {
                    assert(before[k] == entry);
                    let m = choose|m: int| 0 <= m < fewer.len() && fewer[m] == entry;
                    assert(all[m] == entry);
                } else {
                    assert(all[n - 1] == entry);
                }
            }
            if entry.0 != path && list.take(n).contains(entry) {
                let m = choose|m: int| 0 <= m < all.len() && all[m] == entry;
                if m < n - 1 {
                    assert(fewer[m] == entry);
                    let k = choose|k: int| 0 <= k < before.len() && before[k] == entry;
                    assert(after[k] == entry);
                } else {
                    assert(after[before.len() as int] == entry);
                }
            }
        }
    } else {
        assert forall|entry: (Seq<char>, Seq<char>)| !(#[trigger] after.contains(entry)) && !list.take(n).contains(entry) by {}
    }
}

// ---------------------------------------------------------------------------
// Rounds of edits by path
// ---------------------------------------------------------------------------

proof fn lemma_rounds(list: AppliedModels, path: Seq<char>, round: Seq<EditModel>, other: Seq<char>, i: int)
    requires
        0 <= i <= list.len(),
        forall|j: int| 0 <= j < i ==> (#[trigger] list[j]).0 != path,
    ensures
        rounds_from(with_round(list, path, round, i), path, i) == rounds_from(list, path, i).push(round),
        other != path ==> forall|k: int|
            0 <= k <= i ==> #[trigger] rounds_from(with_round(list, path, round, i), other, k) == rounds_from(list, other, k),
        forall|j: int| 0 <= j < i ==> (#[trigger] with_round(list, path, round, i)[j]) == list[j],
        with_round(list, path, round, i).len() >= list.len(),
    decreases list.len() - i,
{
    let after = with_round(list, path, round, i);
    if i >= list.len() {
        assert(after[i] == (path, seq![round]));
        assert(rounds_from(list, path, i) =~= seq![]);
        assert(Seq::<Seq<EditModel>>::empty().push(round) =~= seq![round]);
    } else if list[i].0 == path {
        assert(after[i] == (path, list[i].1.push(round)));
    } else {
        lemma_rounds(list, path, round, other, i + 1);
        assert(after == with_round(list, path, round, i + 1));
        assert(after[i] == list[i]);
    }
    if other != path {
        assert forall|k: int| 0 <= k <= i implies #[trigger] rounds_from(after, other, k) == rounds_from(list, other, k) by {
            lemma_other_rounds(list, path, round, after, other, i, k);
        }
    }
}

proof fn lemma_other_rounds(
    list: AppliedModels,
    path: Seq<char>,
    round: Seq<EditModel>,
    after: AppliedModels,
    other: Seq<char>,
    i: int,
    k: int,
)
    requires
        0 <= k,
        0 <= i <= list.len(),
        after == with_round(list, path, round, i),
        other != path,
    ensures
        rounds_from(after, other, k) == rounds_from(list, other, k),
    decreases list.len() + 1 - k,
{
    lemma_round_shape(list, path, round, i);
    if k < list.len() {
        lemma_other_rounds(list, path, round, after, other, i, k + 1);
    } else if k < after.len() {
        assert(after[k].0 == path);
        assert(rounds_from(after, other, k) == rounds_from(after, other, k + 1));
    }
}

proof fn lemma_round_shape(list: AppliedModels, path: Seq<char>, round: Seq<EditModel>, i: int)
    requires
        0 <= i <= list.len(),
    ensures
        ({
            let after = with_round(list, path, round, i);
            &&& list.len() <= after.len() <= list.len() + 1
            &&& forall|j: int| 0 <= j < list.len() ==> (#[trigger] after[j]).0 == list[j].0 && (list[j].0 != path
                ==> after[j] == list[j])
            &&& after.len() > list.len() ==> after[list.len() as int].0 == path
        }),
    decreases list.len() - i,
{
    if i < list.len() && list[i].0 != path {
        lemma_round_shape(list, path, round, i + 1);
    }
}

/// A round of edits comes behind the rounds of its path, and the rounds of every
/// other path stay.
pub proof fn rounds_come_behind_those_of_their_path(
    list: AppliedModels,
    path: Seq<char>,
    round: Seq<EditModel>,
    other: Seq<char>,
)
    ensures
        rounds_from(with_round(list, path, round, 0), path, 0) == rounds_from(list, path, 0).push(round),
        other != path ==> rounds_from(with_round(list, path, round, 0), other, 0) == rounds_from(list, other, 0),
{
    lemma_rounds(list, path, round, other, 0);
}

// ---------------------------------------------------------------------------
// Theme tokens
// ---------------------------------------------------------------------------

/// The value is that of the last of the first `n` tokens with the name.
pub open spec fn is_last_value(tokens: Seq<(Seq<char>, Seq<char>)>, n: int, name: Seq<char>, value: Seq<char>) -> bool {
    exists|i: int|
        0 <= i < n && #[trigger] tokens[i] == (name, value) && forall|j: int| i < j < n ==> (#[trigger] tokens[j]).0 != name
}

proof fn lemma_placed(list: Seq<(Seq<char>, Seq<char>)>, item: (Seq<char>, Seq<char>))
    ensures
        ({
            let after = placed(list, item, by_token());
            exists|k: int| 0 <= k <= list.len() && #[trigger] after.remove(k) == list && after.len() == list.len() + 1
                && after[k] == item
        }),
    decreases list.len(),
{
    let after = placed(list, item, by_token());
    if list.len() == 0 || !by_token()(item, list.last()) {
        let k = list.len() as int;
        assert(after.remove(k) =~= list);
    } else {
        let shorter = list.drop_last();
        lemma_placed(shorter, item);
        let inner = placed(shorter, item, by_token());
        let k = choose|k: int|
            0 <= k <= shorter.len() && #[trigger] inner.remove(k) == shorter && inner.len() == shorter.len() + 1
                && inner[k] == item;
        assert(after.remove(k) =~= inner.remove(k).push(list.last()));
        assert(shorter.push(list.last()) =~= list);
        assert(after[k] == item);
    }
}

/// The last value of a theme token counts, whatever else the theme defines.
pub proof fn the_last_value_of_a_token_counts(tokens: Seq<(Seq<char>, Seq<char>)>, n: int, name: Seq<char>)
    requires
        0 <= n <= tokens.len(),
    ensures
        match source_at(token_table(tokens, n), name) {
            Some(value) => is_last_value(tokens, n, name, value),
            None => forall|i: int| 0 <= i < n ==> (#[trigger] tokens[i]).0 != name,
        },
    decreases n,
{
    if n > 0 {
        the_last_value_of_a_token_counts(tokens, n - 1, name);
        let before = token_table(tokens, n - 1);
        let after = token_table(tokens, n);
        let token = tokens[n - 1];
        if source_at(before, token.0) is Some {
            texts_are_found_under_their_path(before, token.0, token.1, name);
        } else {
            lemma_placed(before, token);
            let k = choose|k: int|
                0 <= k <= before.len() && #[trigger] after.remove(k) == before && after.len() == before.len() + 1
                    && after[k] == token;
            lemma_source(before, token.0, 0);
            lemma_inserted(before, after, k, token, name);
        }
        if token.0 == name {
            assert(tokens[n - 1] == (name, token.1));
            assert(is_last_value(tokens, n, name, token.1));
        } else if let Some(value) = source_at(before, name) {
            let i = choose|i: int|
                0 <= i < n - 1 && #[trigger] tokens[i] == (name, value) && forall|j: int|
                    i < j < n - 1 ==> (#[trigger] tokens[j]).0 != name;
            assert(tokens[i] == (name, value));
            assert(is_last_value(tokens, n, name, value));
        }
    }
}

proof fn lemma_inserted(
    before: Seq<(Seq<char>, Seq<char>)>,
    after: Seq<(Seq<char>, Seq<char>)>,
    k: int,
    token: (Seq<char>, Seq<char>),
    name: Seq<char>,
)
    requires
        0 <= k <= before.len(),
        after.len() == before.len() + 1,
        after.remove(k) == before,
        after[k] == token,
        forall|j: int| 0 <= j < before.len() ==> (#[trigger] before[j]).0 != token.0,
    ensures
        name == token.0 ==> source_at(after, name) == Some(token.1),
        name != token.0 ==> source_at(after, name) == source_at(before, name),
{
    assert forall|j: int| 0 <= j < k implies #[trigger] after[j] == before[j] by {
        assert(after.remove(k)[j] == after[j]);
    }
    assert forall|j: int| k < j < after.len() implies #[trigger] after[j] == before[j - 1] by {
        assert(after.remove(k)[j - 1] == after[j]);
    }
    if name == token.0 {
        assert(first_entry(after, name, k));
        lemma_at(after, name, 0, k);
    } else {
        lemma_source(before, name, 0);
        lemma_source(after, name, 0);
        if let Some(text) = source_at(before, name) {
            let m = choose|m: int| #[trigger] first_entry(before, name, m) && before[m].1 == text;
            let p = if m < k {
                m
            } else {
                m + 1
            };
            assert(after[p] == before[m]);
            assert forall|j: int| 0 <= j < p implies (#[trigger] after[j]).0 != name by {
                if j < k {
                    assert(before[j].0 != name);
                } else if j > k {
                    assert(before[j - 1].0 != name);
                }
            }
            assert(first_entry(after, name, p));
            lemma_at(after, name, 0, p);
        } else if source_at(after, name) is Some {
            let m = choose|m: int| #[trigger] first_entry(after, name, m) && after[m].1 == source_at(after, name)->0;
            if m < k {
                assert(before[m].0 != name);
            } else if m > k {
                assert(before[m - 1].0 != name);
            }
        }
    }
}

} // verus!
