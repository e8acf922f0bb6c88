//! Texts and edits by path.
use crate::duplicate::duplicate_rounds;
use crate::edit::{rounds, Edit, EditModel};
use crate::number::pairs_of;
use crate::planner::{applied_models, AppliedEdits, AppliedModels};
use crate::text::{copy, same};
use vstd::prelude::*;

verus! {

/// The text of a path from entry `i` on.
pub open spec fn source_from(list: Seq<(Seq<char>, Seq<char>)>, path: Seq<char>, i: int) -> Option<Seq<char>>
    decreases list.len() - i,
{
    if i < 0 || i >= list.len() {
        None
    } else if list[i].0 == path {
        Some(list[i].1)
    } else {
        source_from(list, path, i + 1)
    }
}

/// The text of a path.
pub open spec fn source_at(list: Seq<(Seq<char>, Seq<char>)>, path: Seq<char>) -> Option<Seq<char>> {
    source_from(list, path, 0)
}

/// The table with a text for a path, from entry `i` on.
pub open spec fn with_source_from(
    list: Seq<(Seq<char>, Seq<char>)>,
    path: Seq<char>,
    source: Seq<char>,
    i: int,
) -> Seq<(Seq<char>, Seq<char>)>
    decreases list.len() - i,
{
    if i < 0 || i >= list.len() {
        list.push((path, source))
    } else if list[i].0 == path {
        list.update(i, (path, source))
    } else {
        with_source_from(list, path, source, i + 1)
    }
}

/// The table with a text for a path.
pub open spec fn with_source(list: Seq<(Seq<char>, Seq<char>)>, path: Seq<char>, source: Seq<char>) -> Seq<
    (Seq<char>, Seq<char>),
> {
    with_source_from(list, path, source, 0)
}

/// The first `n` entries without a path.
pub open spec fn without_source(list: Seq<(Seq<char>, Seq<char>)>, path: Seq<char>, n: int) -> Seq<
    (Seq<char>, Seq<char>),
>
    decreases n,
{
    if n <= 0 {
        seq![]
    } else if list[n - 1].0 == path {
        without_source(list, path, n - 1)
    } else {
        without_source(list, path, n - 1).push(list[n - 1])
    }
}

/// The text of a path.
pub fn find_source<'a>(list: &'a Vec<(String, String)>, path: &str) -> (result: Option<&'a String>)
    ensures
        match source_at(pairs_of(list@), path@) {
            Some(source) => result matches Some(text) && text@ == source,
            None => result is None,
        },
{
    let mut i: usize = 0;
    while i < list.len()
        invariant
            i <= list@.len(),
            source_from(pairs_of(list@), path@, i as int) == source_from(pairs_of(list@), path@, 0),
        decreases list.len() - i,
    {
        let entry = &list[i];
        assert(pairs_of(list@)[i as int] == (entry.0@, entry.1@));
        if same(entry.0.as_str(), path) {
            return Some(&entry.1);
        }
        i += 1;
    }
    None
}

/// Gives a path a text.
pub fn put_source(list: &mut Vec<(String, String)>, path: &str, source: &str)
    ensures
        pairs_of(final(list)@) == with_source(pairs_of(old(list)@), path@, source@),
{
    let ghost start = pairs_of(list@);
    let mut i: usize = 0;
    while i < list.len()
        invariant
            i <= list@.len(),
            pairs_of(list@) == start,
            start == pairs_of(old(list)@),
            with_source_from(start, path@, source@, i as int) == with_source_from(start, path@, source@, 0),
        decreases list.len() - i,
    {
        assert(start[i as int] == (list@[i as int].0@, list@[i as int].1@));
        if same(list[i].0.as_str(), path) {
            list[i].1 = copy(source);
            assert(pairs_of(list@) =~= start.update(i as int, (path@, source@)));
            return;
        }
        i += 1;
    }
    list.push((copy(path), copy(source)));
    assert(pairs_of(list@) =~= start.push((path@, source@)));
}

/// Forgets a path.
pub fn drop_source(list: &mut Vec<(String, String)>, path: &str)
    ensures
        pairs_of(final(list)@) == without_source(pairs_of(old(list)@), path@, old(list)@.len() as int),
{
    let ghost start = pairs_of(list@);
    let mut kept: Vec<(String, String)> = Vec::new();
    assert(pairs_of(kept@) =~= Seq::empty());
    let mut n: usize = 0;
    while n < list.len()
        invariant
            n <= list@.len(),
            list@ == old(list)@,
            start == pairs_of(list@),
            pairs_of(kept@) == without_source(start, path@, n as int),
        decreases list.len() - n,
    {
        assert(start[n as int] == (list@[n as int].0@, list@[n as int].1@));
        if !same(list[n].0.as_str(), path) {
            let ghost before = kept@;
            kept.push((copy(list[n].0.as_str()), copy(list[n].1.as_str())));
            assert(pairs_of(kept@) =~= pairs_of(before).push(start[n as int]));
        }
        n += 1;
    }
    *list = kept;
}

// ---------------------------------------------------------------------------
// What the table says
// ---------------------------------------------------------------------------

/// No path has two entries.
pub open spec fn one_each(list: Seq<(Seq<char>, Seq<char>)>) -> bool {
    forall|i: int, j: int| 0 <= i < j < list.len() ==> (#[trigger] list[i]).0 != (#[trigger] list[j]).0
}

/// Some entry is for the path.
pub open spec fn lists(list: Seq<(Seq<char>, Seq<char>)>, path: Seq<char>) -> bool {
    exists|i: int| 0 <= i < list.len() && (#[trigger] list[i]).0 == path
}

proof fn lemma_with_source_from(list: Seq<(Seq<char>, Seq<char>)>, path: Seq<char>, source: Seq<char>, i: int)
    requires
        0 <= i <= list.len(),
        one_each(list),
        forall|j: int| 0 <= j < i ==> (#[trigger] list[j]).0 != path,
    ensures
        one_each(with_source_from(list, path, source, i)),
        forall|other: Seq<char>|
            #[trigger] lists(with_source_from(list, path, source, i), other) <==> other == path || lists(
                list,
                other,
            ),
    decreases list.len() - i,
{
    let result = with_source_from(list, path, source, i);
    if i >= list.len() || list[i].0 == path {
        assert forall|other: Seq<char>| lists(result, other) <==> other == path || lists(list, other) by {
            if lists(result, other) {
                let k = choose|k: int| 0 <= k < result.len() && (#[trigger] result[k]).0 == other;
                if k < list.len() && k != i {
                    assert(list[k].0 == other);
                }
            }
            if other == path {
                assert(result[i].0 == path);
            }
            if lists(list, other) {
                let k = choose|k: int| 0 <= k < list.len() && (#[trigger] list[k]).0 == other;
                assert(result[k].0 == other);
            }
        }
    } else {
        lemma_with_source_from(list, path, source, i + 1);
    }
}

/// A table keeps one entry for each path, and a path that is given a text is
/// the only one that may be new.
pub proof fn lemma_with_source(list: Seq<(Seq<char>, Seq<char>)>, path: Seq<char>, source: Seq<char>)
    requires
        one_each(list),
    ensures
        one_each(with_source(list, path, source)),
        forall|other: Seq<char>|
            #[trigger] lists(with_source(list, path, source), other) <==> other == path || lists(list, other),
{
    lemma_with_source_from(list, path, source, 0);
    assert forall|other: Seq<char>|
        #[trigger] lists(with_source(list, path, source), other) <==> other == path || lists(list, other) by {
        assert(lists(with_source_from(list, path, source, 0), other) <==> other == path || lists(list, other));
    }
}

/// A path that is forgotten is the only one that goes.
pub proof fn lemma_without_source(list: Seq<(Seq<char>, Seq<char>)>, path: Seq<char>, n: int)
    requires
        0 <= n <= list.len(),
        one_each(list),
    ensures
        one_each(without_source(list, path, n)),
        !lists(without_source(list, path, n), path),
        forall|other: Seq<char>|
            #[trigger] lists(without_source(list, path, n), other) ==> exists|i: int|
                0 <= i < n && (#[trigger] list[i]).0 == other,
    decreases n,
{
    if n > 0 {
        let before = without_source(list, path, n - 1);
        let result = without_source(list, path, n);
        lemma_without_source(list, path, n - 1);
        assert forall|i: int, j: int| 0 <= i < j < result.len() implies (#[trigger] result[i]).0 != (
        #[trigger] result[j]).0 by {
            if j >= before.len() {
                assert(lists(before, result[i].0)) by {
                    assert(before[i].0 == result[i].0);
                }
            } else {
                assert(before[i] == result[i] && before[j] == result[j]);
            }
        }
        assert forall|other: Seq<char>| lists(result, other) implies exists|i: int|
            0 <= i < n && (#[trigger] list[i]).0 == other by {
            let k = choose|k: int| 0 <= k < result.len() && (#[trigger] result[k]).0 == other;
            if k < before.len() {
                assert(before[k].0 == other);
                assert(lists(before, other));
            } else {
                assert(list[n - 1].0 == other);
            }
        }
        if lists(result, path) {
            let k = choose|k: int| 0 <= k < result.len() && (#[trigger] result[k]).0 == path;
            if k < before.len() {
                assert(before[k].0 == path);
                assert(lists(before, path));
            }
        }
    }
}

// ---------------------------------------------------------------------------
// Edits
// ---------------------------------------------------------------------------

/// The rounds of a path from entry `i` on.
pub open spec fn rounds_from(list: AppliedModels, path: Seq<char>, i: int) -> Seq<Seq<EditModel>>
    decreases list.len() - i,
{
    if i < 0 || i >= list.len() {
        seq![]
    } else if list[i].0 == path {
        list[i].1
    } else {
        rounds_from(list, path, i + 1)
    }
}

/// The rounds of a path.
pub fn find_rounds(list: &AppliedEdits, path: &str) -> (result: Vec<Vec<Edit>>)
    ensures
        rounds(result@) == rounds_from(applied_models(list@), path@, 0),
{
    let mut i: usize = 0;
    while i < list.len()
        invariant
            i <= list@.len(),
            rounds_from(applied_models(list@), path@, i as int) == rounds_from(applied_models(list@), path@, 0),
        decreases list.len() - i,
    {
        let entry = &list[i];
        assert(applied_models(list@)[i as int] == (entry.0@, rounds(entry.1@)));
        if same(entry.0.as_str(), path) {
            return duplicate_rounds(&entry.1);
        }
        i += 1;
    }
    let none: Vec<Vec<Edit>> = Vec::new();
    assert(rounds(none@) =~= Seq::empty());
    none
}

/// The edits with more rounds for a path, from entry `i` on.
pub open spec fn with_rounds(list: AppliedModels, path: Seq<char>, more: Seq<Seq<EditModel>>, i: int) -> AppliedModels
    decreases list.len() - i,
{
    if i < 0 || i >= list.len() {
        list.push((path, more))
    } else if list[i].0 == path {
        list.update(i, (path, list[i].1 + more))
    } else {
        with_rounds(list, path, more, i + 1)
    }
}

/// Adds rounds for a path.
pub fn add_rounds(list: &mut AppliedEdits, path: &str, more: &Vec<Vec<Edit>>)
    ensures
        applied_models(final(list)@) == with_rounds(applied_models(old(list)@), path@, rounds(more@), 0),
{
    let ghost start = applied_models(list@);
    let mut i: usize = 0;
    while i < list.len()
        invariant
            i <= list@.len(),
            applied_models(list@) == start,
            start == applied_models(old(list)@),
            with_rounds(start, path@, rounds(more@), i as int) == with_rounds(start, path@, rounds(more@), 0),
        decreases list.len() - i,
    {
        assert(start[i as int] == (list@[i as int].0@, rounds(list@[i as int].1@)));
        if same(list[i].0.as_str(), path) {
            let mut known = duplicate_rounds(&list[i].1);
            let mut added = duplicate_rounds(more);
            let ghost before = known@;
            let ghost behind = added@;
            known.append(&mut added);
            assert(rounds(known@) =~= rounds(before) + rounds(behind));
            list[i].1 = known;
            assert(applied_models(list@) =~= start.update(i as int, (path@, start[i as int].1 + rounds(more@))));
            return;
        }
        i += 1;
    }
    list.push((copy(path), duplicate_rounds(more)));
    assert(applied_models(list@) =~= start.push((path@, rounds(more@))));
}

} // verus!
