//! Putting values in their place.
use vstd::prelude::*;

verus! {

/// The list with one more item, before the items at its end that it comes
/// before.
pub open spec fn placed<T>(list: Seq<T>, item: T, before: spec_fn(T, T) -> bool) -> Seq<T>
    decreases list.len(),
{
    if list.len() == 0 || !before(item, list.last()) {
        list.push(item)
    } else {
        placed(list.drop_last(), item, before).push(list.last())
    }
}

/// The first `n` items, each in its place. Items of one rank keep their order.
pub open spec fn all_placed<T>(list: Seq<T>, before: spec_fn(T, T) -> bool, n: int) -> Seq<T>
    decreases n,
{
    if n <= 0 {
        seq![]
    } else {
        placed(all_placed(list, before, n - 1), list[n - 1], before)
    }
}

/// Where the search from the end for the place of an item stops.
pub proof fn lemma_placed<T>(list: Seq<T>, item: T, before: spec_fn(T, T) -> bool, k: int)
    requires
        0 <= k <= list.len(),
        forall|j: int| k <= j < list.len() ==> before(item, #[trigger] list[j]),
        k > 0 ==> !before(item, list[k - 1]),
    ensures
        placed(list, item, before) == list.insert(k, item),
    decreases list.len(),
{
    if k == list.len() {
        assert(list.insert(k, item) =~= list.push(item));
    } else {
        let rest = list.drop_last();
        lemma_placed(rest, item, before, k);
        assert(rest.insert(k, item).push(list.last()) =~= list.insert(k, item));
    }
}

/// An item that is put in its place is a member afterwards, and is the only
/// member that may be new.
pub proof fn lemma_placed_members<T>(list: Seq<T>, item: T, before: spec_fn(T, T) -> bool)
    ensures
        forall|x: T| #[trigger] placed(list, item, before).contains(x) ==> x == item || list.contains(x),
    decreases list.len(),
{
    let result = placed(list, item, before);
    if list.len() > 0 && before(item, list.last()) {
        let rest = list.drop_last();
        lemma_placed_members(rest, item, before);
        assert forall|x: T| #[trigger] result.contains(x) implies x == item || list.contains(x) by {
            let k = choose|k: int| 0 <= k < result.len() && result[k] == x;
            if k == result.len() - 1 {
                assert(list[list.len() - 1] == x);
            } else {
                assert(placed(rest, item, before)[k] == x);
                assert(placed(rest, item, before).contains(x));
                if rest.contains(x) {
                    let m = choose|m: int| 0 <= m < rest.len() && rest[m] == x;
                    assert(list[m] == x);
                }
            }
        }
    } else {
        assert forall|x: T| #[trigger] result.contains(x) implies x == item || list.contains(x) by {
            let k = choose|k: int| 0 <= k < result.len() && result[k] == x;
            if k < list.len() {
                assert(list[k] == x);
            }
        }
    }
}

} // verus!
