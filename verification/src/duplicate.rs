//! Values that can be copied.
use crate::edit::{rounds, Edit};
use crate::text::views;
use vstd::prelude::*;

verus! {

/// A value with copies that have the same model.
pub trait Duplicate: View + Sized {
    /// A copy.
    fn duplicate(&self) -> (result: Self)
        ensures
            result@ == self@,
    ;
}

/// Copies of the values of a list.
pub fn duplicate_all<T: Duplicate>(list: &Vec<T>) -> (result: Vec<T>)
    ensures
        views(result@) == views(list@),
        result@.len() == list@.len(),
{
    let mut result: Vec<T> = Vec::new();
    let mut i: usize = 0;
    while i < list.len()
        invariant
            i <= list@.len(),
            views(result@) == views(list@).take(i as int),
            result@.len() == i,
        decreases list.len() - i,
    {
        let ghost before = result@;
        result.push(list[i].duplicate());
        assert(views(result@) =~= views(before).push(list@[i as int]@));
        i += 1;
        assert(views(result@) =~= views(list@).take(i as int));
    }
    assert(views(list@).take(i as int) =~= views(list@));
    result
}

/// A copy of a value that may be missing.
pub fn duplicate_maybe<T: Duplicate>(value: &Option<T>) -> (result: Option<T>)
    ensures
        crate::text::maybe_view(result) == crate::text::maybe_view(*value),
{
    match value {
        Some(value) => Some(value.duplicate()),
        None => None,
    }
}

/// Appends copies of the values of a list.
pub fn append_copies<T: Duplicate>(list: &mut Vec<T>, more: &Vec<T>)
    ensures
        views(final(list)@) == views(old(list)@) + views(more@),
{
    let ghost start = views(list@);
    let mut i: usize = 0;
    assert(start + views(more@).take(0) =~= start);
    while i < more.len()
        invariant
            i <= more@.len(),
            views(list@) == start + views(more@).take(i as int),
        decreases more.len() - i,
    {
        let ghost before = list@;
        list.push(more[i].duplicate());
        assert(views(list@) =~= views(before).push(more@[i as int]@));
        i += 1;
        assert(views(list@) =~= start + views(more@).take(i as int));
    }
    assert(views(more@).take(i as int) =~= views(more@));
}

impl Duplicate for Edit {
    fn duplicate(&self) -> (result: Self) {
        self.copy()
    }
}

/// Copies of rounds of edits.
pub fn duplicate_rounds(list: &Vec<Vec<Edit>>) -> (result: Vec<Vec<Edit>>)
    ensures
        rounds(result@) == rounds(list@),
        result@.len() == list@.len(),
{
    let mut result: Vec<Vec<Edit>> = Vec::new();
    let mut i: usize = 0;
    while i < list.len()
        invariant
            i <= list@.len(),
            result@.len() == i,
            rounds(result@) == rounds(list@).take(i as int),
        decreases list.len() - i,
    {
        let ghost before = result@;
        result.push(duplicate_all(&list[i]));
        assert(rounds(result@) =~= rounds(before).push(views(list@[i as int]@)));
        i += 1;
        assert(rounds(result@) =~= rounds(list@).take(i as int));
    }
    assert(rounds(list@).take(i as int) =~= rounds(list@));
    result
}

} // verus!
