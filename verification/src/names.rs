//! Sorted sets of texts, and references counted by name.
use crate::text::{is_before, lemma_precedes_total, precedes, same, texts};
use vstd::prelude::*;

verus! {

/// The texts stand in strictly ascending order.
pub open spec fn ascending(list: Seq<Seq<char>>) -> bool {
    forall|i: int, j: int| 0 <= i < j < list.len() ==> precedes(#[trigger] list[i], #[trigger] list[j])
}

/// `list` (in ascending order) with `text` in its place.
pub open spec fn with_name(list: Seq<Seq<char>>, text: Seq<char>) -> Seq<Seq<char>>
    decreases list.len(),
{
    if list.len() == 0 || precedes(list.last(), text) {
        list.push(text)
    } else if list.last() == text {
        list
    } else {
        with_name(list.drop_last(), text).push(list.last())
    }
}

/// `list` (in ascending order) with every text of `more` in its place.
pub open spec fn with_names(list: Seq<Seq<char>>, more: Seq<Seq<char>>) -> Seq<Seq<char>>
    decreases more.len(),
{
    if more.len() == 0 {
        list
    } else {
        with_name(with_names(list, more.drop_last()), more.last())
    }
}

pub proof fn lemma_precedes_transitive(a: Seq<char>, b: Seq<char>, c: Seq<char>, i: int)
    requires
        0 <= i <= a.len(),
        i <= b.len(),
        i <= c.len(),
        crate::text::precedes_from(a, b, i),
        crate::text::precedes_from(b, c, i),
    ensures
        crate::text::precedes_from(a, c, i),
    decreases a.len() - i,
{
    if i < a.len() && i < b.len() && i < c.len() && a[i] == b[i] && b[i] == c[i] {
        lemma_precedes_transitive(a, b, c, i + 1);
    }
}

/// A text that is put in its place leaves the order ascending, is a member
/// afterwards, and is the only member that may be new.
pub proof fn naming_keeps_the_order(list: Seq<Seq<char>>, text: Seq<char>)
    requires
        ascending(list),
    ensures
        ascending(with_name(list, text)),
        forall|x: Seq<char>| #[trigger] with_name(list, text).contains(x) <==> (x == text || list.contains(x)),
    decreases list.len(),
{
    let result = with_name(list, text);
    if list.len() == 0 || precedes(list.last(), text) {
        assert forall|i: int, j: int| 0 <= i < j < result.len() implies precedes(
            #[trigger] result[i],
            #[trigger] result[j],
        ) by {
            if j == list.len() && i < list.len() - 1 {
                lemma_precedes_transitive(list[i], list.last(), text, 0);
            }
        }
        assert forall|x: Seq<char>| #[trigger] result.contains(x) <==> (x == text || list.contains(x)) by {
            if x == text {
                assert(result[list.len() as int] == x);
            }
            if list.contains(x) {
                let k = choose|k: int| 0 <= k < list.len() && list[k] == x;
                assert(result[k] == x);
            }
        }
    } else if list.last() == text {
        assert(list.contains(list.last()));
    } else {
        let shorter = list.drop_last();
        naming_keeps_the_order(shorter, text);
        let inner = with_name(shorter, text);
        assert(list.last().take(0) =~= text.take(0));
        lemma_precedes_total(list.last(), text, 0);
        assert forall|i: int, j: int| 0 <= i < j < result.len() implies precedes(
            #[trigger] result[i],
            #[trigger] result[j],
        ) by {
            if j == inner.len() {
                assert(inner.contains(inner[i]));
                if inner[i] != text {
                    let k = choose|k: int| 0 <= k < shorter.len() && shorter[k] == inner[i];
                    assert(list[k] == inner[i]);
                    assert(precedes(list[k], list[list.len() - 1]));
                }
            }
        }
        assert forall|x: Seq<char>| #[trigger] result.contains(x) <==> (x == text || list.contains(x)) by {
            assert(inner.contains(x) <==> (x == text || shorter.contains(x)));
            if result.contains(x) {
                let k = choose|k: int| 0 <= k < result.len() && result[k] == x;
                if k < inner.len() {
                    assert(inner[k] == x);
                    if shorter.contains(x) {
                        let m = choose|m: int| 0 <= m < shorter.len() && shorter[m] == x;
                        assert(list[m] == x);
                    }
                }
            }
            if x == text || list.contains(x) {
                if list.contains(x) && x != list.last() {
                    let m = choose|m: int| 0 <= m < list.len() && list[m] == x;
                    assert(shorter[m] == x);
                }
                if inner.contains(x) {
                    let k = choose|k: int| 0 <= k < inner.len() && inner[k] == x;
                    assert(result[k] == x);
                } else {
                    assert(result[inner.len() as int] == x);
                }
            }
        }
    }
}

/// Where the search from the end for the place of `text` stops.
proof fn lemma_place(list: Seq<Seq<char>>, text: Seq<char>, k: int)
    requires
        0 <= k <= list.len(),
        forall|j: int| k <= j < list.len() ==> !precedes(#[trigger] list[j], text) && list[j] != text,
        k > 0 ==> precedes(list[k - 1], text) || list[k - 1] == text,
    ensures
        with_name(list, text) == if k > 0 && list[k - 1] == text && !precedes(text, text) {
            list
        } else {
            list.insert(k, text)
        },
    decreases list.len(),
{
    lemma_precedes_total(text, text, 0);
    if k == list.len() {
        if !(k > 0 && list[k - 1] == text) {
            assert(list.insert(k, text) =~= list.push(text));
        }
    } else {
        let shorter = list.drop_last();
        lemma_place(shorter, text, k);
        if k > 0 && list[k - 1] == text {
            assert(shorter.push(list.last()) =~= list);
        } else {
            assert(shorter.insert(k, text).push(list.last()) =~= list.insert(k, text));
        }
    }
}

/// Puts a text in its place in a list in ascending order.
pub fn insert_name(list: &mut Vec<String>, text: &str)
    ensures
        texts(final(list)@) == with_name(texts(old(list)@), text@),
{
    let mut k: usize = list.len();
    while k > 0 && !is_before(list[k - 1].as_str(), text) && !same(list[k - 1].as_str(), text)
        invariant
            k <= list@.len(),
            list@ == old(list)@,
            forall|j: int|
                k <= j < list@.len() ==> !precedes(#[trigger] texts(list@)[j], text@) && texts(list@)[j] != text@,
        decreases k,
    {
        k -= 1;
    }
    proof {
        lemma_place(texts(list@), text@, k as int);
        lemma_precedes_total(text@, text@, 0);
    }
    if k == 0 || !same(list[k - 1].as_str(), text) {
        let ghost before = list@;
        list.insert(k, text.to_owned());
        assert(texts(list@) =~= texts(before).insert(k as int, text@));
    }
}

/// Puts every text of `more` in its place.
pub fn insert_names(list: &mut Vec<String>, more: &Vec<String>)
    ensures
        texts(final(list)@) == with_names(texts(old(list)@), texts(more@)),
{
    let mut i: usize = 0;
    while i < more.len()
        invariant
            i <= more@.len(),
            texts(list@) == with_names(texts(old(list)@), texts(more@).take(i as int)),
        decreases more.len() - i,
    {
        assert(texts(more@).take(i + 1).drop_last() =~= texts(more@).take(i as int));
        insert_name(list, more[i].as_str());
        i += 1;
    }
    assert(texts(more@).take(i as int) =~= texts(more@));
}

/// How often a text occurs in a list.
pub open spec fn occurrences_of(list: Seq<Seq<char>>, text: Seq<char>) -> nat
    decreases list.len(),
{
    if list.len() == 0 {
        0
    } else {
        occurrences_of(list.drop_last(), text) + if list.last() == text {
            1nat
        } else {
            0nat
        }
    }
}

/// References counted by name: every reference in the order it was met.
pub struct References {
    pub names: Vec<String>,
}

impl View for References {
    type V = Seq<Seq<char>>;

    open spec fn view(&self) -> Seq<Seq<char>> {
        texts(self.names@)
    }
}

impl References {
    /// No reference at all.
    pub fn new() -> (result: References)
        ensures
            result@ == Seq::<Seq<char>>::empty(),
    {
        let result = References { names: Vec::new() };
        assert(result@ =~= Seq::<Seq<char>>::empty());
        result
    }

    /// Counts one more reference to a name.
    pub fn record(&mut self, name: &str)
        ensures
            final(self)@ == old(self)@.push(name@),
    {
        let ghost before = self.names@;
        self.names.push(name.to_owned());
        assert(self@ =~= texts(before).push(name@));
    }

    /// How often a name is referred to, if at all.
    pub fn get(&self, name: &str) -> (result: Option<usize>)
        ensures
            match result {
                Some(count) => count > 0 && count == occurrences_of(self@, name@),
                None => occurrences_of(self@, name@) == 0,
            },
    {
        let count = self.count(name);
        if count > 0 {
            Some(count)
        } else {
            None
        }
    }

    /// How often a name is referred to.
    pub fn count(&self, name: &str) -> (result: usize)
        ensures
            result == occurrences_of(self@, name@),
    {
        let mut count: usize = 0;
        let mut i: usize = 0;
        while i < self.names.len()
            invariant
                count <= i <= self.names@.len(),
                count == occurrences_of(self@.take(i as int), name@),
            decreases self.names.len() - i,
        {
            assert(self@.take(i + 1).drop_last() =~= self@.take(i as int));
            if same(self.names[i].as_str(), name) {
                count += 1;
            }
            i += 1;
        }
        assert(self@.take(i as int) =~= self@);
        count
    }

    /// Whether nothing is referred to.
    pub fn is_empty(&self) -> (result: bool)
        ensures
            result == (self@.len() == 0),
    {
        self.names.len() == 0
    }

    /// Counts every reference of `more` as well.
    pub fn extend(&mut self, more: &References)
        ensures
            final(self)@ == old(self)@ + more@,
    {
        let mut i: usize = 0;
        assert(old(self)@ + more@.take(0) =~= old(self)@);
        while i < more.names.len()
            invariant
                i <= more.names@.len(),
                self@ == old(self)@ + more@.take(i as int),
            decreases more.names.len() - i,
        {
            self.record(more.names[i].as_str());
            assert(self@ =~= old(self)@ + more@.take(i + 1));
            i += 1;
        }
        assert(more@.take(i as int) =~= more@);
    }
}

/// Counting over two lists adds up.
pub proof fn merged_counts_add_up(a: Seq<Seq<char>>, b: Seq<Seq<char>>, name: Seq<char>)
    ensures
        occurrences_of(a + b, name) == occurrences_of(a, name) + occurrences_of(b, name),
    decreases b.len(),
{
    if b.len() == 0 {
        assert(a + b =~= a);
    } else {
        assert((a + b).drop_last() =~= a + b.drop_last());
        merged_counts_add_up(a, b.drop_last(), name);
    }
}

} // verus!
