//! Source edits: how they are ordered, applied and traced back.
//!
//! Every offset is a byte offset. The model of a source text is its UTF-8
//! encoding, and the model of an edit is the span it replaces together with
//! the encoding of the replacement.
use crate::drift::Drift;
use crate::text::{get_slice, is_slice, lemma_bytes_concat, slice, views};
use vstd::prelude::*;
use vstd::utf8::*;

verus! {

/// Replaces the bytes `start..end` of a source text.
pub struct Edit {
    pub start: usize,
    pub end: usize,
    pub replacement: String,
}

/// The model of an [`Edit`].
pub struct EditModel {
    pub start: int,
    pub end: int,
    pub replacement: Seq<char>,
}

impl View for Edit {
    type V = EditModel;

    open spec fn view(&self) -> EditModel {
        EditModel { start: self.start as int, end: self.end as int, replacement: self.replacement@ }
    }
}

impl EditModel {
    /// The bytes that the edit writes.
    pub open spec fn bytes(self) -> Seq<u8> {
        encode_utf8(self.replacement)
    }

    /// How much longer the text becomes; a span that is out of order removes
    /// nothing.
    pub open spec fn growth(self) -> int {
        self.bytes().len() - if self.start <= self.end {
            self.end - self.start
        } else {
            0
        }
    }

    /// The span is in order and inside a text of `length` bytes.
    pub open spec fn in_range(self, length: int) -> bool {
        0 <= self.start <= self.end <= length
    }
}

impl Edit {
    /// An equal edit.
    pub fn copy(&self) -> (result: Edit)
        ensures
            result == *self,
    {
        Edit { start: self.start, end: self.end, replacement: self.replacement.clone() }
    }

    /// How many bytes the edit takes away.
    fn removed(&self) -> (result: usize)
        ensures
            result == if self.start <= self.end {
                self.end - self.start
            } else {
                0
            },
    {
        if self.start <= self.end {
            self.end - self.start
        } else {
            0
        }
    }

    /// An edit that deletes `start..end`.
    pub fn removal(start: usize, end: usize) -> (result: Edit)
        ensures
            result@ == (EditModel { start: start as int, end: end as int, replacement: Seq::empty() }),
    {
        Edit { start, end, replacement: String::new() }
    }
}

impl Clone for Edit {
    fn clone(&self) -> (result: Self)
        ensures
            result == *self,
    {
        self.copy()
    }
}

/// Whether `a` stands before `b` or shares its span: edits are ordered by
/// start, then by end.
pub open spec fn not_after(a: EditModel, b: EditModel) -> bool {
    a.start < b.start || (a.start == b.start && a.end <= b.end)
}

fn is_not_after(a: &Edit, b: &Edit) -> (result: bool)
    ensures
        result == not_after(a@, b@),
{
    a.start < b.start || (a.start == b.start && a.end <= b.end)
}

/// `edits` in order.
pub open spec fn ordered(edits: Seq<EditModel>) -> bool {
    forall|i: int, j: int| 0 <= i <= j < edits.len() ==> not_after(#[trigger] edits[i], #[trigger] edits[j])
}

/// Puts `edit` behind every edit of `edits` that does not stand after it.
pub open spec fn inserted(edits: Seq<EditModel>, edit: EditModel) -> Seq<EditModel>
    decreases edits.len(),
{
    if edits.len() == 0 || not_after(edits.last(), edit) {
        edits.push(edit)
    } else {
        inserted(edits.drop_last(), edit).push(edits.last())
    }
}

/// `edits` in order of their spans; edits with the same span keep their order.
pub open spec fn sorted(edits: Seq<EditModel>) -> Seq<EditModel>
    decreases edits.len(),
{
    if edits.len() == 0 {
        seq![]
    } else {
        inserted(sorted(edits.drop_last()), edits.last())
    }
}

proof fn lemma_inserted(edits: Seq<EditModel>, edit: EditModel)
    requires
        ordered(edits),
    ensures
        ordered(inserted(edits, edit)),
        inserted(edits, edit).to_multiset() == edits.to_multiset().insert(edit),
        inserted(edits, edit).len() == edits.len() + 1,
        forall|x: EditModel| #[trigger] inserted(edits, edit).contains(x) ==> x == edit || edits.contains(x),
    decreases edits.len(),
{
    broadcast use vstd::seq_lib::group_to_multiset_ensures;

    if edits.len() == 0 || not_after(edits.last(), edit) {
        assert forall|x: EditModel| edits.push(edit).contains(x) implies x == edit || edits.contains(x) by {
            let i = choose|i: int| 0 <= i < edits.push(edit).len() && edits.push(edit)[i] == x;
            if i < edits.len() {
                assert(edits[i] == x);
            }
        }
    } else {
        let rest = edits.drop_last();
        lemma_inserted(rest, edit);
        let before = inserted(rest, edit);
        let after = before.push(edits.last());
        assert(edits =~= rest.push(edits.last()));
        assert(after.to_multiset() =~= edits.to_multiset().insert(edit));
        assert forall|x: EditModel| after.contains(x) implies x == edit || edits.contains(x) by {
            let i = choose|i: int| 0 <= i < after.len() && after[i] == x;
            if i < before.len() {
                assert(before.contains(x));
                if x != edit {
                    let k = choose|k: int| 0 <= k < rest.len() && rest[k] == x;
                    assert(edits[k] == x);
                }
            } else {
                assert(edits[edits.len() - 1] == x);
            }
        }
        assert forall|i: int, j: int| 0 <= i <= j < after.len() implies not_after(#[trigger] after[i], #[trigger] after[j]) by {
            if j == after.len() - 1 && i < j {
                assert(before.contains(after[i]));
                if after[i] != edit {
                    let k = choose|k: int| 0 <= k < rest.len() && rest[k] == after[i];
                    assert(not_after(edits[k], edits[edits.len() - 1]));
                }
            }
        }
    }
}

/// Sorting keeps every edit, none twice, and puts them in order.
pub proof fn sorting_orders_and_keeps(edits: Seq<EditModel>)
    ensures
        ordered(sorted(edits)),
        sorted(edits).to_multiset() == edits.to_multiset(),
        sorted(edits).len() == edits.len(),
    decreases edits.len(),
{
    broadcast use vstd::seq_lib::group_to_multiset_ensures;

    if edits.len() > 0 {
        sorting_orders_and_keeps(edits.drop_last());
        lemma_inserted(sorted(edits.drop_last()), edits.last());
        assert(edits =~= edits.drop_last().push(edits.last()));
    } else {
        assert(sorted(edits) =~= edits);
    }
}

proof fn lemma_inserted_at(edits: Seq<EditModel>, edit: EditModel, k: int)
    requires
        0 <= k <= edits.len(),
        k > 0 ==> not_after(edits[k - 1], edit),
        forall|j: int| k <= j < edits.len() ==> !not_after(#[trigger] edits[j], edit),
    ensures
        inserted(edits, edit) == edits.insert(k, edit),
    decreases edits.len(),
{
    if k == edits.len() {
        assert(edits.insert(k, edit) =~= edits.push(edit));
    } else {
        let rest = edits.drop_last();
        lemma_inserted_at(rest, edit, k);
        assert(edits.insert(k, edit) =~= rest.insert(k, edit).push(edits.last()));
    }
}

/// Sorts edits by start, then by end, keeping the order of equal spans.
pub fn sort_edits(edits: &Vec<Edit>) -> (result: Vec<Edit>)
    ensures
        views(result@) == sorted(views(edits@)),
{
    let mut result: Vec<Edit> = Vec::new();
    let ghost models = views(edits@);
    assert(views(result@) =~= sorted(models.take(0)));
    let mut i: usize = 0;
    while i < edits.len()
        invariant
            i <= edits@.len(),
            models == views(edits@),
            views(result@) == sorted(models.take(i as int)),
        decreases edits.len() - i,
    {
        let edit = edits[i].copy();
        assert(models[i as int] == edit@);
        let mut k: usize = result.len();
        while k > 0 && !is_not_after(&result[k - 1], &edit)
            invariant
                k <= result@.len(),
                forall|j: int| k <= j < result@.len() ==> !not_after(#[trigger] views(result@)[j], edit@),
            decreases k,
        {
            assert(views(result@)[k - 1] == result@[k - 1]@);
            k -= 1;
        }
        let ghost before = result@;
        proof {
            if k > 0 {
                assert(views(before)[k - 1] == before[k - 1]@);
            }
            lemma_inserted_at(views(before), edit@, k as int);
            assert(models.take(i + 1).drop_last() =~= models.take(i as int));
            assert(models.take(i + 1).last() == edit@);
        }
        result.insert(k, edit);
        assert(views(result@) =~= views(before).insert(k as int, edit@));
        i += 1;
    }
    assert(models.take(i as int) =~= models);
    result
}

/// What `edits` (in order) add to a text before `offset`, over the first `n`.
pub open spec fn delta_before(edits: Seq<EditModel>, offset: int, n: int) -> int
    decreases n,
{
    if n <= 0 {
        0
    } else {
        delta_before(edits, offset, n - 1) + if edits[n - 1].end <= offset {
            edits[n - 1].growth()
        } else {
            0
        }
    }
}

/// Where `offset` lies after `edits`.
pub open spec fn shifted(edits: Seq<EditModel>, offset: int) -> int {
    let moved = offset + delta_before(edits, offset, edits.len() as int);
    if 0 <= moved <= usize::MAX {
        moved
    } else {
        offset
    }
}

/// Rebase an offset that lies outside every edited range onto the post-edit
/// string produced by [`apply_edits`] with `edits` (sorted, non-overlapping).
pub fn shift_offset(edits: &Vec<Edit>, offset: usize) -> (result: usize)
    ensures
        result == shifted(views(edits@), offset as int),
{
    let mut drift = Drift::new();
    let mut i: usize = 0;
    let count = edits.len();
    while i < count
        invariant
            i <= count == edits@.len(),
            drift.within(i as int),
            drift@ == delta_before(views(edits@), offset as int, i as int),
        decreases count - i,
    {
        let edit = &edits[i];
        assert(views(edits@)[i as int] == edit@);
        if edit.end <= offset {
            drift.count(edit.replacement.as_str().as_bytes().len(), edit.removed(), Ghost(i as int));
        } else {
            drift.count(0, 0, Ghost(i as int));
        }
        i += 1;
    }
    match drift.place(offset, Ghost(count as int)) {
        Some(place) => place,
        None => offset,
    }
}

/// No edit of the list reaches into its successor.
pub open spec fn disjoint(edits: Seq<EditModel>) -> bool {
    forall|i: int, j: int|
        0 <= i && j == i + 1 && j < edits.len() ==> (#[trigger] edits[i]).end <= (#[trigger] edits[j]).start
}

/// Every edit lies inside a text of `length` bytes.
pub open spec fn all_in_range(edits: Seq<EditModel>, length: int) -> bool {
    forall|i: int| 0 <= i < edits.len() ==> (#[trigger] edits[i]).in_range(length)
}

/// Every edit replaces whole characters of the text.
pub open spec fn all_cut(edits: Seq<EditModel>, bytes: Seq<u8>) -> bool {
    forall|i: int| 0 <= i < edits.len() ==> is_slice(bytes, (#[trigger] edits[i]).start, edits[i].end)
}

/// The text behind `cursor` with the edits from `i` on applied.
pub open spec fn spliced_from(bytes: Seq<u8>, edits: Seq<EditModel>, i: int, cursor: int) -> Seq<u8>
    decreases edits.len() - i,
{
    if i < 0 || i >= edits.len() {
        bytes.subrange(cursor, bytes.len() as int)
    } else {
        bytes.subrange(cursor, edits[i].start as int) + edits[i].bytes() + spliced_from(
            bytes,
            edits,
            i + 1,
            edits[i].end as int,
        )
    }
}

/// The text with the edits (in order) applied.
pub open spec fn spliced(bytes: Seq<u8>, edits: Seq<EditModel>) -> Seq<u8> {
    spliced_from(bytes, edits, 0, 0)
}

/// What applying `edits` to `source` gives.
pub open spec fn applied(source: Seq<char>, edits: Seq<EditModel>) -> Result<Seq<char>, Seq<char>> {
    if !disjoint(sorted(edits)) {
        Err("Overlapping source edits were produced"@)
    } else if !all_cut(sorted(edits), encode_utf8(source)) {
        Err("Invalid source edit span"@)
    } else {
        Ok(decode_utf8(spliced(encode_utf8(source), sorted(edits))))
    }
}

/// Applies edits to a text. The edits may come in any order; edits that
/// overlap, and edits that reach outside the text or cut a character, are
/// refused.
#[verifier::rlimit(40)]
pub fn apply_edits(source: &str, edits: &Vec<Edit>) -> (result: Result<String, String>)
    ensures
        match applied(source@, views(edits@)) {
            Ok(text) => result matches Ok(output) && output@ == text && encode_utf8(text) == spliced(
                encode_utf8(source@),
                sorted(views(edits@)),
            ),
            Err(text) => result matches Err(message) && message@ == text,
        },
{
    let ghost bytes = encode_utf8(source@);
    let ghost models = sorted(views(edits@));
    let ordered_edits = sort_edits(edits);
    let mut i: usize = 0;
    while ordered_edits.len() - i > 1
        invariant
            i <= ordered_edits@.len(),
            i > 0 ==> i < ordered_edits@.len(),
            models == views(ordered_edits@),
            models == sorted(views(edits@)),
            forall|a: int, b: int|
                0 <= a && b == a + 1 && b <= i ==> (#[trigger] models[a]).end <= (#[trigger] models[b]).start,
        decreases ordered_edits.len() - i,
    {
        assert(models[i as int] == ordered_edits@[i as int]@);
        assert(models[i + 1] == ordered_edits@[i + 1]@);
        if ordered_edits[i].end > ordered_edits[i + 1].start {
            assert(!disjoint(models));
            return Err("Overlapping source edits were produced".to_owned());
        }
        i += 1;
    }
    assert(disjoint(models));
    proof {
        encode_utf8_valid_utf8(source@);
        is_char_boundary_start_end_of_seq(bytes);
    }
    let mut output = String::new();
    let mut cursor: usize = 0;
    let mut k: usize = 0;
    while k < ordered_edits.len()
        invariant
            k <= ordered_edits@.len(),
            cursor <= bytes.len(),
            k < ordered_edits@.len() ==> cursor <= models[k as int].start,
            bytes == encode_utf8(source@),
            valid_utf8(bytes),
            is_char_boundary(bytes, cursor as int),
            is_char_boundary(bytes, bytes.len() as int),
            disjoint(models),
            models == views(ordered_edits@),
            models == sorted(views(edits@)),
            forall|j: int| 0 <= j < k ==> is_slice(bytes, (#[trigger] models[j]).start, models[j].end),
            encode_utf8(output@) + spliced_from(bytes, models, k as int, cursor as int) == spliced(bytes, models),
        decreases ordered_edits.len() - k,
    {
        let edit = &ordered_edits[k];
        assert(models[k as int] == edit@);
        if get_slice(source, edit.start, edit.end).is_none() {
            assert(!is_slice(bytes, models[k as int].start, models[k as int].end));
            return Err("Invalid source edit span".to_owned());
        }
        let kept = slice(source, cursor, edit.start);
        let ghost before = output@;
        output.append(kept);
        output.append(edit.replacement.as_str());
        proof {
            lemma_bytes_concat(before, kept@);
            lemma_bytes_concat(before + kept@, edit.replacement@);
            lemma_regroup(
                encode_utf8(before),
                encode_utf8(kept@),
                edit@.bytes(),
                spliced_from(bytes, models, k + 1, edit.end as int),
            );
        }
        cursor = edit.end;
        assert(k + 1 < ordered_edits@.len() ==> cursor <= models[k + 1].start);
        k += 1;
    }
    let rest = slice(source, cursor, source.as_bytes().len());
    proof {
        lemma_bytes_concat(output@, rest@);
    }
    output.append(rest);
    proof {
        encode_utf8_decode_utf8(output@);
    }
    Ok(output)
}

proof fn lemma_regroup(a: Seq<u8>, b: Seq<u8>, c: Seq<u8>, d: Seq<u8>)
    ensures
        a + (b + c + d) == a + b + c + d,
{
    assert(a + (b + c + d) =~= a + b + c + d);
}

/// `offset` moved back by `delta`, or kept where that leaves its range.
pub open spec fn moved_back(offset: int, delta: int) -> int {
    if 0 <= offset - delta <= usize::MAX {
        offset - delta
    } else {
        offset
    }
}

/// Where an offset behind the edits from `i` on came from; the edits before
/// `i` added `delta` bytes before it. An offset inside a replacement came from
/// the start of the span that it replaced.
pub open spec fn traced_from(edits: Seq<EditModel>, i: int, delta: int, offset: int) -> int
    decreases edits.len() - i,
{
    if i < 0 || i >= edits.len() {
        moved_back(offset, delta)
    } else {
        let start = edits[i].start + delta;
        if start < 0 || start > usize::MAX {
            traced_from(edits, i + 1, delta, offset)
        } else if offset < start {
            moved_back(offset, delta)
        } else if offset < start + edits[i].bytes().len() {
            edits[i].start as int
        } else {
            traced_from(edits, i + 1, delta + edits[i].growth(), offset)
        }
    }
}

/// Where an offset came from before the first `n` batches of edits, the last of
/// them undone first.
pub open spec fn traced(batches: Seq<Seq<EditModel>>, n: int, offset: int) -> int
    decreases n,
{
    if n <= 0 {
        offset
    } else {
        traced(batches, n - 1, traced_from(sorted(batches[n - 1]), 0, 0, offset))
    }
}

/// Batches of edits, by their models.
pub open spec fn rounds(edits: Seq<Vec<Edit>>) -> Seq<Seq<EditModel>> {
    edits.map_values(|round: Vec<Edit>| views(round@))
}

fn original_offset_in(edits: &Vec<Edit>, offset: usize) -> (result: usize)
    ensures
        result == traced_from(views(edits@), 0, 0, offset as int),
{
    let mut drift = Drift::new();
    let mut i: usize = 0;
    let count = edits.len();
    while i < count
        invariant
            i <= count == edits@.len(),
            drift.within(i as int),
            traced_from(views(edits@), i as int, drift@, offset as int) == traced_from(
                views(edits@),
                0,
                0,
                offset as int,
            ),
        decreases count - i,
    {
        let edit = &edits[i];
        assert(views(edits@)[i as int] == edit@);
        let length = edit.replacement.as_str().as_bytes().len();
        match drift.place(edit.start, Ghost(i as int)) {
            None => {
                drift.count(0, 0, Ghost(i as int));
            },
            Some(start) => {
                if offset < start {
                    return match drift.origin(offset, Ghost(i as int)) {
                        Some(place) => place,
                        None => offset,
                    };
                }
                if offset - start < length {
                    return edit.start;
                }
                drift.count(length, edit.removed(), Ghost(i as int));
            },
        }
        i += 1;
    }
    match drift.origin(offset, Ghost(count as int)) {
        Some(place) => place,
        None => offset,
    }
}

/// The offset in the text before every batch of edits that `offset` in the
/// text after them came from.
pub fn original_offset(edit_batches: &Vec<Vec<Edit>>, offset: usize) -> (result: usize)
    ensures
        result == traced(rounds(edit_batches@), edit_batches@.len() as int, offset as int),
{
    let mut place: usize = offset;
    let mut n: usize = edit_batches.len();
    while n > 0
        invariant
            n <= edit_batches@.len(),
            traced(rounds(edit_batches@), n as int, place as int) == traced(
                rounds(edit_batches@),
                edit_batches@.len() as int,
                offset as int,
            ),
        decreases n,
    {
        assert(rounds(edit_batches@)[n - 1] == views(edit_batches@[n - 1]@));
        let edits = sort_edits(&edit_batches[n - 1]);
        place = original_offset_in(&edits, place);
        n -= 1;
    }
    place
}

/// No edit replaces the byte at `offset`.
pub open spec fn untouched(edits: Seq<EditModel>, offset: int) -> bool {
    forall|i: int|
        0 <= i < edits.len() ==> !((#[trigger] edits[i]).start <= offset < edits[i].end)
}

/// Edits that [`apply_edits`] accepts, in order.
pub open spec fn applicable(edits: Seq<EditModel>, length: int) -> bool {
    &&& ordered(edits)
    &&& disjoint(edits)
    &&& all_in_range(edits, length)
}

/// The growth of the edits from `i` on that end at or before `offset`.
spec fn delta_from(edits: Seq<EditModel>, offset: int, i: int) -> int {
    delta_before(edits, offset, edits.len() as int) - delta_before(edits, offset, i)
}

proof fn lemma_none_before(edits: Seq<EditModel>, offset: int, i: int, length: int)
    requires
        applicable(edits, length),
        0 <= i <= edits.len(),
        i < edits.len() ==> offset < edits[i].end,
    ensures
        delta_from(edits, offset, i) == 0,
    decreases edits.len() - i,
{
    if i < edits.len() {
        if i + 1 < edits.len() {
            assert(edits[i].end <= edits[i + 1].start);
            assert(edits[i + 1].in_range(length));
        }
        lemma_none_before(edits, offset, i + 1, length);
    }
}

/// The offset lies at the same place of the edited text: the place is the
/// offset itself, moved by the growth of the edits before it.
proof fn lemma_spliced_place(bytes: Seq<u8>, edits: Seq<EditModel>, offset: int, i: int, cursor: int)
    requires
        applicable(edits, bytes.len() as int),
        untouched(edits, offset),
        0 <= i <= edits.len(),
        0 <= cursor <= offset <= bytes.len(),
        i < edits.len() ==> cursor <= edits[i].start,
    ensures
        0 <= offset - cursor + delta_from(edits, offset, i) <= spliced_from(bytes, edits, i, cursor).len(),
        offset == bytes.len() ==> offset - cursor + delta_from(edits, offset, i) == spliced_from(
            bytes,
            edits,
            i,
            cursor,
        ).len(),
        offset < bytes.len() ==> {
            let place = offset - cursor + delta_from(edits, offset, i);
            &&& place < spliced_from(bytes, edits, i, cursor).len()
            &&& spliced_from(bytes, edits, i, cursor)[place] == bytes[offset]
        },
    decreases edits.len() - i,
{
    if i < edits.len() {
        let edit = edits[i];
        assert(edit.in_range(bytes.len() as int));
        let head = bytes.subrange(cursor, edit.start as int);
        let tail = spliced_from(bytes, edits, i + 1, edit.end as int);
        if edit.end <= offset {
            if i + 1 < edits.len() {
                assert(edits[i].end <= edits[i + 1].start);
            }
            lemma_spliced_place(bytes, edits, offset, i + 1, edit.end as int);
            let k = offset - edit.end + delta_from(edits, offset, i + 1);
            if offset < bytes.len() {
                assert((head + edit.bytes() + tail)[head.len() + edit.bytes().len() + k] == tail[k]);
            }
        } else {
            lemma_none_before(edits, offset, i, bytes.len() as int);
            assert(offset < bytes.len());
            assert((head + edit.bytes() + tail)[offset - cursor] == head[offset - cursor]);
        }
    }
}

/// Rebasing follows the text: a byte that no edit replaces is found again at
/// the rebased offset of the edited text, and the end of the text at its end.
pub proof fn shifted_offset_finds_the_same_byte(bytes: Seq<u8>, edits: Seq<EditModel>, offset: int)
    requires
        applicable(edits, bytes.len() as int),
        untouched(edits, offset),
        0 <= offset <= bytes.len(),
        spliced(bytes, edits).len() <= usize::MAX,
    ensures
        offset < bytes.len() ==> 0 <= shifted(edits, offset) < spliced(bytes, edits).len() && spliced(bytes, edits)[
        shifted(edits, offset)] == bytes[offset],
        offset == bytes.len() ==> shifted(edits, offset) == spliced(bytes, edits).len(),
{
    lemma_spliced_place(bytes, edits, offset, 0, 0);
}

proof fn lemma_trace_undoes(bytes: Seq<u8>, edits: Seq<EditModel>, offset: int, i: int, cursor: int)
    requires
        applicable(edits, bytes.len() as int),
        untouched(edits, offset),
        0 <= i <= edits.len(),
        0 <= cursor <= offset <= bytes.len() <= usize::MAX,
        i < edits.len() ==> cursor <= edits[i].start,
        0 <= cursor + delta_before(edits, offset, i),
        cursor + delta_before(edits, offset, i) + spliced_from(bytes, edits, i, cursor).len() <= usize::MAX,
    ensures
        traced_from(
            edits,
            i,
            delta_before(edits, offset, i),
            offset + delta_before(edits, offset, edits.len() as int),
        ) == offset,
    decreases edits.len() - i,
{
    let total = delta_before(edits, offset, edits.len() as int);
    let delta = delta_before(edits, offset, i);
    if i < edits.len() {
        let edit = edits[i];
        assert(edit.in_range(bytes.len() as int));
        let head = bytes.subrange(cursor, edit.start as int);
        assert(spliced_from(bytes, edits, i, cursor).len() == head.len() + edit.bytes().len() + spliced_from(
            bytes,
            edits,
            i + 1,
            edit.end as int,
        ).len());
        if edit.end <= offset {
            if i + 1 < edits.len() {
                assert(edits[i].end <= edits[i + 1].start);
            }
            lemma_spliced_place(bytes, edits, offset, i + 1, edit.end as int);
            assert(offset + total >= edit.start + delta + edit.bytes().len());
            lemma_trace_undoes(bytes, edits, offset, i + 1, edit.end as int);
        } else {
            lemma_none_before(edits, offset, i, bytes.len() as int);
            assert(offset < edit.start);
        }
    }
}

/// Tracing undoes rebasing: an offset that no edit replaces, the end of the
/// text among them, comes back from where it was moved to.
pub proof fn tracing_undoes_shifting(bytes: Seq<u8>, edits: Seq<EditModel>, offset: int)
    requires
        applicable(edits, bytes.len() as int),
        untouched(edits, offset),
        0 <= offset <= bytes.len() <= usize::MAX,
        spliced(bytes, edits).len() <= usize::MAX,
    ensures
        traced_from(edits, 0, 0, shifted(edits, offset)) == offset,
{
    lemma_spliced_place(bytes, edits, offset, 0, 0);
    lemma_trace_undoes(bytes, edits, offset, 0, 0);
}

/// The rebased offset of a byte that no edit replaces.
pub proof fn lemma_place(bytes: Seq<u8>, edits: Seq<EditModel>, offset: int)
    requires
        applicable(edits, bytes.len() as int),
        untouched(edits, offset),
        0 <= offset <= bytes.len(),
        spliced(bytes, edits).len() <= usize::MAX,
    ensures
        shifted(edits, offset) == offset + delta_before(edits, offset, edits.len() as int),
{
    lemma_spliced_place(bytes, edits, offset, 0, 0);
}

} // verus!
