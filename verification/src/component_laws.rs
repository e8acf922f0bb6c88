//! What becomes of the blocks of a component.
use crate::css::ParseModel;
use crate::edit::{applicable, delta_before, shifted_offset_finds_the_same_byte, spliced, EditModel};
use crate::html_attribute::byte_len;
use crate::position::{byte_offset, lemma_byte_offset_step, utf8_width};
use crate::request::BlockModel;
use crate::text::{lemma_bytes_concat, Separator};
use crate::vue::{
    block_fate, edits_content, in_content, lemma_masked_length, lemma_spaces_bytes, masked, masked_edit, masked_to,
    round_reaches, shifted_block, spaces, without_spans, BlockFate,
};
use vstd::prelude::*;
use vstd::utf8::*;

verus! {

// ---------------------------------------------------------------------------
// Masking
// ---------------------------------------------------------------------------

/// The bytes of a character.
pub open spec fn bytes_of(c: char) -> Seq<u8> {
    encode_utf8(seq![c])
}

proof fn lemma_masked_at(source: Seq<char>, blocks: Seq<BlockModel>, n: int, i: int)
    requires
        0 <= i < n <= source.len(),
    ensures
        ({
            let bytes = encode_utf8(masked_to(source, blocks, n));
            let start = byte_offset(source, i);
            let end = byte_offset(source, i + 1);
            &&& 0 <= start <= end <= bytes.len()
            &&& bytes.subrange(start, end) == if in_content(blocks, start) {
                bytes_of(source[i])
            } else {
                encode_utf8(spaces(utf8_width(source[i])))
            }
        }),
    decreases n,
{
    let before = masked_to(source, blocks, n - 1);
    let c = source[n - 1];
    let added = if in_content(blocks, byte_offset(source, n - 1)) {
        seq![c]
    } else {
        spaces(utf8_width(c))
    };
    lemma_bytes_concat(before, added);
    lemma_masked_length(source, blocks, n - 1);
    lemma_masked_length(source, blocks, n);
    lemma_byte_offset_step(source, n - 1);
    let bytes = encode_utf8(masked_to(source, blocks, n));
    let first = encode_utf8(before);
    let start = byte_offset(source, i);
    let end = byte_offset(source, i + 1);
    if i < n - 1 {
        lemma_masked_at(source, blocks, n - 1, i);
        assert(bytes.subrange(start, end) =~= first.subrange(start, end));
    } else {
        assert(bytes.subrange(start, end) =~= encode_utf8(added));
    }
}

/// Masking keeps the contents of the blocks where they stand, byte for byte, and
/// leaves nothing but spaces of everything else.
pub proof fn masking_keeps_the_contents_in_place(source: Seq<char>, blocks: Seq<BlockModel>, i: int)
    requires
        masked(source, blocks) is Ok,
        0 <= i < source.len(),
    ensures
        ({
            let bytes = encode_utf8(masked(source, blocks)->Ok_0);
            let start = byte_offset(source, i);
            let end = byte_offset(source, i + 1);
            &&& 0 <= start <= end <= bytes.len()
            &&& (exists|k: int|
                0 <= k < blocks.len() && (#[trigger] blocks[k]).content_start <= start < blocks[k].content_end)
                ==> bytes.subrange(start, end) == bytes_of(source[i])
            &&& !(exists|k: int|
                0 <= k < blocks.len() && (#[trigger] blocks[k]).content_start <= start < blocks[k].content_end)
                ==> bytes.subrange(start, end) == encode_utf8(spaces(end - start))
        }),
{
    lemma_masked_at(source, blocks, source.len() as int, i);
    lemma_byte_offset_step(source, i);
}

/// An edit means the same to the masked copy: it replaces the same span by a
/// text of the same length, which is the very text where it lies in the content
/// of a block and spaces elsewhere.
pub proof fn masked_edits_keep_every_offset(blocks: Seq<BlockModel>, edit: EditModel)
    ensures
        ({
            let after = masked_edit(blocks, edit);
            &&& after.start == edit.start
            &&& after.end == edit.end
            &&& byte_len(after.replacement) == byte_len(edit.replacement)
            &&& (exists|k: int|
                0 <= k < blocks.len() && (#[trigger] blocks[k]).content_start <= edit.start && edit.end
                    <= blocks[k].content_end) ==> after.replacement == edit.replacement
            &&& !(exists|k: int|
                0 <= k < blocks.len() && (#[trigger] blocks[k]).content_start <= edit.start && edit.end
                    <= blocks[k].content_end) ==> forall|i: int|
                0 <= i < after.replacement.len() ==> #[trigger] after.replacement[i] == ' '
        }),
{
    lemma_spaces_bytes(byte_len(edit.replacement));
    if exists|k: int|
        0 <= k < blocks.len() && (#[trigger] blocks[k]).content_start <= edit.start && edit.end <= blocks[k].content_end {
        let k = choose|k: int|
            0 <= k < blocks.len() && (#[trigger] blocks[k]).content_start <= edit.start && edit.end
                <= blocks[k].content_end;
        assert(edits_content(blocks, edit));
    } else {
        assert(!edits_content(blocks, edit));
    }
}

// ---------------------------------------------------------------------------
// Blocks behind edits
// ---------------------------------------------------------------------------

proof fn lemma_same_drift(edits: Seq<EditModel>, block: BlockModel, offset: int, n: int, length: int)
    requires
        applicable(edits, length),
        !round_reaches(edits, block),
        block.outer_start <= offset < block.outer_end,
        0 <= n <= edits.len(),
    ensures
        delta_before(edits, offset, n) == delta_before(edits, block.outer_start, n),
    decreases n,
{
    if n > 0 {
        lemma_same_drift(edits, block, offset, n - 1, length);
        let edit = edits[n - 1];
        assert(edit.in_range(length));
        assert(!crate::vue::reaches_block(edit, block));
    }
}

/// A block that no edit reaches into stands whole behind the edits: every byte
/// of it is found again, in its place in the block.
pub proof fn untouched_blocks_stand_whole(bytes: Seq<u8>, edits: Seq<EditModel>, block: BlockModel, offset: int)
    requires
        applicable(edits, bytes.len() as int),
        !round_reaches(edits, block),
        0 <= block.outer_start <= offset < block.outer_end <= bytes.len(),
        spliced(bytes, edits).len() <= usize::MAX,
    ensures
        ({
            let moved = shifted_block(edits, block);
            let place = moved.outer_start + (offset - block.outer_start);
            &&& 0 <= place < spliced(bytes, edits).len()
            &&& spliced(bytes, edits)[place] == bytes[offset]
        }),
{
    assert forall|i: int| 0 <= i < edits.len() implies !((#[trigger] edits[i]).start <= offset < edits[i].end) by {
        assert(!crate::vue::reaches_block(edits[i], block));
    }
    assert forall|i: int| 0 <= i < edits.len() implies !((#[trigger] edits[i]).start <= block.outer_start
        < edits[i].end) by {
        assert(!crate::vue::reaches_block(edits[i], block));
    }
    shifted_offset_finds_the_same_byte(bytes, edits, offset);
    shifted_offset_finds_the_same_byte(bytes, edits, block.outer_start);
    lemma_same_drift(edits, block, offset, edits.len() as int, bytes.len() as int);
    crate::edit::lemma_place(bytes, edits, offset);
    crate::edit::lemma_place(bytes, edits, block.outer_start);
}

/// Only the edits at these spans are left out; the others keep their order.
pub proof fn edits_elsewhere_are_kept(edits: Seq<EditModel>, spans: Seq<(int, int)>, n: int, edit: EditModel)
    requires
        0 <= n <= edits.len(),
    ensures
        without_spans(edits, spans, n).contains(edit) <==> !spans.contains((edit.start, edit.end)) && exists|i: int|
            0 <= i < n && #[trigger] edits[i] == edit,
    decreases n,
{
    if n > 0 {
        edits_elsewhere_are_kept(edits, spans, n - 1, edit);
        let before = without_spans(edits, spans, n - 1);
        let after = without_spans(edits, spans, n);
        if before.contains(edit) {
            let k = choose|k: int| 0 <= k < before.len() && before[k] == edit;
            assert(after[k] == edit);
        }
        if after.contains(edit) {
            let k = choose|k: int| 0 <= k < after.len() && after[k] == edit;
            if k < before.len() {
                assert(before[k] == edit);
            } else {
                assert(edits[n - 1] == edit);
            }
        }
        if !spans.contains((edit.start, edit.end)) && edits[n - 1] == edit {
            assert(after[before.len() as int] == edit);
        }
        if exists|i: int| 0 <= i < n && #[trigger] edits[i] == edit {
            let i = choose|i: int| 0 <= i < n && #[trigger] edits[i] == edit;
            if i < n - 1 {
                assert(edits[i] == edit);
            }
        }
    }
}

/// A block goes only where it had CSS and has none left; it goes whole, with at
/// most one line break behind it.
pub proof fn only_emptied_blocks_go(
    parses: Seq<ParseModel>,
    css_source: Seq<char>,
    original: BlockModel,
    block: BlockModel,
    view: Seq<char>,
    source: Seq<char>,
    validate: bool,
)
    ensures
        match block_fate(parses, css_source, original, block, view, source, validate) {
            BlockFate::Removed(edit) => {
                &&& edit.start == block.outer_start
                &&& block.outer_end <= edit.end <= block.outer_end + 2
                &&& edit.replacement.len() == 0
                &&& crate::text::cut(css_source, original.content_start, original.content_end) matches Some(before)
                    && !crate::text::blank(before, Separator::Whitespace)
                &&& crate::text::cut(view, block.content_start, block.content_end) matches Some(left)
                    && crate::text::blank(left, Separator::Whitespace)
            },
            BlockFate::Kept => match (
                crate::text::cut(css_source, original.content_start, original.content_end),
                crate::text::cut(view, block.content_start, block.content_end),
            ) {
                (Some(before), Some(left)) => crate::text::blank(before, Separator::Whitespace)
                    || !crate::text::blank(left, Separator::Whitespace),
                _ => false,
            },
            BlockFate::Halted(_) => true,
        },
{
}

} // verus!
