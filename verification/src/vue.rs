//! Style blocks of Vue single-file components.
use crate::css::{
    fail, failed, find_empty_conditionals, parse_css, read_css, sheet_emptied, validate_stylesheet, validated,
    ConditionalModels, Conditionals, Halt, HaltModel, Parse, ParseModel, StylesheetSyntax,
};
use crate::duplicate::duplicate_all;
use crate::edit::{applied, apply_edits, rounds, shift_offset, shifted, sort_edits, sorted, Edit, EditModel};
use crate::errors::ErrorKind;
use crate::html_attribute::byte_len;
use crate::number::pairs_of;
use crate::position::{byte_at, byte_offset, has_byte_at, lemma_byte_offset_end, lemma_byte_offset_step, utf8_width, width_utf8};
use crate::request::{BatchStylesheet, BlockModel, SheetModel, VueBlock};
use crate::text::{
    blank, copy, copy_cut, cut, get_slice, is_blank, is_slice, lemma_bytes_concat, same, to_chars, views, Separator,
};
use vstd::prelude::*;
use vstd::utf8::*;

verus! {

// ---------------------------------------------------------------------------
// Blocks
// ---------------------------------------------------------------------------

/// The block behind a round of edits (in order).
pub open spec fn shifted_block(edits: Seq<EditModel>, block: BlockModel) -> BlockModel {
    BlockModel {
        outer_start: shifted(edits, block.outer_start),
        outer_end: shifted(edits, block.outer_end),
        content_start: shifted(edits, block.content_start),
        content_end: shifted(edits, block.content_end),
        ..block
    }
}

/// The blocks behind a round of edits (in order).
pub open spec fn shifted_blocks(edits: Seq<EditModel>, blocks: Seq<BlockModel>) -> Seq<BlockModel> {
    blocks.map_values(|block: BlockModel| shifted_block(edits, block))
}

impl VueBlock {
    /// Shift every block boundary through one round of applied edits.
    pub fn shift(&mut self, edits: &Vec<Edit>)
        ensures
            final(self)@ == shifted_block(views(edits@), old(self)@),
    {
        self.outer_start = shift_offset(edits, self.outer_start);
        self.outer_end = shift_offset(edits, self.outer_end);
        self.content_start = shift_offset(edits, self.content_start);
        self.content_end = shift_offset(edits, self.content_end);
    }
}

fn shift_blocks(blocks: &mut Vec<VueBlock>, edits: &Vec<Edit>)
    ensures
        views(final(blocks)@) == shifted_blocks(views(edits@), views(old(blocks)@)),
        final(blocks)@.len() == old(blocks)@.len(),
{
    let ghost start = views(blocks@);
    let mut i: usize = 0;
    while i < blocks.len()
        invariant
            i <= blocks@.len() == start.len(),
            blocks@.len() == old(blocks)@.len(),
            forall|k: int| 0 <= k < i ==> #[trigger] views(blocks@)[k] == shifted_block(views(edits@), start[k]),
            forall|k: int| i <= k < start.len() ==> #[trigger] views(blocks@)[k] == start[k],
        decreases blocks.len() - i,
    {
        let ghost before = blocks@;
        assert(views(blocks@)[i as int] == blocks@[i as int]@);
        blocks[i].shift(edits);
        assert(blocks@[i as int]@ == shifted_block(views(edits@), start[i as int]));
        assert forall|k: int| 0 <= k < start.len() && k != i implies #[trigger] views(blocks@)[k] == views(
            before,
        )[k] by {
            assert(blocks@[k] == before[k]);
        }
        i += 1;
    }
    assert(views(blocks@) =~= shifted_blocks(views(edits@), start));
}

/// The edit reaches inside the block.
pub open spec fn reaches_block(edit: EditModel, block: BlockModel) -> bool {
    edit.start < block.outer_end && (edit.end > block.outer_start || (edit.start == edit.end && edit.start
        > block.outer_start))
}

/// Some edit of the round reaches inside the block.
pub open spec fn round_reaches(round: Seq<EditModel>, block: BlockModel) -> bool {
    exists|i: int| 0 <= i < round.len() && reaches_block(#[trigger] round[i], block)
}

/// Some edit of the round reaches inside a block.
pub open spec fn round_conflicts(round: Seq<EditModel>, blocks: Seq<BlockModel>) -> bool {
    exists|i: int| 0 <= i < blocks.len() && round_reaches(round, #[trigger] blocks[i])
}

/// The blocks behind the first `n` rounds of edits; there are none once an
/// edit reaches inside a block.
pub open spec fn rebased_blocks(edits: Seq<Seq<EditModel>>, blocks: Seq<BlockModel>, n: int) -> Option<Seq<BlockModel>>
    decreases n,
{
    if n <= 0 {
        Some(blocks)
    } else {
        match rebased_blocks(edits, blocks, n - 1) {
            None => None,
            Some(before) => if round_conflicts(sorted(edits[n - 1]), before) {
                None
            } else {
                Some(shifted_blocks(sorted(edits[n - 1]), before))
            },
        }
    }
}

fn does_round_reach(round: &Vec<Edit>, block: &VueBlock) -> (result: bool)
    ensures
        result == round_reaches(views(round@), block@),
{
    let mut i: usize = 0;
    while i < round.len()
        invariant
            i <= round@.len(),
            forall|j: int| 0 <= j < i ==> !reaches_block(#[trigger] views(round@)[j], block@),
        decreases round.len() - i,
    {
        let edit = &round[i];
        assert(views(round@)[i as int] == edit@);
        if edit.start < block.outer_end && (edit.end > block.outer_start || (edit.start == edit.end && edit.start
            > block.outer_start)) {
            assert(reaches_block(views(round@)[i as int], block@));
            return true;
        }
        i += 1;
    }
    false
}

fn does_round_conflict(round: &Vec<Edit>, blocks: &Vec<VueBlock>) -> (result: bool)
    ensures
        result == round_conflicts(views(round@), views(blocks@)),
{
    let mut i: usize = 0;
    while i < blocks.len()
        invariant
            i <= blocks@.len(),
            forall|j: int| 0 <= j < i ==> !round_reaches(views(round@), #[trigger] views(blocks@)[j]),
        decreases blocks.len() - i,
    {
        assert(views(blocks@)[i as int] == blocks@[i as int]@);
        if does_round_reach(round, &blocks[i]) {
            assert(round_reaches(views(round@), views(blocks@)[i as int]));
            return true;
        }
        i += 1;
    }
    false
}

proof fn lemma_rebased_missing(edits: Seq<Seq<EditModel>>, blocks: Seq<BlockModel>, k: int, n: int)
    requires
        0 <= k <= n,
        rebased_blocks(edits, blocks, k) is None,
    ensures
        rebased_blocks(edits, blocks, n) is None,
    decreases n - k,
{
    if k < n {
        lemma_rebased_missing(edits, blocks, k, n - 1);
    }
}

/// Earlier same-path entries edit template attributes and their own blocks;
/// those ranges are disjoint from this entry's blocks, so each boundary shifts
/// exactly through the applied edit rounds. An edit reaching inside one of
/// these blocks is a genuine conflict.
pub fn rebase_vue_blocks(prior_edits: &Vec<Vec<Edit>>, blocks: &Vec<VueBlock>) -> (result: Result<
    Vec<VueBlock>,
    String,
>)
    ensures
        match rebased_blocks(rounds(prior_edits@), views(blocks@), prior_edits@.len() as int) {
            Some(model) => result matches Ok(list) && views(list@) == model,
            None => result matches Err(message) && message@ == "A Vue style block changed during batch planning"@,
        },
{
    let mut current = duplicate_all(blocks);
    let mut n: usize = 0;
    while n < prior_edits.len()
        invariant
            n <= prior_edits@.len(),
            rebased_blocks(rounds(prior_edits@), views(blocks@), n as int) == Some(views(current@)),
        decreases prior_edits.len() - n,
    {
        assert(rounds(prior_edits@)[n as int] == views(prior_edits@[n as int]@));
        let round = sort_edits(&prior_edits[n]);
        if does_round_conflict(&round, &current) {
            proof {
                lemma_rebased_missing(
                    rounds(prior_edits@),
                    views(blocks@),
                    n + 1,
                    prior_edits@.len() as int,
                );
            }
            return Err("A Vue style block changed during batch planning".to_owned());
        }
        shift_blocks(&mut current, &round);
        n += 1;
    }
    Ok(current)
}

// ---------------------------------------------------------------------------
// Masking
// ---------------------------------------------------------------------------

/// The block's spans are spans of the source, the content inside the block.
pub open spec fn block_fits(source: Seq<char>, block: BlockModel) -> bool {
    let bytes = encode_utf8(source);
    &&& is_slice(bytes, block.content_start, block.content_end)
    &&& is_slice(bytes, block.outer_start, block.outer_end)
    &&& block.outer_start <= block.content_start
    &&& block.content_end <= block.outer_end
}

/// Every block's spans are spans of the source.
pub open spec fn blocks_fit(source: Seq<char>, blocks: Seq<BlockModel>) -> bool {
    forall|i: int| 0 <= i < blocks.len() ==> block_fits(source, #[trigger] blocks[i])
}

/// The byte offset lies in the content of a block.
pub open spec fn in_content(blocks: Seq<BlockModel>, offset: int) -> bool {
    exists|i: int|
        0 <= i < blocks.len() && (#[trigger] blocks[i]).content_start <= offset < blocks[i].content_end
}

/// `n` spaces.
pub open spec fn spaces(n: int) -> Seq<char> {
    Seq::new(
        if n < 0 {
            0
        } else {
            n as nat
        },
        |i: int| ' ',
    )
}

/// The first `n` characters, with a space for every byte outside the blocks'
/// contents.
pub open spec fn masked_to(source: Seq<char>, blocks: Seq<BlockModel>, n: int) -> Seq<char>
    decreases n,
{
    if n <= 0 {
        seq![]
    } else {
        masked_to(source, blocks, n - 1) + if in_content(blocks, byte_offset(source, n - 1)) {
            seq![source[n - 1]]
        } else {
            spaces(utf8_width(source[n - 1]))
        }
    }
}

/// The source with a space for every byte outside the blocks' contents.
pub open spec fn masked(source: Seq<char>, blocks: Seq<BlockModel>) -> Result<Seq<char>, Seq<char>> {
    if blocks_fit(source, blocks) {
        Ok(masked_to(source, blocks, source.len() as int))
    } else {
        Err("Invalid Vue style block span"@)
    }
}

fn does_fit(source: &str, block: &VueBlock) -> (result: bool)
    ensures
        result == block_fits(source@, block@),
{
    get_slice(source, block.content_start, block.content_end).is_some() && get_slice(
        source,
        block.outer_start,
        block.outer_end,
    ).is_some() && block.outer_start <= block.content_start && block.content_end <= block.outer_end
}

fn is_in_content(blocks: &Vec<VueBlock>, offset: usize) -> (result: bool)
    ensures
        result == in_content(views(blocks@), offset as int),
{
    let mut i: usize = 0;
    while i < blocks.len()
        invariant
            i <= blocks@.len(),
            forall|j: int|
                0 <= j < i ==> !((#[trigger] views(blocks@)[j]).content_start <= offset
                    < views(blocks@)[j].content_end),
        decreases blocks.len() - i,
    {
        let block = &blocks[i];
        assert(views(blocks@)[i as int] == block@);
        if block.content_start <= offset && offset < block.content_end {
            return true;
        }
        i += 1;
    }
    false
}

fn push_spaces(text: &mut String, n: usize)
    ensures
        final(text)@ == old(text)@ + spaces(n as int),
{
    let ghost start = text@;
    let mut i: usize = 0;
    assert(start + spaces(0) =~= start);
    while i < n
        invariant
            i <= n,
            text@ == start + spaces(i as int),
        decreases n - i,
    {
        text.push(' ');
        i += 1;
        assert(text@ =~= start + spaces(i as int));
    }
}

/// Same-length copy of a `.vue` source with every byte outside the scoped
/// block contents replaced by a space, so parsing it as CSS yields spans in
/// absolute `.vue` byte offsets with no rebasing.
pub fn mask_vue_source(source: &str, blocks: &Vec<VueBlock>) -> (result: Result<String, String>)
    ensures
        match masked(source@, views(blocks@)) {
            Ok(model) => result matches Ok(text) && text@ == model,
            Err(model) => result matches Err(message) && message@ == model,
        },
{
    let ghost models = views(blocks@);
    let mut i: usize = 0;
    while i < blocks.len()
        invariant
            i <= blocks@.len(),
            models == views(blocks@),
            forall|j: int| 0 <= j < i ==> block_fits(source@, #[trigger] models[j]),
        decreases blocks.len() - i,
    {
        assert(models[i as int] == blocks@[i as int]@);
        if !does_fit(source, &blocks[i]) {
            assert(!block_fits(source@, models[i as int]));
            return Err("Invalid Vue style block span".to_owned());
        }
        i += 1;
    }
    let chars = to_chars(source);
    let length = source.as_bytes().len();
    let mut text = String::new();
    assert(text@ =~= Seq::empty());
    let mut at: usize = 0;
    let mut n: usize = 0;
    proof {
        lemma_byte_offset_end(source@);
    }
    while n < chars.len()
        invariant
            chars@ == source@,
            models == views(blocks@),
            blocks_fit(source@, models),
            n <= source@.len(),
            at == byte_offset(source@, n as int),
            length == byte_offset(source@, source@.len() as int),
            text@ == masked_to(source@, models, n as int),
        decreases chars.len() - n,
    {
        let character = chars[n];
        proof {
            lemma_byte_offset_step(source@, n as int);
            crate::position::lemma_byte_offset_monotone(source@, n + 1, source@.len() as int);
        }
        if is_in_content(blocks, at) {
            let ghost before = text@;
            text.push(character);
            assert(text@ =~= before + seq![character]);
        } else {
            push_spaces(&mut text, width_utf8(character));
        }
        at = at + width_utf8(character);
        n += 1;
    }
    Ok(text)
}

pub proof fn lemma_spaces_bytes(n: int)
    requires
        0 <= n,
    ensures
        encode_utf8(spaces(n)).len() == n,
    decreases n,
{
    if n == 0 {
        assert(spaces(0) =~= Seq::empty());
    } else {
        lemma_spaces_bytes(n - 1);
        assert(spaces(n) =~= spaces(n - 1) + seq![' ']);
        lemma_bytes_concat(spaces(n - 1), seq![' ']);
        lemma_byte_offset_step(seq![' '], 0);
        lemma_byte_offset_end(seq![' ']);
    }
}

pub proof fn lemma_masked_length(source: Seq<char>, blocks: Seq<BlockModel>, n: int)
    requires
        0 <= n <= source.len(),
    ensures
        byte_len(masked_to(source, blocks, n)) == byte_offset(source, n),
    decreases n,
{
    if n == 0 {
        lemma_byte_offset_end(source);
    } else {
        lemma_masked_length(source, blocks, n - 1);
        lemma_byte_offset_step(source, n - 1);
        let c = source[n - 1];
        let before = masked_to(source, blocks, n - 1);
        if in_content(blocks, byte_offset(source, n - 1)) {
            lemma_bytes_concat(before, seq![c]);
            lemma_byte_offset_step(seq![c], 0);
            lemma_byte_offset_end(seq![c]);
        } else {
            lemma_bytes_concat(before, spaces(utf8_width(c)));
            lemma_spaces_bytes(utf8_width(c));
        }
    }
}

/// Masking keeps every offset: the masked copy has as many bytes as the source.
pub proof fn masking_keeps_the_length(source: Seq<char>, blocks: Seq<BlockModel>)
    ensures
        masked(source, blocks) matches Ok(text) ==> byte_len(text) == byte_len(source),
{
    lemma_masked_length(source, blocks, source.len() as int);
    lemma_byte_offset_end(source);
}

// ---------------------------------------------------------------------------
// Retention
// ---------------------------------------------------------------------------

/// The message for a rule that an open template surface retains.
pub open spec fn retention_message(code: Seq<char>) -> Option<Seq<char>> {
    if code == "dynamic-template-class"@ {
        Some(
            "A dynamic class binding makes the template's class set unprovable, so the scoped rule is retained."@,
        )
    } else if code == "component-class-target"@ {
        Some(
            "A child component's root element can carry classes this scoped rule matches, so it is retained."@,
        )
    } else if code == "open-root-fallthrough"@ {
        Some(
            "A parent component can merge classes onto the single root element, so the scoped rule is retained."@,
        )
    } else {
        None
    }
}

/// The message for a rule that an open template surface retains under the
/// caller's code.
pub fn vue_retention_warning(code: &str) -> (result: Result<String, String>)
    ensures
        match retention_message(code@) {
            Some(model) => result matches Ok(message) && message@ == model,
            None => result matches Err(message) && message@ == "Unknown Vue retention code: "@ + code@,
        },
{
    if same(code, "dynamic-template-class") {
        Ok(
            "A dynamic class binding makes the template's class set unprovable, so the scoped rule is retained.".to_owned(),
        )
    } else if same(code, "component-class-target") {
        Ok(
            "A child component's root element can carry classes this scoped rule matches, so it is retained.".to_owned(),
        )
    } else if same(code, "open-root-fallthrough") {
        Ok(
            "A parent component can merge classes onto the single root element, so the scoped rule is retained.".to_owned(),
        )
    } else {
        let mut message = "Unknown Vue retention code: ".to_owned();
        message.append(code);
        Err(message)
    }
}

// ---------------------------------------------------------------------------
// Finishing a component
// ---------------------------------------------------------------------------

/// Behind one line break at the offset.
pub open spec fn behind_break(source: Seq<char>, offset: int) -> int {
    let behind = if byte_at(source, offset, 13u8) {
        offset + 1
    } else {
        offset
    };
    if byte_at(source, behind, 10u8) {
        behind + 1
    } else {
        behind
    }
}

fn skip_break(source: &str, offset: usize) -> (result: usize)
    ensures
        result == behind_break(source@, offset as int),
{
    let behind = if has_byte_at(source, offset, 13u8) {
        offset + 1
    } else {
        offset
    };
    if has_byte_at(source, behind, 10u8) {
        behind + 1
    } else {
        behind
    }
}

/// What is done with one block.
pub enum BlockFate {
    Kept,
    Removed(EditModel),
    Halted(HaltModel),
}

/// What happens to a block whose content now reads as in `view`.
pub open spec fn block_fate(
    parses: Seq<ParseModel>,
    css_source: Seq<char>,
    original: BlockModel,
    block: BlockModel,
    view: Seq<char>,
    source: Seq<char>,
    validate: bool,
) -> BlockFate {
    match (
        cut(css_source, original.content_start, original.content_end),
        cut(view, block.content_start, block.content_end),
    ) {
        (Some(before), Some(content)) => if blank(before, Separator::Whitespace) || !blank(
            content,
            Separator::Whitespace,
        ) {
            if validate {
                match validated(parses, content, block.syntax) {
                    Ok(_) => BlockFate::Kept,
                    Err(halt) => BlockFate::Halted(halt),
                }
            } else {
                BlockFate::Kept
            }
        } else {
            BlockFate::Removed(
                EditModel {
                    start: block.outer_start,
                    end: behind_break(source, block.outer_end),
                    replacement: seq![],
                },
            )
        },
        _ => BlockFate::Halted(failed("Invalid Vue style block span"@)),
    }
}

/// The edits that remove the blocks among the first `n` whose CSS is gone.
pub open spec fn removals(
    parses: Seq<ParseModel>,
    sheet: SheetModel,
    blocks: Seq<BlockModel>,
    view: Seq<char>,
    source: Seq<char>,
    validate: bool,
    n: int,
) -> Result<Seq<EditModel>, HaltModel>
    decreases n,
{
    if n <= 0 {
        Ok(seq![])
    } else {
        match removals(parses, sheet, blocks, view, source, validate, n - 1) {
            Err(halt) => Err(halt),
            Ok(before) => match block_fate(
                parses,
                sheet.css_source,
                sheet.vue_blocks[n - 1],
                blocks[n - 1],
                view,
                source,
                validate,
            ) {
                BlockFate::Kept => Ok(before),
                BlockFate::Removed(edit) => Ok(before.push(edit)),
                BlockFate::Halted(halt) => Err(halt),
            },
        }
    }
}

proof fn lemma_removals_halt(
    parses: Seq<ParseModel>,
    sheet: SheetModel,
    blocks: Seq<BlockModel>,
    view: Seq<char>,
    source: Seq<char>,
    validate: bool,
    k: int,
    n: int,
)
    requires
        0 <= k <= n,
        removals(parses, sheet, blocks, view, source, validate, k) is Err,
    ensures
        removals(parses, sheet, blocks, view, source, validate, n) == removals(
            parses,
            sheet,
            blocks,
            view,
            source,
            validate,
            k,
        ),
    decreases n - k,
{
    if k < n {
        lemma_removals_halt(parses, sheet, blocks, view, source, validate, k, n - 1);
    }
}

/// Removal edits for blocks whose CSS the migration emptied entirely, each
/// swallowing one trailing line break so no blank line is left behind.
/// `content_view` supplies the block contents (the masked copy for plain-CSS
/// blocks); kept blocks are validated when `validate_kept` is set.
pub fn emptied_block_removals(
    parses: &Vec<Parse>,
    sheet: &BatchStylesheet,
    blocks: &Vec<VueBlock>,
    content_view: &str,
    source: &str,
    validate_kept: bool,
) -> (result: Result<Vec<Edit>, Halt>)
    requires
        blocks@.len() == sheet.vue_blocks@.len(),
    ensures
        match removals(
            views(parses@),
            sheet@,
            views(blocks@),
            content_view@,
            source@,
            validate_kept,
            blocks@.len() as int,
        ) {
            Ok(model) => result matches Ok(edits) && views(edits@) == model,
            Err(model) => result matches Err(halt) && halt@ == model,
        },
{
    let mut edits: Vec<Edit> = Vec::new();
    assert(views(edits@) =~= Seq::empty());
    let mut n: usize = 0;
    while n < blocks.len()
        invariant
            n <= blocks@.len(),
            blocks@.len() == sheet.vue_blocks@.len(),
            removals(
                views(parses@),
                sheet@,
                views(blocks@),
                content_view@,
                source@,
                validate_kept,
                n as int,
            ) == Ok::<Seq<EditModel>, HaltModel>(views(edits@)),
        decreases blocks.len() - n,
    {
        let block = &blocks[n];
        let original = &sheet.vue_blocks[n];
        assert(views(blocks@)[n as int] == block@);
        assert(sheet@.vue_blocks[n as int] == original@);
        let before = copy_cut(sheet.css_source.as_str(), original.content_start, original.content_end);
        let content = copy_cut(content_view, block.content_start, block.content_end);
        let halt = match (before, content) {
            (Some(before), Some(content)) => {
                if is_blank(before.as_str(), Separator::Whitespace) || !is_blank(
                    content.as_str(),
                    Separator::Whitespace,
                ) {
                    if validate_kept {
                        match validate_stylesheet(parses, content.as_str(), block.syntax) {
                            Ok(_) => None,
                            Err(halt) => Some(halt),
                        }
                    } else {
                        None
                    }
                } else {
                    let ghost known = edits@;
                    let removal = Edit::removal(block.outer_start, skip_break(source, block.outer_end));
                    edits.push(removal);
                    assert(views(edits@) =~= views(known).push(removal@));
                    None
                }
            },
            _ => Some(fail("Invalid Vue style block span".to_owned())),
        };
        if let Some(halt) = halt {
            proof {
                lemma_removals_halt(
                    views(parses@),
                    sheet@,
                    views(blocks@),
                    content_view@,
                    source@,
                    validate_kept,
                    n + 1,
                    blocks@.len() as int,
                );
            }
            return Err(halt);
        }
        n += 1;
    }
    Ok(edits)
}

/// What a component becomes, and the rounds of edits that it went through.
pub struct Finished {
    pub source: String,
    pub edit_batches: Vec<Vec<Edit>>,
}

/// The model of [`Finished`].
pub struct FinishedModel {
    pub source: Seq<char>,
    pub edit_batches: Seq<Seq<EditModel>>,
}

impl View for Finished {
    type V = FinishedModel;

    open spec fn view(&self) -> FinishedModel {
        FinishedModel { source: self.source@, edit_batches: rounds(self.edit_batches@) }
    }
}

/// An application of edits that may fail.
pub open spec fn edited(source: Seq<char>, edits: Seq<EditModel>) -> Result<Seq<char>, HaltModel> {
    match applied(source, edits) {
        Ok(text) => Ok(text),
        Err(message) => Err(failed(message)),
    }
}

fn edit_text(source: &str, edits: &Vec<Edit>) -> (result: Result<String, Halt>)
    ensures
        match edited(source@, views(edits@)) {
            Ok(model) => result matches Ok(text) && text@ == model,
            Err(model) => result matches Err(halt) && halt@ == model,
        },
{
    match apply_edits(source, edits) {
        Ok(text) => Ok(text),
        Err(message) => Err(fail(message)),
    }
}

/// A preprocessor component behind the edits.
pub open spec fn finished_preprocessor(parses: Seq<ParseModel>, sheet: SheetModel, edits: Seq<EditModel>) -> Result<
    FinishedModel,
    HaltModel,
> {
    let first = sorted(edits);
    let blocks = shifted_blocks(first, sheet.vue_blocks);
    match edited(sheet.css_source, first) {
        Err(halt) => Err(halt),
        Ok(source) => match removals(parses, sheet, blocks, source, source, true, blocks.len() as int) {
            Err(halt) => Err(halt),
            Ok(gone) => if gone.len() == 0 {
                Ok(FinishedModel { source, edit_batches: seq![first] })
            } else {
                match edited(source, gone) {
                    Err(halt) => Err(halt),
                    Ok(rest) => Ok(FinishedModel { source: rest, edit_batches: seq![first, gone] }),
                }
            },
        },
    }
}

fn push_round(list: &mut Vec<Vec<Edit>>, round: Vec<Edit>)
    ensures
        rounds(final(list)@) == rounds(old(list)@).push(views(round@)),
{
    let ghost before = list@;
    list.push(round);
    assert(rounds(list@) =~= rounds(before).push(views(round@)));
}

/// What a component with preprocessor blocks becomes.
pub fn finish_vue_preprocessor_stylesheet(parses: &Vec<Parse>, sheet: &BatchStylesheet, edits: &Vec<Edit>) -> (result:
    Result<Finished, Halt>)
    ensures
        match finished_preprocessor(views(parses@), sheet@, views(edits@)) {
            Ok(model) => result matches Ok(finished) && finished@ == model,
            Err(model) => result matches Err(halt) && halt@ == model,
        },
{
    let first = sort_edits(edits);
    let mut blocks = duplicate_all(&sheet.vue_blocks);
    shift_blocks(&mut blocks, &first);
    assert(views(blocks@).len() == blocks@.len());
    let source = match edit_text(sheet.css_source.as_str(), &first) {
        Ok(source) => source,
        Err(halt) => {
            return Err(halt);
        },
    };
    let gone = match emptied_block_removals(parses, sheet, &blocks, source.as_str(), source.as_str(), true) {
        Ok(gone) => gone,
        Err(halt) => {
            return Err(halt);
        },
    };
    let mut batches: Vec<Vec<Edit>> = Vec::new();
    let ghost first_model = views(first@);
    let ghost gone_model = views(gone@);
    assert(gone_model.len() == gone@.len());
    assert(rounds(batches@) =~= Seq::empty());
    push_round(&mut batches, first);
    assert(rounds(batches@) =~= seq![first_model]);
    if gone.len() == 0 {
        return Ok(Finished { source, edit_batches: batches });
    }
    match edit_text(source.as_str(), &gone) {
        Err(halt) => Err(halt),
        Ok(rest) => {
            push_round(&mut batches, gone);
            assert(rounds(batches@) =~= seq![first_model, gone_model]);
            Ok(Finished { source: rest, edit_batches: batches })
        },
    }
}

/// The edit lies in the content of a block.
pub open spec fn edits_content(blocks: Seq<BlockModel>, edit: EditModel) -> bool {
    exists|i: int|
        0 <= i < blocks.len() && edit.start >= (#[trigger] blocks[i]).content_start && edit.end
            <= blocks[i].content_end
}

/// What an edit does to the masked copy: template replacements must not leak
/// into the masked CSS view, so whitespace of the same length stands for them.
pub open spec fn masked_edit(blocks: Seq<BlockModel>, edit: EditModel) -> EditModel {
    EditModel {
        replacement: if edits_content(blocks, edit) {
            edit.replacement
        } else {
            spaces(byte_len(edit.replacement))
        },
        ..edit
    }
}

/// What the edits do to the masked copy.
pub open spec fn masked_edits(blocks: Seq<BlockModel>, edits: Seq<EditModel>) -> Seq<EditModel> {
    edits.map_values(|edit: EditModel| masked_edit(blocks, edit))
}

fn does_edit_content(blocks: &Vec<VueBlock>, edit: &Edit) -> (result: bool)
    ensures
        result == edits_content(views(blocks@), edit@),
{
    let mut i: usize = 0;
    while i < blocks.len()
        invariant
            i <= blocks@.len(),
            forall|j: int|
                0 <= j < i ==> !(edit.start >= (#[trigger] views(blocks@)[j]).content_start && edit.end
                    <= views(blocks@)[j].content_end),
        decreases blocks.len() - i,
    {
        assert(views(blocks@)[i as int] == blocks@[i as int]@);
        if edit.start >= blocks[i].content_start && edit.end <= blocks[i].content_end {
            return true;
        }
        i += 1;
    }
    false
}

fn mask_edits(blocks: &Vec<VueBlock>, edits: &Vec<Edit>) -> (result: Vec<Edit>)
    ensures
        views(result@) == masked_edits(views(blocks@), views(edits@)),
{
    let ghost goal = masked_edits(views(blocks@), views(edits@));
    let mut result: Vec<Edit> = Vec::new();
    let mut i: usize = 0;
    while i < edits.len()
        invariant
            i <= edits@.len(),
            goal == masked_edits(views(blocks@), views(edits@)),
            goal.len() == edits@.len(),
            views(result@) == goal.take(i as int),
        decreases edits.len() - i,
    {
        let edit = &edits[i];
        assert(views(edits@)[i as int] == edit@);
        let replacement = if does_edit_content(blocks, edit) {
            copy(edit.replacement.as_str())
        } else {
            let mut gap = String::new();
            push_spaces(&mut gap, edit.replacement.as_str().as_bytes().len());
            assert(gap@ =~= spaces(byte_len(edit.replacement@)));
            gap
        };
        let ghost before = result@;
        result.push(Edit { start: edit.start, end: edit.end, replacement });
        assert(views(result@) =~= views(before).push(goal[i as int]));
        i += 1;
        assert(views(result@) =~= goal.take(i as int));
    }
    assert(goal.take(i as int) =~= goal);
    result
}

/// Spans behind a round of edits (in order).
pub open spec fn shifted_spans(edits: Seq<EditModel>, spans: Seq<(int, int)>) -> Seq<(int, int)> {
    spans.map_values(|span: (int, int)| (shifted(edits, span.0), shifted(edits, span.1)))
}

/// The spans of edits.
pub open spec fn edit_spans(edits: Seq<EditModel>) -> Seq<(int, int)> {
    edits.map_values(|edit: EditModel| (edit.start, edit.end))
}

/// The edits among the first `n` whose spans are not among `spans`.
pub open spec fn without_spans(edits: Seq<EditModel>, spans: Seq<(int, int)>, n: int) -> Seq<EditModel>
    decreases n,
{
    if n <= 0 {
        seq![]
    } else if spans.contains((edits[n - 1].start, edits[n - 1].end)) {
        without_spans(edits, spans, n - 1)
    } else {
        without_spans(edits, spans, n - 1).push(edits[n - 1])
    }
}

pub open spec fn span_ints(list: Seq<(usize, usize)>) -> Seq<(int, int)> {
    list.map_values(|span: (usize, usize)| (span.0 as int, span.1 as int))
}

fn shift_spans(spans: &Vec<(usize, usize)>, edits: &Vec<Edit>) -> (result: Vec<(usize, usize)>)
    ensures
        span_ints(result@) == shifted_spans(views(edits@), span_ints(spans@)),
{
    let ghost goal = shifted_spans(views(edits@), span_ints(spans@));
    let mut result: Vec<(usize, usize)> = Vec::new();
    let mut i: usize = 0;
    while i < spans.len()
        invariant
            i <= spans@.len(),
            goal == shifted_spans(views(edits@), span_ints(spans@)),
            goal.len() == spans@.len(),
            span_ints(result@) == goal.take(i as int),
        decreases spans.len() - i,
    {
        let span = spans[i];
        assert(span_ints(spans@)[i as int] == (span.0 as int, span.1 as int));
        let ghost before = result@;
        result.push((shift_offset(edits, span.0), shift_offset(edits, span.1)));
        assert(span_ints(result@) =~= span_ints(before).push(goal[i as int]));
        i += 1;
        assert(span_ints(result@) =~= goal.take(i as int));
    }
    assert(goal.take(i as int) =~= goal);
    result
}

fn get_edit_spans(edits: &Vec<Edit>) -> (result: Vec<(usize, usize)>)
    ensures
        span_ints(result@) == edit_spans(views(edits@)),
{
    let ghost goal = edit_spans(views(edits@));
    let mut result: Vec<(usize, usize)> = Vec::new();
    let mut i: usize = 0;
    while i < edits.len()
        invariant
            i <= edits@.len(),
            goal == edit_spans(views(edits@)),
            goal.len() == edits@.len(),
            span_ints(result@) == goal.take(i as int),
        decreases edits.len() - i,
    {
        assert(views(edits@)[i as int] == edits@[i as int]@);
        let ghost before = result@;
        result.push((edits[i].start, edits[i].end));
        assert(span_ints(result@) =~= span_ints(before).push(goal[i as int]));
        i += 1;
        assert(span_ints(result@) =~= goal.take(i as int));
    }
    assert(goal.take(i as int) =~= goal);
    result
}

fn has_span(spans: &Vec<(usize, usize)>, span: (usize, usize)) -> (result: bool)
    ensures
        result == span_ints(spans@).contains((span.0 as int, span.1 as int)),
{
    let mut i: usize = 0;
    while i < spans.len()
        invariant
            i <= spans@.len(),
            forall|j: int| 0 <= j < i ==> #[trigger] span_ints(spans@)[j] != (span.0 as int, span.1 as int),
        decreases spans.len() - i,
    {
        assert(span_ints(spans@)[i as int] == (spans@[i as int].0 as int, spans@[i as int].1 as int));
        if spans[i].0 == span.0 && spans[i].1 == span.1 {
            return true;
        }
        i += 1;
    }
    false
}

fn drop_spans(edits: &Vec<Edit>, spans: &Vec<(usize, usize)>) -> (result: Vec<Edit>)
    ensures
        views(result@) == without_spans(views(edits@), span_ints(spans@), edits@.len() as int),
{
    let mut result: Vec<Edit> = Vec::new();
    assert(views(result@) =~= Seq::empty());
    let mut n: usize = 0;
    while n < edits.len()
        invariant
            n <= edits@.len(),
            views(result@) == without_spans(views(edits@), span_ints(spans@), n as int),
        decreases edits.len() - n,
    {
        let edit = &edits[n];
        assert(views(edits@)[n as int] == edit@);
        if !has_span(spans, (edit.start, edit.end)) {
            let ghost before = result@;
            result.push(edit.copy());
            assert(views(result@) =~= views(before).push(edit@));
        }
        n += 1;
    }
    result
}

/// A component while conditional at-rules that the migration emptied are
/// removed.
pub struct ProgressModel {
    pub source: Seq<char>,
    pub masked: Seq<char>,
    pub blocks: Seq<BlockModel>,
    /// The conditional at-rules that were empty in the authored source.
    pub empty: Seq<(int, int)>,
    pub edit_batches: Seq<Seq<EditModel>>,
}

/// The component once no conditional at-rule is left that the migration
/// emptied.
pub open spec fn settled(parses: Seq<ParseModel>, conditionals: ConditionalModels, at: ProgressModel) -> Result<
    ProgressModel,
    HaltModel,
>
    decreases byte_len(at.masked),
{
    match read_css(parses, at.masked, StylesheetSyntax::Css, ErrorKind::Planning, "Failed to parse edited CSS: "@) {
        Err(halt) => Err(halt),
        Ok(tree) => {
            let found = sheet_emptied(conditionals, tree);
            let edits = sorted(without_spans(found, at.empty, found.len() as int));
            if edits.len() == 0 {
                Ok(at)
            } else {
                match (edited(at.source, edits), edited(at.masked, edits)) {
                    (Err(halt), _) => Err(halt),
                    (_, Err(halt)) => Err(halt),
                    (Ok(source), Ok(masked)) => {
                        let next = ProgressModel {
                            source,
                            masked,
                            blocks: shifted_blocks(edits, at.blocks),
                            empty: shifted_spans(edits, at.empty),
                            edit_batches: at.edit_batches.push(edits),
                        };
                        if byte_len(masked) < byte_len(at.masked) {
                            settled(parses, conditionals, next)
                        } else {
                            Ok(next)
                        }
                    },
                }
            }
        },
    }
}

struct Progress {
    source: String,
    masked: String,
    blocks: Vec<VueBlock>,
    empty: Vec<(usize, usize)>,
    edit_batches: Vec<Vec<Edit>>,
}

impl View for Progress {
    type V = ProgressModel;

    closed spec fn view(&self) -> ProgressModel {
        ProgressModel {
            source: self.source@,
            masked: self.masked@,
            blocks: views(self.blocks@),
            empty: span_ints(self.empty@),
            edit_batches: rounds(self.edit_batches@),
        }
    }
}

fn settle(parses: &Vec<Parse>, conditionals: &Conditionals, at: Progress) -> (result: Result<Progress, Halt>)
    ensures
        match settled(views(parses@), pairs_of(conditionals@), at@) {
            Ok(model) => result matches Ok(progress) && progress@ == model,
            Err(model) => result matches Err(halt) && halt@ == model,
        },
        result matches Ok(progress) ==> progress.blocks@.len() == at.blocks@.len(),
    decreases byte_len(at.masked@),
{
    let tree = match parse_css(parses, at.masked.as_str(), StylesheetSyntax::Css, ErrorKind::Planning, "Failed to parse edited CSS: ") {
        Ok(tree) => tree,
        Err(halt) => {
            return Err(halt);
        },
    };
    let found = find_empty_conditionals(conditionals, tree);
    assert(views(found@).len() == found@.len());
    let edits = sort_edits(&drop_spans(&found, &at.empty));
    assert(views(edits@).len() == edits@.len());
    if edits.len() == 0 {
        return Ok(at);
    }
    let source = match edit_text(at.source.as_str(), &edits) {
        Ok(source) => source,
        Err(halt) => {
            return Err(halt);
        },
    };
    let masked = match edit_text(at.masked.as_str(), &edits) {
        Ok(masked) => masked,
        Err(halt) => {
            return Err(halt);
        },
    };
    let shorter = masked.as_str().as_bytes().len() < at.masked.as_str().as_bytes().len();
    let ghost start = at@;
    let mut blocks = at.blocks;
    shift_blocks(&mut blocks, &edits);
    let empty = shift_spans(&at.empty, &edits);
    let mut edit_batches = at.edit_batches;
    push_round(&mut edit_batches, edits);
    let next = Progress { source, masked, blocks, empty, edit_batches };
    if shorter {
        settle(parses, conditionals, next)
    } else {
        Ok(next)
    }
}

/// Some block is written in a preprocessor language.
pub open spec fn preprocessed(blocks: Seq<BlockModel>) -> bool {
    exists|i: int| 0 <= i < blocks.len() && (#[trigger] blocks[i]).syntax != StylesheetSyntax::Css
}

fn is_preprocessed(blocks: &Vec<VueBlock>) -> (result: bool)
    ensures
        result == preprocessed(views(blocks@)),
{
    let mut i: usize = 0;
    while i < blocks.len()
        invariant
            i <= blocks@.len(),
            forall|j: int| 0 <= j < i ==> (#[trigger] views(blocks@)[j]).syntax == StylesheetSyntax::Css,
        decreases blocks.len() - i,
    {
        assert(views(blocks@)[i as int] == blocks@[i as int]@);
        if blocks[i].syntax != StylesheetSyntax::Css {
            return true;
        }
        i += 1;
    }
    false
}

/// The component behind the first round of edits.
pub open spec fn started(
    parses: Seq<ParseModel>,
    conditionals: ConditionalModels,
    sheet: SheetModel,
    masked: Seq<char>,
    edits: Seq<EditModel>,
) -> Result<ProgressModel, HaltModel> {
    match read_css(parses, masked, StylesheetSyntax::Css, ErrorKind::Planning, "Failed to parse edited CSS: "@) {
        Err(halt) => Err(halt),
        Ok(tree) => match (edited(sheet.css_source, edits), edited(masked, masked_edits(sheet.vue_blocks, edits))) {
            (Err(halt), _) => Err(halt),
            (_, Err(halt)) => Err(halt),
            (Ok(source), Ok(hidden)) => Ok(
                ProgressModel {
                    source,
                    masked: hidden,
                    blocks: shifted_blocks(edits, sheet.vue_blocks),
                    empty: shifted_spans(edits, edit_spans(sheet_emptied(conditionals, tree))),
                    edit_batches: seq![edits],
                },
            ),
        },
    }
}

/// The component without the blocks whose CSS is gone.
pub open spec fn concluded(parses: Seq<ParseModel>, sheet: SheetModel, at: ProgressModel) -> Result<
    FinishedModel,
    HaltModel,
> {
    match removals(parses, sheet, at.blocks, at.masked, at.source, false, at.blocks.len() as int) {
        Err(halt) => Err(halt),
        Ok(gone) => if gone.len() == 0 {
            match validated(parses, at.masked, StylesheetSyntax::Css) {
                Err(halt) => Err(halt),
                Ok(_) => Ok(FinishedModel { source: at.source, edit_batches: at.edit_batches }),
            }
        } else {
            match (edited(at.source, gone), edited(at.masked, gone)) {
                (Err(halt), _) => Err(halt),
                (_, Err(halt)) => Err(halt),
                (Ok(source), Ok(hidden)) => match validated(parses, hidden, StylesheetSyntax::Css) {
                    Err(halt) => Err(halt),
                    Ok(_) => Ok(FinishedModel { source, edit_batches: at.edit_batches.push(gone) }),
                },
            }
        },
    }
}

/// The component behind the edits.
pub open spec fn finished_vue(
    parses: Seq<ParseModel>,
    conditionals: ConditionalModels,
    sheet: SheetModel,
    masked: Seq<char>,
    edits: Seq<EditModel>,
) -> Result<FinishedModel, HaltModel> {
    if preprocessed(sheet.vue_blocks) {
        finished_preprocessor(parses, sheet, edits)
    } else {
        match started(parses, conditionals, sheet, masked, sorted(edits)) {
            Err(halt) => Err(halt),
            Ok(at) => match settled(parses, conditionals, at) {
                Err(halt) => Err(halt),
                Ok(at) => concluded(parses, sheet, at),
            },
        }
    }
}

fn start(
    parses: &Vec<Parse>,
    conditionals: &Conditionals,
    sheet: &BatchStylesheet,
    masked: &str,
    edits: Vec<Edit>,
) -> (result: Result<Progress, Halt>)
    ensures
        match started(views(parses@), pairs_of(conditionals@), sheet@, masked@, views(edits@)) {
            Ok(model) => result matches Ok(progress) && progress@ == model,
            Err(model) => result matches Err(halt) && halt@ == model,
        },
        result matches Ok(progress) ==> progress.blocks@.len() == sheet.vue_blocks@.len(),
{
    let tree = match parse_css(parses, masked, StylesheetSyntax::Css, ErrorKind::Planning, "Failed to parse edited CSS: ") {
        Ok(tree) => tree,
        Err(halt) => {
            return Err(halt);
        },
    };
    let source = match edit_text(sheet.css_source.as_str(), &edits) {
        Ok(source) => source,
        Err(halt) => {
            return Err(halt);
        },
    };
    let hidden = match edit_text(masked, &mask_edits(&sheet.vue_blocks, &edits)) {
        Ok(hidden) => hidden,
        Err(halt) => {
            return Err(halt);
        },
    };
    let mut blocks = duplicate_all(&sheet.vue_blocks);
    shift_blocks(&mut blocks, &edits);
    let empty = shift_spans(&get_edit_spans(&find_empty_conditionals(conditionals, tree)), &edits);
    let mut edit_batches: Vec<Vec<Edit>> = Vec::new();
    let ghost model = views(edits@);
    assert(rounds(edit_batches@) =~= Seq::empty());
    push_round(&mut edit_batches, edits);
    assert(rounds(edit_batches@) =~= seq![model]);
    Ok(Progress { source, masked: hidden, blocks, empty, edit_batches })
}

fn conclude(parses: &Vec<Parse>, sheet: &BatchStylesheet, at: Progress) -> (result: Result<Finished, Halt>)
    requires
        at.blocks@.len() == sheet.vue_blocks@.len(),
    ensures
        match concluded(views(parses@), sheet@, at@) {
            Ok(model) => result matches Ok(finished) && finished@ == model,
            Err(model) => result matches Err(halt) && halt@ == model,
        },
{
    assert(at@.blocks.len() == at.blocks@.len());
    let gone = match emptied_block_removals(
        parses,
        sheet,
        &at.blocks,
        at.masked.as_str(),
        at.source.as_str(),
        false,
    ) {
        Ok(gone) => gone,
        Err(halt) => {
            return Err(halt);
        },
    };
    assert(views(gone@).len() == gone@.len());
    if gone.len() == 0 {
        return match validate_stylesheet(parses, at.masked.as_str(), StylesheetSyntax::Css) {
            Err(halt) => Err(halt),
            Ok(_) => Ok(Finished { source: at.source, edit_batches: at.edit_batches }),
        };
    }
    let source = match edit_text(at.source.as_str(), &gone) {
        Ok(source) => source,
        Err(halt) => {
            return Err(halt);
        },
    };
    let hidden = match edit_text(at.masked.as_str(), &gone) {
        Ok(hidden) => hidden,
        Err(halt) => {
            return Err(halt);
        },
    };
    match validate_stylesheet(parses, hidden.as_str(), StylesheetSyntax::Css) {
        Err(halt) => Err(halt),
        Ok(_) => {
            let mut edit_batches = at.edit_batches;
            push_round(&mut edit_batches, gone);
            Ok(Finished { source, edit_batches })
        },
    }
}

/// Apply the merged template and scoped-block edits to a `.vue` source, drop
/// conditional at-rules emptied by rule removal, delete blocks whose CSS is
/// gone entirely, and validate that the remaining scoped CSS still parses. The
/// masked copy stays byte-aligned with the real source throughout so
/// masked-domain spans remain valid for both. Conditionals that were already
/// empty in the authored source are untouched user bytes and survive.
pub fn finish_vue_stylesheet(
    parses: &Vec<Parse>,
    conditionals: &Conditionals,
    sheet: &BatchStylesheet,
    masked: &str,
    edits: &Vec<Edit>,
) -> (result: Result<Finished, Halt>)
    ensures
        match finished_vue(views(parses@), pairs_of(conditionals@), sheet@, masked@, views(edits@)) {
            Ok(model) => result matches Ok(finished) && finished@ == model,
            Err(model) => result matches Err(halt) && halt@ == model,
        },
{
    if is_preprocessed(&sheet.vue_blocks) {
        return finish_vue_preprocessor_stylesheet(parses, sheet, edits);
    }
    match start(parses, conditionals, sheet, masked, sort_edits(edits)) {
        Err(halt) => Err(halt),
        Ok(at) => match settle(parses, conditionals, at) {
            Err(halt) => Err(halt),
            Ok(at) => conclude(parses, sheet, at),
        },
    }
}

} // verus!
