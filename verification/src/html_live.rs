//! Finding attribute sites again after earlier edits.
//!
//! Offsets are byte offsets. An offset that would leave the range of `usize`
//! has no place, and neither has a span that is out of order; an edit whose
//! span is out of order removes nothing.
use crate::drift::Drift;
use crate::edit::{rounds, Edit, EditModel};
use crate::html_attribute::{
    appended_runtime_value, byte_before, byte_len, enclosing_quote, maybe_quote, runtime_value, single_quote,
};
use crate::source::{AttributeModel, ElementModel, HtmlAttribute, SourceFile, FileModel};
use crate::text::{
    begins, copy_cut, cut, from_chars, is_slice, lemma_bytes_concat, maybe, starts_with, strip_prefix, strip_suffix,
    to_chars, views, without_prefix, without_suffix,
};
use vstd::prelude::*;
use vstd::utf8::*;

verus! {

/// The edit replaces the site itself.
pub open spec fn same_span(edit: EditModel, attribute: AttributeModel) -> bool {
    edit.start == attribute.start && edit.end == attribute.end
}

/// The edit reaches into the site.
pub open spec fn intrudes(edit: EditModel, attribute: AttributeModel) -> bool {
    !same_span(edit, attribute) && edit.start < attribute.end && (edit.end > attribute.start || edit.start == edit.end)
}

/// How far the first `n` edits move the site.
pub open spec fn drift_before(edits: Seq<EditModel>, attribute: AttributeModel, n: int) -> int
    decreases n,
{
    if n <= 0 {
        0
    } else {
        drift_before(edits, attribute, n - 1) + if !same_span(edits[n - 1], attribute) && edits[n - 1].end
            <= attribute.start {
            edits[n - 1].growth()
        } else {
            0
        }
    }
}

/// The first edit from `i` on that replaces the site itself.
pub open spec fn exact_edit(edits: Seq<EditModel>, attribute: AttributeModel, i: int) -> Option<EditModel>
    decreases edits.len() - i,
{
    if i < 0 || i >= edits.len() {
        None
    } else if same_span(edits[i], attribute) {
        Some(edits[i])
    } else {
        exact_edit(edits, attribute, i + 1)
    }
}

/// `attribute` with its value between two offsets, if those are in range.
pub open spec fn placed(attribute: AttributeModel, start: int, value: Seq<char>, written: Seq<char>) -> Option<
    AttributeModel,
> {
    if start + byte_len(written) <= usize::MAX {
        Some(AttributeModel { start, end: start + byte_len(written), value, ..attribute })
    } else {
        None
    }
}

/// The content of the literal that quotes an object key.
pub open spec fn key_content(attribute: AttributeModel, replacement: Seq<char>, quote: char) -> Option<Seq<char>> {
    let quoted = if attribute.object_shorthand {
        match attribute.raw_value {
            Some(raw) => without_suffix(replacement, ": "@ + raw),
            None => None,
        }
    } else {
        Some(replacement)
    };
    match quoted {
        Some(quoted) => if quoted.len() >= 2 && quoted[0] == quote && quoted.last() == quote {
            Some(quoted.subrange(1, quoted.len() - 1))
        } else {
            None
        },
        None => None,
    }
}

/// The site once `replacement` was written over it.
pub open spec fn rewritten(attribute: AttributeModel, replacement: Seq<char>) -> Option<AttributeModel> {
    if attribute.synthetic {
        match without_prefix(replacement, " class=\""@) {
            Some(rest) => match without_suffix(rest, "\""@) {
                Some(value) => placed(
                    AttributeModel { synthetic: false, ..attribute },
                    attribute.start + byte_len(" class=\""@),
                    value,
                    value,
                ),
                None => None,
            },
            None => None,
        }
    } else {
        match maybe_quote(attribute.js_quote) {
            Some(quote) => if attribute.quote_key {
                match key_content(attribute, replacement, quote) {
                    Some(content) => match runtime_value(attribute, content, quote) {
                        Some(value) => placed(
                            AttributeModel {
                                raw_value: Some(content),
                                quote_key: false,
                                object_shorthand: false,
                                ..attribute
                            },
                            attribute.start + 1,
                            value,
                            content,
                        ),
                        None => None,
                    },
                    None => None,
                }
            } else {
                match runtime_value(attribute, replacement, quote) {
                    Some(value) => placed(
                        AttributeModel { raw_value: Some(replacement), ..attribute },
                        attribute.start,
                        value,
                        replacement,
                    ),
                    None => None,
                }
            },
            None => placed(attribute, attribute.start, replacement, replacement),
        }
    }
}

/// The site after one round of edits; nothing where an edit reaches into it.
pub open spec fn rebased(attribute: AttributeModel, edits: Seq<EditModel>) -> Option<AttributeModel> {
    let drift = drift_before(edits, attribute, edits.len() as int);
    let moved = AttributeModel { start: attribute.start + drift, end: attribute.end + drift, ..attribute };
    if exists|i: int| 0 <= i < edits.len() && intrudes(#[trigger] edits[i], attribute) {
        None
    } else if !(0 <= moved.start <= usize::MAX && 0 <= moved.end <= usize::MAX) {
        None
    } else {
        match exact_edit(edits, attribute, 0) {
            Some(edit) => rewritten(moved, edit.replacement),
            None => Some(moved),
        }
    }
}

/// The place of a value behind `start` bytes.
fn place_value(attribute: HtmlAttribute, start: usize, value: String, written: &str) -> (result: Option<HtmlAttribute>)
    ensures
        crate::text::maybe_view(result) == placed(attribute@, start as int, value@, written@),
{
    let length = written.as_bytes().len();
    match start.checked_add(length) {
        Some(end) => Some(HtmlAttribute { start, end, value, ..attribute }),
        None => None,
    }
}

fn get_key_content(attribute: &HtmlAttribute, replacement: &str, quote: char) -> (result: Option<String>)
    ensures
        maybe(result) == key_content(attribute@, replacement@, quote),
{
    let quoted = if attribute.object_shorthand {
        match &attribute.raw_value {
            Some(raw) => {
                let mut suffix = ": ".to_owned();
                suffix.append(raw.as_str());
                match strip_suffix(replacement, suffix.as_str()) {
                    Some(quoted) => quoted,
                    None => {
                        return None;
                    },
                }
            },
            None => {
                return None;
            },
        }
    } else {
        replacement.to_owned()
    };
    let chars = to_chars(quoted.as_str());
    let length = chars.len();
    if length >= 2 && chars[0] == quote && chars[length - 1] == quote {
        Some(from_chars(&chars, 1, length - 1))
    } else {
        None
    }
}

/// The site once `replacement` was written over it.
fn rewrite_attribute(attribute: HtmlAttribute, replacement: &str) -> (result: Option<HtmlAttribute>)
    ensures
        crate::text::maybe_view(result) == rewritten(attribute@, replacement@),
{
    if attribute.synthetic {
        let prefix = " class=\"";
        let rest = match strip_prefix(replacement, prefix) {
            Some(rest) => rest,
            None => {
                return None;
            },
        };
        let value = match strip_suffix(rest.as_str(), "\"") {
            Some(value) => value,
            None => {
                return None;
            },
        };
        let length = prefix.as_bytes().len();
        return match attribute.start.checked_add(length) {
            Some(start) => {
                let written = value.clone();
                place_value(HtmlAttribute { synthetic: false, ..attribute }, start, value, written.as_str())
            },
            None => None,
        };
    }
    let quote = match &attribute.js_quote {
        Some(quote) => single_quote(quote.as_str()),
        None => None,
    };
    match quote {
        None => {
            let start = attribute.start;
            place_value(attribute, start, replacement.to_owned(), replacement)
        },
        Some(quote) => if attribute.quote_key {
            let content = match get_key_content(&attribute, replacement, quote) {
                Some(content) => content,
                None => {
                    return None;
                },
            };
            let value = match appended_runtime_value(&attribute, content.as_str(), quote) {
                Some(value) => value,
                None => {
                    return None;
                },
            };
            match attribute.start.checked_add(1) {
                Some(start) => {
                    let written = content.clone();
                    place_value(
                        HtmlAttribute {
                            raw_value: Some(content),
                            quote_key: false,
                            object_shorthand: false,
                            ..attribute
                        },
                        start,
                        value,
                        written.as_str(),
                    )
                },
                None => None,
            }
        } else {
            let value = match appended_runtime_value(&attribute, replacement, quote) {
                Some(value) => value,
                None => {
                    return None;
                },
            };
            let start = attribute.start;
            place_value(
                HtmlAttribute { raw_value: Some(replacement.to_owned()), ..attribute },
                start,
                value,
                replacement,
            )
        },
    }
}

/// The site after one round of edits; nothing where an edit reaches into it.
pub fn rebase_attribute(attribute: HtmlAttribute, edits: &Vec<Edit>) -> (result: Option<HtmlAttribute>)
    ensures
        crate::text::maybe_view(result) == rebased(attribute@, views(edits@)),
{
    let mut drift = Drift::new();
    let mut exact: Option<usize> = None;
    let mut i: usize = 0;
    let count = edits.len();
    while i < count
        invariant
            i <= count == edits@.len(),
            drift.within(i as int),
            drift@ == drift_before(views(edits@), attribute@, i as int),
            forall|j: int| 0 <= j < i ==> !intrudes(#[trigger] views(edits@)[j], attribute@),
            match exact {
                Some(k) => k < i && exact_edit(views(edits@), attribute@, 0) == Some(edits@[k as int]@),
                None => exact_edit(views(edits@), attribute@, i as int) == exact_edit(views(edits@), attribute@, 0),
            },
        decreases count - i,
    {
        let edit = &edits[i];
        assert(views(edits@)[i as int] == edit@);
        let exactly = edit.start == attribute.start && edit.end == attribute.end;
        if !exactly && edit.start < attribute.end && (edit.end > attribute.start || edit.start == edit.end) {
            assert(intrudes(views(edits@)[i as int], attribute@));
            return None;
        }
        if exactly && exact.is_none() {
            exact = Some(i);
        }
        if !exactly && edit.end <= attribute.start {
            let removed: usize = if edit.start <= edit.end {
                edit.end - edit.start
            } else {
                0
            };
            drift.count(edit.replacement.as_str().as_bytes().len(), removed, Ghost(i as int));
        } else {
            drift.count(0, 0, Ghost(i as int));
        }
        i += 1;
    }
    let start = match drift.place(attribute.start, Ghost(count as int)) {
        Some(start) => start,
        None => {
            return None;
        },
    };
    let end = match drift.place(attribute.end, Ghost(count as int)) {
        Some(end) => end,
        None => {
            return None;
        },
    };
    let moved = HtmlAttribute { start, end, ..attribute };
    match exact {
        Some(k) => rewrite_attribute(moved, edits[k].replacement.as_str()),
        None => Some(moved),
    }
}

/// A class attribute with nothing known of it but its place.
pub open spec fn bare(value: Seq<char>, start: int, end: int, synthetic: bool) -> AttributeModel {
    AttributeModel {
        value,
        start,
        end,
        synthetic,
        writable: true,
        raw_value: None,
        js_quote: None,
        html_quote: None,
        quote_key: false,
        object_shorthand: false,
    }
}

/// A class attribute with nothing known of it but its place.
pub fn bare_attribute(value: String, start: usize, end: usize, synthetic: bool) -> (result: HtmlAttribute)
    ensures
        result@ == bare(value@, start as int, end as int, synthetic),
{
    HtmlAttribute {
        value,
        start,
        end,
        synthetic,
        writable: true,
        raw_value: None,
        js_quote: None,
        html_quote: None,
        quote_key: false,
        object_shorthand: false,
    }
}

/// The text behind an offset.
pub open spec fn text_behind(source: Seq<char>, start: int) -> Option<Seq<char>> {
    cut(source, start, byte_len(source))
}

/// The first `"` at or behind the character `i`.
pub open spec fn closing_quote(text: Seq<char>, i: int) -> Option<int>
    decreases text.len() - i,
{
    if i < 0 || i >= text.len() {
        None
    } else if text[i] == '"' {
        Some(i)
    } else {
        closing_quote(text, i + 1)
    }
}

/// The class attribute that was inserted at `start`, with the number of bytes
/// inserted, or the place for one where none was inserted yet.
pub open spec fn live_synthetic(source: Seq<char>, start: int) -> Option<(AttributeModel, int)> {
    let prefix = " class=\""@;
    match text_behind(source, start) {
        None => None,
        Some(rest) => if !begins(rest, prefix) {
            Some((bare(seq![], start, start, true), 0))
        } else {
            match closing_quote(rest, prefix.len() as int) {
                None => None,
                Some(end) => {
                    let value = rest.subrange(prefix.len() as int, end);
                    let first = start + byte_len(prefix);
                    Some((bare(value, first, first + byte_len(value), false), byte_len(prefix) + byte_len(value) + 1))
                },
            }
        },
    }
}

proof fn lemma_closing_quote(text: Seq<char>, i: int)
    requires
        0 <= i,
    ensures
        closing_quote(text, i) matches Some(end) ==> i <= end < text.len() && text[end] == '"',
    decreases text.len() - i,
{
    if i < text.len() && text[i] != '"' {
        lemma_closing_quote(text, i + 1);
    }
}

/// The parts of a text take as many bytes as the text.
proof fn lemma_parts(text: Seq<char>, a: int, b: int)
    requires
        0 <= a <= b < text.len(),
    ensures
        byte_len(text.take(a)) + byte_len(text.subrange(a, b)) + 1 <= byte_len(text),
{
    let tail = text.skip(b);
    assert(text =~= text.take(a) + text.subrange(a, b) + tail);
    lemma_bytes_concat(text.take(a) + text.subrange(a, b), tail);
    lemma_bytes_concat(text.take(a), text.subrange(a, b));
    assert(tail.len() > 0);
    assert(encode_utf8(tail) == encode_scalar(tail[0] as u32) + encode_utf8(tail.drop_first()));
}

fn find_closing_quote(text: &Vec<char>, start: usize) -> (result: Option<usize>)
    ensures
        match result {
            Some(end) => closing_quote(text@, start as int) == Some(end as int),
            None => closing_quote(text@, start as int) is None,
        },
{
    let mut i: usize = start;
    while i < text.len()
        invariant
            start <= i,
            closing_quote(text@, i as int) == closing_quote(text@, start as int),
        decreases text.len() - i,
    {
        if text[i] == '"' {
            return Some(i);
        }
        i += 1;
    }
    None
}

/// The class attribute that was inserted at `start`, with the number of bytes
/// inserted, or the place for one where none was inserted yet.
pub fn live_synthetic_class(source: &str, start: usize) -> (result: Option<(HtmlAttribute, usize)>)
    ensures
        match result {
            Some(found) => live_synthetic(source@, start as int) == Some((found.0@, found.1 as int)),
            None => live_synthetic(source@, start as int) is None,
        },
{
    let prefix = " class=\"";
    let rest = match copy_cut(source, start, source.as_bytes().len()) {
        Some(rest) => rest,
        None => {
            return None;
        },
    };
    if !starts_with(rest.as_str(), prefix) {
        let empty = String::new();
        assert(empty@ =~= Seq::<char>::empty());
        return Some((bare_attribute(empty, start, start, true), 0));
    }
    let chars = to_chars(rest.as_str());
    let skipped = to_chars(prefix).len();
    match find_closing_quote(&chars, skipped) {
        None => None,
        Some(end) => {
            proof {
                lemma_closing_quote(rest@, skipped as int);
                lemma_parts(rest@, skipped as int, end as int);
                assert(rest@.take(skipped as int) =~= prefix@);
                encode_utf8_decode_utf8(rest@);
                encode_utf8_valid_utf8(source@);
                assert(encode_utf8(rest@).len() == byte_len(source@) - start) by {
                    lemma_cut_bytes(source@, start as int, byte_len(source@));
                }
            }
            let value = from_chars(&chars, skipped, end);
            let head = prefix.as_bytes().len();
            let length = value.as_str().as_bytes().len();
            let first = start + head;
            Some((bare_attribute(value, first, first + length, false), head + length + 1))
        },
    }
}

/// What is cut out of a text takes the bytes between the two offsets.
proof fn lemma_cut_bytes(text: Seq<char>, start: int, end: int)
    requires
        is_slice(encode_utf8(text), start, end),
    ensures
        cut(text, start, end) matches Some(part) && encode_utf8(part) == encode_utf8(text).subrange(start, end),
{
    let bytes = encode_utf8(text);
    encode_utf8_valid_utf8(text);
    valid_utf8_split(bytes, end);
    let prefix = bytes.subrange(0, end);
    if start == end {
        is_char_boundary_start_end_of_seq(prefix);
    } else {
        assert(prefix[start] == bytes[start]);
        is_char_boundary_iff_not_is_continuation_byte(bytes, start);
        is_char_boundary_iff_not_is_continuation_byte(prefix, start);
    }
    valid_utf8_split(prefix, start);
    assert(prefix.subrange(start, end) =~= bytes.subrange(start, end));
    decode_utf8_encode_utf8(bytes.subrange(start, end));
}

/// The byte ends an unquoted attribute value.
pub open spec fn ends_value(byte: u8) -> bool {
    byte == 0x20 || byte == 0x09 || byte == 0x0a || byte == 0x0c || byte == 0x0d || byte == 0x3e
}

/// The first byte at or behind `i` that is `stop`, or that ends an unquoted
/// value where there is no `stop`.
pub open spec fn stop_at(bytes: Seq<u8>, stop: Option<u8>, i: int) -> Option<int>
    decreases bytes.len() - i,
{
    if i < 0 || i >= bytes.len() {
        None
    } else if (match stop {
        Some(byte) => bytes[i] == byte,
        None => ends_value(bytes[i]),
    }) {
        Some(i)
    } else {
        stop_at(bytes, stop, i + 1)
    }
}

/// The byte of a quote.
pub open spec fn quote_byte(quote: Option<char>) -> Option<u8> {
    match quote {
        Some(quote) => Some(if quote == '"' {
            0x22u8
        } else {
            0x27u8
        }),
        None => None,
    }
}

/// Where the attribute value that starts at `start` ends.
pub open spec fn live_end(source: Seq<char>, start: int) -> Option<int> {
    let bytes = encode_utf8(source);
    let quote = enclosing_quote(byte_before(source, start));
    if !(0 <= start <= bytes.len()) || !is_char_boundary(bytes, start) {
        None
    } else {
        match stop_at(bytes, quote_byte(quote), start) {
            Some(end) => Some(end),
            None => if quote is Some {
                None
            } else {
                Some(bytes.len() as int)
            },
        }
    }
}

/// Where the attribute value that starts at `start` ends.
pub fn live_attribute_end(source: &str, start: usize) -> (result: Option<usize>)
    ensures
        match result {
            Some(end) => live_end(source@, start as int) == Some(end as int),
            None => live_end(source@, start as int) is None,
        },
{
    let bytes = source.as_bytes();
    if start > bytes.len() || !source.is_char_boundary(start) {
        return None;
    }
    let mut stop: Option<u8> = None;
    if start > 0 && (bytes[start - 1] == 0x22 || bytes[start - 1] == 0x27) {
        stop = Some(bytes[start - 1]);
    }
    let ghost quote = quote_byte(enclosing_quote(byte_before(source@, start as int)));
    assert(stop == quote);
    let mut i: usize = start;
    while i < bytes.len()
        invariant
            start <= i <= bytes@.len(),
            bytes@ == encode_utf8(source@),
            is_char_boundary(bytes@, start as int),
            stop == quote,
            quote == quote_byte(enclosing_quote(byte_before(source@, start as int))),
            stop_at(bytes@, quote, i as int) == stop_at(bytes@, quote, start as int),
        decreases bytes.len() - i,
    {
        let byte = bytes[i];
        let stops = match stop {
            Some(stop) => byte == stop,
            None => byte == 0x20 || byte == 0x09 || byte == 0x0a || byte == 0x0c || byte == 0x0d || byte == 0x3e,
        };
        if stops {
            return Some(i);
        }
        i += 1;
    }
    if stop.is_some() {
        None
    } else {
        Some(i)
    }
}

/// The site after the rounds of edits from `i` on.
pub open spec fn traced_site(attribute: AttributeModel, edits: Seq<Seq<EditModel>>, i: int) -> Option<AttributeModel>
    decreases edits.len() - i,
{
    if i < 0 || i >= edits.len() {
        Some(attribute)
    } else {
        match rebased(attribute, edits[i]) {
            Some(next) => traced_site(next, edits, i + 1),
            None => None,
        }
    }
}

/// The site after rounds of edits.
pub fn trace_attribute(attribute: &HtmlAttribute, edits: &Vec<Vec<Edit>>) -> (result: Option<HtmlAttribute>)
    ensures
        crate::text::maybe_view(result) == traced_site(attribute@, rounds(edits@), 0),
{
    let mut current = attribute.copy();
    let mut i: usize = 0;
    while i < edits.len()
        invariant
            i <= edits@.len(),
            traced_site(current@, rounds(edits@), i as int) == traced_site(attribute@, rounds(edits@), 0),
        decreases edits.len() - i,
    {
        assert(rounds(edits@)[i as int] == views(edits@[i as int]@));
        match rebase_attribute(current, &edits[i]) {
            Some(next) => {
                current = next;
            },
            None => {
                return None;
            },
        }
        i += 1;
    }
    Some(current)
}

/// A site with the offset at which it was authored.
pub type LiveModel = (int, AttributeModel);

/// The models of sites with the offsets at which they were authored.
pub open spec fn live_views(list: Seq<(usize, HtmlAttribute)>) -> Seq<LiveModel> {
    list.map_values(|entry: (usize, HtmlAttribute)| (entry.0 as int, entry.1@))
}

/// `list` with a writable attribute that the rounds of edits leave in place.
pub open spec fn with_site(list: Seq<LiveModel>, attribute: Option<AttributeModel>, edits: Seq<Seq<EditModel>>) -> Seq<
    LiveModel,
> {
    match attribute {
        Some(attribute) => if !attribute.writable {
            list
        } else {
            match traced_site(attribute, edits, 0) {
                Some(traced) => list.push((attribute.start, traced)),
                None => list,
            }
        },
        None => list,
    }
}

/// The writable sites of the first `n` elements.
pub open spec fn sites(elements: Seq<ElementModel>, edits: Seq<Seq<EditModel>>, n: int) -> Seq<LiveModel>
    decreases n,
{
    if n <= 0 {
        seq![]
    } else {
        with_site(
            with_site(sites(elements, edits, n - 1), elements[n - 1].class_attribute, edits),
            elements[n - 1].id_attribute,
            edits,
        )
    }
}

fn push_site(list: &mut Vec<(usize, HtmlAttribute)>, attribute: &Option<HtmlAttribute>, edits: &Vec<Vec<Edit>>)
    ensures
        live_views(final(list)@) == with_site(
            live_views(old(list)@),
            crate::text::maybe_view(*attribute),
            rounds(edits@),
        ),
{
    if let Some(attribute) = attribute {
        if attribute.writable {
            if let Some(traced) = trace_attribute(attribute, edits) {
                let ghost before = list@;
                let ghost model = traced@;
                list.push((attribute.start, traced));
                assert(live_views(list@) =~= live_views(before).push((attribute.start as int, model)));
            }
        }
    }
}

/// `list` (in order) with `entry` behind every site that does not start later.
pub open spec fn with_live(list: Seq<LiveModel>, entry: LiveModel) -> Seq<LiveModel>
    decreases list.len(),
{
    if list.len() == 0 || list.last().1.start <= entry.1.start {
        list.push(entry)
    } else {
        with_live(list.drop_last(), entry).push(list.last())
    }
}

/// The sites by where they start; sites with the same start keep their order.
pub open spec fn by_start(list: Seq<LiveModel>) -> Seq<LiveModel>
    decreases list.len(),
{
    if list.len() == 0 {
        seq![]
    } else {
        with_live(by_start(list.drop_last()), list.last())
    }
}

proof fn lemma_with_live(list: Seq<LiveModel>, entry: LiveModel, k: int)
    requires
        0 <= k <= list.len(),
        forall|j: int| k <= j < list.len() ==> (#[trigger] list[j]).1.start > entry.1.start,
        k > 0 ==> list[k - 1].1.start <= entry.1.start,
    ensures
        with_live(list, entry) == list.insert(k, entry),
    decreases list.len(),
{
    if k == list.len() {
        assert(list.insert(k, entry) =~= list.push(entry));
    } else {
        lemma_with_live(list.drop_last(), entry, k);
        assert(list.drop_last().insert(k, entry).push(list.last()) =~= list.insert(k, entry));
    }
}

fn sort_sites(list: Vec<(usize, HtmlAttribute)>) -> (result: Vec<(usize, HtmlAttribute)>)
    ensures
        live_views(result@) == by_start(live_views(list@)),
        result@.len() == list@.len(),
{
    let mut result: Vec<(usize, HtmlAttribute)> = Vec::new();
    let mut i: usize = 0;
    assert(live_views(result@) =~= by_start(live_views(list@).take(0)));
    while i < list.len()
        invariant
            i <= list@.len(),
            result@.len() == i,
            live_views(result@) == by_start(live_views(list@).take(i as int)),
        decreases list.len() - i,
    {
        let entry = (list[i].0, list[i].1.copy());
        let ghost model = (entry.0 as int, entry.1@);
        assert(live_views(list@)[i as int] == model);
        let mut k: usize = result.len();
        while k > 0 && result[k - 1].1.start > entry.1.start
            invariant
                k <= result@.len(),
                model.1.start == entry.1.start,
                forall|j: int| k <= j < result@.len() ==> (#[trigger] live_views(result@)[j]).1.start > model.1.start,
            decreases k,
        {
            k -= 1;
        }
        proof {
            lemma_with_live(live_views(result@), model, k as int);
            assert(live_views(list@).take(i + 1).drop_last() =~= live_views(list@).take(i as int));
        }
        let ghost before = result@;
        result.insert(k, entry);
        assert(live_views(result@) =~= live_views(before).insert(k as int, model));
        i += 1;
    }
    assert(live_views(list@).take(i as int) =~= live_views(list@));
    result
}

/// The site as it stands in `source` once everything before it has moved by
/// `drift`, with the drift behind it.
pub open spec fn live_site(source: Seq<char>, attribute: AttributeModel, drift: int) -> Option<(AttributeModel, int)> {
    let start = attribute.start + drift;
    if !(0 <= start <= usize::MAX) {
        None
    } else if attribute.synthetic {
        match live_synthetic(source, start) {
            Some(found) => Some((found.0, drift + found.1)),
            None => None,
        }
    } else if attribute.end < attribute.start {
        None
    } else {
        let end = if attribute.js_quote is Some {
            Some(start + (attribute.end - attribute.start))
        } else {
            live_end(source, start)
        };
        match end {
            None => None,
            Some(end) => match cut(source, start, end) {
                None => None,
                Some(raw) => Some(
                    (
                        AttributeModel {
                            value: if attribute.js_quote is Some {
                                attribute.value
                            } else {
                                raw
                            },
                            start,
                            end,
                            synthetic: false,
                            writable: true,
                            ..attribute
                        },
                        drift + (end - start) - (attribute.end - attribute.start),
                    ),
                ),
            },
        }
    }
}

/// `found` with the sites from `i` on as they stand in the source.
pub open spec fn live_from(
    source: Seq<char>,
    list: Seq<LiveModel>,
    i: int,
    drift: int,
    found: Seq<LiveModel>,
) -> Seq<LiveModel>
    decreases list.len() - i,
{
    if i < 0 || i >= list.len() {
        found
    } else {
        match live_site(source, list[i].1, drift) {
            Some(live) => live_from(source, list, i + 1, live.1, found.push((list[i].0, live.0))),
            None => live_from(source, list, i + 1, drift, found),
        }
    }
}

/// The writable sites of a file as they stand in its source, each with the
/// offset at which it was authored.
pub open spec fn live_sites(file: FileModel) -> Seq<LiveModel> {
    live_from(
        file.source,
        by_start(sites(file.html_elements, file.prior_edits, file.html_elements.len() as int)),
        0,
        0,
        seq![],
    )
}

/// The last site of the list that was authored at `start`.
pub open spec fn site_at(list: Seq<LiveModel>, start: int) -> Option<AttributeModel>
    decreases list.len(),
{
    if list.len() == 0 {
        None
    } else if list.last().0 == start {
        Some(list.last().1)
    } else {
        site_at(list.drop_last(), start)
    }
}

/// What placing one site yields: the site, and how many bytes it has more and
/// less than before.
fn place_site(source: &str, attribute: &HtmlAttribute, start: usize) -> (result: Option<(HtmlAttribute, usize, usize)>)
    ensures
        match result {
            Some(found) => live_site(source@, attribute@, start - attribute.start) == Some(
                (found.0@, start - attribute.start + found.1 - found.2),
            ),
            None => live_site(source@, attribute@, start - attribute.start) is None,
        },
{
    if attribute.synthetic {
        return match live_synthetic_class(source, start) {
            Some((live, inserted)) => Some((live, inserted, 0)),
            None => None,
        };
    }
    if attribute.end < attribute.start {
        return None;
    }
    let length = attribute.end - attribute.start;
    let end = if attribute.js_quote.is_some() {
        let total = source.as_bytes().len();
        if start > total || length > total - start {
            return None;
        }
        start + length
    } else {
        match live_attribute_end(source, start) {
            Some(end) => end,
            None => {
                return None;
            },
        }
    };
    match copy_cut(source, start, end) {
        None => None,
        Some(raw) => {
            let value = if attribute.js_quote.is_some() {
                attribute.value.clone()
            } else {
                raw
            };
            let copied = attribute.copy();
            Some((HtmlAttribute { value, start, end, synthetic: false, writable: true, ..copied }, end - start, length))
        },
    }
}

/// The writable sites of a file as they stand in its source, each with the
/// offset at which it was authored.
pub fn rebased_attributes(file: &SourceFile) -> (result: Vec<(usize, HtmlAttribute)>)
    ensures
        live_views(result@) == live_sites(file@),
{
    let mut list: Vec<(usize, HtmlAttribute)> = Vec::new();
    let mut n: usize = 0;
    assert(live_views(list@) =~= Seq::<LiveModel>::empty());
    while n < file.html_elements.len()
        invariant
            n <= file.html_elements@.len(),
            live_views(list@) == sites(file@.html_elements, file@.prior_edits, n as int),
        decreases file.html_elements.len() - n,
    {
        let element = &file.html_elements[n];
        assert(file@.html_elements[n as int] == element@);
        push_site(&mut list, &element.class_attribute, &file.prior_edits);
        push_site(&mut list, &element.id_attribute, &file.prior_edits);
        n += 1;
    }
    let ordered = sort_sites(list);
    let count = ordered.len();
    let mut found: Vec<(usize, HtmlAttribute)> = Vec::new();
    let mut drift = Drift::new();
    let mut i: usize = 0;
    assert(live_views(found@) =~= Seq::<LiveModel>::empty());
    while i < count
        invariant
            i <= count == ordered@.len(),
            drift.within(i as int),
            live_from(file@.source, live_views(ordered@), i as int, drift@, live_views(found@)) == live_sites(file@),
        decreases count - i,
    {
        let entry = &ordered[i];
        assert(live_views(ordered@)[i as int] == (entry.0 as int, entry.1@));
        let placed = match drift.place(entry.1.start, Ghost(i as int)) {
            Some(start) => place_site(file.source.as_str(), &entry.1, start),
            None => None,
        };
        match placed {
            Some((live, grown, shrunk)) => {
                let ghost before = found@;
                let ghost model = live@;
                found.push((entry.0, live));
                assert(live_views(found@) =~= live_views(before).push((entry.0 as int, model)));
                drift.count(grown, shrunk, Ghost(i as int));
            },
            None => {
                drift.count(0, 0, Ghost(i as int));
            },
        }
        i += 1;
    }
    found
}

/// The last site of the list that was authored at `start`.
pub fn find_site(list: &Vec<(usize, HtmlAttribute)>, start: usize) -> (result: Option<&HtmlAttribute>)
    ensures
        match result {
            Some(found) => site_at(live_views(list@), start as int) == Some(found@),
            None => site_at(live_views(list@), start as int) is None,
        },
{
    let mut n: usize = list.len();
    assert(live_views(list@).take(n as int) =~= live_views(list@));
    while n > 0
        invariant
            n <= list@.len(),
            site_at(live_views(list@).take(n as int), start as int) == site_at(live_views(list@), start as int),
        decreases n,
    {
        let ghost shorter = live_views(list@).take(n as int);
        assert(shorter.last() == (list@[n - 1].0 as int, list@[n - 1].1@));
        assert(shorter.drop_last() =~= live_views(list@).take(n - 1));
        if list[n - 1].0 == start {
            return Some(&list[n - 1].1);
        }
        n -= 1;
    }
    None
}

} // verus!
