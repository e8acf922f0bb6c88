//! Positions in a text: byte offsets, lines and UTF-16 columns, and words.
use crate::html_attribute::byte_len;
use crate::text::{lemma_bytes_concat, to_chars};
use vstd::prelude::*;
use vstd::utf8::*;

verus! {

/// How many UTF-16 code units a character takes.
pub open spec fn utf16_width(character: char) -> int {
    if (character as u32) < 0x10000 {
        1
    } else {
        2
    }
}

/// How many bytes a character takes in UTF-8.
pub open spec fn utf8_width(character: char) -> int {
    encode_scalar(character as u32).len() as int
}

fn width_utf16(character: char) -> (width: usize)
    ensures
        width == utf16_width(character),
{
    if (character as u32) < 0x10000 {
        1
    } else {
        2
    }
}

pub fn width_utf8(character: char) -> (width: usize)
    ensures
        width == utf8_width(character),
{
    proof {
        char_is_scalar(character);
    }
    let code: u32 = character as u32;
    if code <= 0x7f {
        1
    } else if code <= 0x7ff {
        2
    } else if code <= 0xffff {
        3
    } else {
        4
    }
}

/// The zero-based line and UTF-16 column in front of character `n`.
pub open spec fn line_column(chars: Seq<char>, n: int) -> (int, int)
    decreases n,
{
    if n <= 0 {
        (0, 0)
    } else {
        let (line, column) = line_column(chars, n - 1);
        if chars[n - 1] == '\n' {
            (line + 1, 0)
        } else {
            (line, column + utf16_width(chars[n - 1]))
        }
    }
}

/// The byte offset in front of character `n`.
pub open spec fn byte_offset(chars: Seq<char>, n: int) -> int {
    encode_utf8(chars.take(n)).len() as int
}

pub proof fn lemma_byte_offset_step(chars: Seq<char>, n: int)
    requires
        0 <= n < chars.len(),
    ensures
        byte_offset(chars, n + 1) == byte_offset(chars, n) + utf8_width(chars[n]),
        utf8_width(chars[n]) >= 1,
{
    assert(chars.take(n + 1) =~= chars.take(n) + seq![chars[n]]);
    lemma_bytes_concat(chars.take(n), seq![chars[n]]);
    assert(seq![chars[n]].drop_first() =~= Seq::<char>::empty());
    reveal_with_fuel(encode_utf8, 2);
    assert(encode_utf8(seq![chars[n]]) =~= encode_scalar(chars[n] as u32));
}

pub proof fn lemma_byte_offset_monotone(chars: Seq<char>, a: int, b: int)
    requires
        0 <= a <= b <= chars.len(),
    ensures
        byte_offset(chars, a) + (b - a) <= byte_offset(chars, b),
    decreases b - a,
{
    if a < b {
        lemma_byte_offset_monotone(chars, a, b - 1);
        lemma_byte_offset_step(chars, b - 1);
    }
}

pub proof fn lemma_byte_offset_end(chars: Seq<char>)
    ensures
        byte_offset(chars, chars.len() as int) == encode_utf8(chars).len(),
        byte_offset(chars, 0) == 0,
{
    assert(chars.take(chars.len() as int) =~= chars);
    assert(chars.take(0) =~= Seq::<char>::empty());
}

proof fn lemma_line_column_grows(chars: Seq<char>, a: int, b: int)
    requires
        0 <= a < b <= chars.len(),
    ensures
        line_column(chars, a).0 < line_column(chars, b).0 || (line_column(chars, a).0 == line_column(chars, b).0
            && line_column(chars, a).1 < line_column(chars, b).1),
        0 <= line_column(chars, a).0,
        0 <= line_column(chars, a).1,
    decreases b,
{
    if a < b - 1 {
        lemma_line_column_grows(chars, a, b - 1);
    } else if a > 0 {
        lemma_line_column_grows(chars, a - 1, a);
    }
}

/// The bytes in front of a character boundary encode the characters there.
proof fn lemma_prefix_chars(chars: Seq<char>, offset: int) -> (n: int)
    requires
        0 <= offset <= encode_utf8(chars).len(),
        is_char_boundary(encode_utf8(chars), offset),
    ensures
        0 <= n <= chars.len(),
        byte_offset(chars, n) == offset,
        n == chars_before(chars, offset),
{
    let bytes = encode_utf8(chars);
    encode_utf8_valid_utf8(chars);
    valid_utf8_split(bytes, offset);
    decode_utf8_split(bytes, offset);
    encode_utf8_decode_utf8(chars);
    let head = bytes.subrange(0, offset);
    let front = decode_utf8(head);
    let back = decode_utf8(bytes.subrange(offset, bytes.len() as int));
    decode_utf8_encode_utf8(head);
    assert(chars == front + back);
    assert(chars.take(front.len() as int) =~= front);
    front.len() as int
}

/// How many characters stand before a byte offset.
pub open spec fn chars_before(source: Seq<char>, offset: int) -> int {
    decode_utf8(encode_utf8(source).subrange(0, offset)).len() as int
}

/// The line and the UTF-16 column at a byte offset, both counted from zero,
/// where the offset lies on a character boundary of the text.
pub fn offset_to_line_column(source: &str, offset: usize) -> (result: Option<(usize, usize)>)
    ensures
        result is Some <==> offset <= encode_utf8(source@).len() && is_char_boundary(
            encode_utf8(source@),
            offset as int,
        ),
        result matches Some((line, column)) ==> exists|n: int|
            0 <= n <= source@.len() && byte_offset(source@, n) == offset && #[trigger] line_column(source@, n) == (
                line as int,
                column as int,
            ),
        result matches Some((line, column)) ==> line_column(source@, chars_before(source@, offset as int)) == (
            line as int,
            column as int,
        ),
{
    if offset > source.as_bytes().len() || !source.is_char_boundary(offset) {
        return None;
    }
    let ghost target = lemma_prefix_chars(source@, offset as int);
    let chars = to_chars(source);
    let count = chars.len();
    let mut line: usize = 0;
    let mut column: usize = 0;
    let mut at: usize = 0;
    let mut n: usize = 0;
    proof {
        lemma_byte_offset_end(source@);
    }
    while at < offset
        invariant
            chars@ == source@,
            count == source@.len(),
            0 <= n <= target <= source@.len(),
            byte_offset(source@, target) == offset,
            at == byte_offset(source@, n as int),
            line_column(source@, n as int) == (line as int, column as int),
            line <= at,
            column <= at,
        decreases target - n,
    {
        proof {
            lemma_byte_offset_monotone(source@, n as int, target);
            assert(n < target);
            lemma_byte_offset_step(source@, n as int);
            lemma_byte_offset_monotone(source@, n + 1, target);
            char_is_scalar(source@[n as int]);
        }
        let character = chars[n];
        at = at + width_utf8(character);
        if character == '\n' {
            line += 1;
            column = 0;
        } else {
            column += width_utf16(character);
        }
        n += 1;
    }
    proof {
        lemma_byte_offset_monotone(source@, n as int, target);
    }
    Some((line, column))
}

/// The byte offset of a line and UTF-16 column, both counted from zero, where
/// the text has a character boundary there.
pub fn line_column_to_offset(source: &str, target_line: usize, target_column: usize) -> (result: Option<usize>)
    ensures
        result is Some <==> exists|n: int|
            0 <= n <= source@.len() && #[trigger] line_column(source@, n) == (
                target_line as int,
                target_column as int,
            ),
        result matches Some(offset) ==> exists|n: int|
            0 <= n <= source@.len() && #[trigger] line_column(source@, n) == (
                target_line as int,
                target_column as int,
            ) && offset == byte_offset(source@, n),
{
    let chars = to_chars(source);
    let length = source.as_bytes().len();
    let mut line: usize = 0;
    let mut column: usize = 0;
    let mut at: usize = 0;
    let mut n: usize = 0;
    proof {
        lemma_byte_offset_end(source@);
    }
    while n < chars.len()
        invariant
            chars@ == source@,
            n <= source@.len(),
            at == byte_offset(source@, n as int),
            length == encode_utf8(source@).len(),
            length == byte_offset(source@, source@.len() as int),
            line_column(source@, n as int) == (line as int, column as int),
            line <= at,
            column <= at,
            forall|k: int|
                0 <= k < n ==> #[trigger] line_column(source@, k) != (target_line as int, target_column as int),
        decreases chars.len() - n,
    {
        if line == target_line && column == target_column {
            return Some(at);
        }
        let character = chars[n];
        proof {
            lemma_byte_offset_step(source@, n as int);
            lemma_byte_offset_monotone(source@, n + 1, source@.len() as int);
            char_is_scalar(character);
        }
        at = at + width_utf8(character);
        if character == '\n' {
            line += 1;
            column = 0;
        } else {
            column += width_utf16(character);
            if line == target_line && column > target_column {
                proof {
                    assert forall|k: int| 0 <= k <= source@.len() implies #[trigger] line_column(source@, k) != (
                        target_line as int,
                        target_column as int,
                    ) by {
                        if k > n + 1 {
                            lemma_line_column_grows(source@, n + 1, k);
                        }
                    }
                }
                return None;
            }
        }
        n += 1;
    }
    if line == target_line && column == target_column {
        Some(length)
    } else {
        None
    }
}

/// Finding the line and column of a character and going back gives its offset:
/// no two characters share a position.
pub proof fn positions_round_trip(chars: Seq<char>, a: int, b: int)
    requires
        0 <= a <= chars.len(),
        0 <= b <= chars.len(),
        line_column(chars, a) == line_column(chars, b),
    ensures
        byte_offset(chars, a) == byte_offset(chars, b),
{
    if a < b {
        lemma_line_column_grows(chars, a, b);
    } else if b < a {
        lemma_line_column_grows(chars, b, a);
    }
}

/// Whether a byte can stand inside an identifier.
pub open spec fn ident_byte(byte: u8) -> bool {
    ||| 48 <= byte <= 57
    ||| 65 <= byte <= 90
    ||| 97 <= byte <= 122
    ||| byte == 95
    ||| byte == 45
}

pub fn is_ident_byte(byte: u8) -> (result: bool)
    ensures
        result == ident_byte(byte),
{
    (48 <= byte && byte <= 57) || (65 <= byte && byte <= 90) || (97 <= byte && byte <= 122) || byte == 95 || byte
        == 45
}

/// `word` stands in `bytes` at `start`.
pub open spec fn occurs_at(bytes: Seq<u8>, word: Seq<u8>, start: int) -> bool {
    0 <= start && start + word.len() <= bytes.len() && bytes.subrange(start, start + word.len()) == word
}

/// The word at `start` is not part of a longer identifier.
pub open spec fn bounded_at(bytes: Seq<u8>, word: Seq<u8>, start: int) -> bool {
    &&& start == 0 || !ident_byte(bytes[start - 1])
    &&& start + word.len() >= bytes.len() || !ident_byte(bytes[start + word.len()])
}

/// Whether one of the occurrences from `start` on stands on its own;
/// occurrences are counted from the left without overlap.
pub open spec fn mentioned_from(bytes: Seq<u8>, word: Seq<u8>, start: int) -> bool
    decreases bytes.len() - start,
{
    if word.len() == 0 || start < 0 || start + word.len() > bytes.len() {
        false
    } else if occurs_at(bytes, word, start) {
        bounded_at(bytes, word, start) || mentioned_from(bytes, word, start + word.len())
    } else {
        mentioned_from(bytes, word, start + 1)
    }
}

fn found_at(bytes: &[u8], word: &[u8], start: usize) -> (result: bool)
    requires
        start + word@.len() <= bytes@.len(),
    ensures
        result == occurs_at(bytes@, word@, start as int),
{
    let total = bytes.len();
    let mut i: usize = 0;
    while i < word.len()
        invariant
            i <= word@.len(),
            total == bytes@.len(),
            start + word@.len() <= total,
            forall|j: int| 0 <= j < i ==> bytes@[start + j] == #[trigger] word@[j],
        decreases word.len() - i,
    {
        if bytes[start + i] != word[i] {
            assert(bytes@.subrange(start as int, start + word@.len())[i as int] != word@[i as int]);
            return false;
        }
        i += 1;
    }
    assert(bytes@.subrange(start as int, start + word@.len()) =~= word@);
    true
}

/// The text names the word.
pub open spec fn mentioned(text: Seq<char>, word: Seq<char>) -> bool {
    mentioned_from(encode_utf8(text), encode_utf8(word), 0)
}

/// Whether the text mentions the word on its own, not inside a longer
/// identifier.
pub fn mentions_word(text: &str, word: &str) -> (result: bool)
    ensures
        result == mentioned(text@, word@),
{
    let bytes = text.as_bytes();
    let needle = word.as_bytes();
    if needle.len() == 0 {
        return false;
    }
    let mut start: usize = 0;
    while needle.len() <= bytes.len() && start <= bytes.len() - needle.len()
        invariant
            0 < needle@.len(),
            start <= bytes@.len(),
            bytes@ == encode_utf8(text@),
            needle@ == encode_utf8(word@),
            mentioned_from(bytes@, needle@, start as int) == mentioned_from(bytes@, needle@, 0),
        decreases bytes.len() - start,
    {
        if found_at(bytes, needle, start) {
            let end = start + needle.len();
            let before_ok = start == 0 || !is_ident_byte(bytes[start - 1]);
            let after_ok = end >= bytes.len() || !is_ident_byte(bytes[end]);
            if before_ok && after_ok {
                return true;
            }
            start = end;
        } else {
            start += 1;
        }
    }
    false
}

/// The source has this byte at the offset.
pub open spec fn byte_at(source: Seq<char>, offset: int, byte: u8) -> bool {
    offset < byte_len(source) && encode_utf8(source)[offset] == byte
}

/// Whether the byte stands at the offset.
pub fn has_byte_at(source: &str, offset: usize, byte: u8) -> (result: bool)
    ensures
        result == byte_at(source@, offset as int, byte),
        result ==> offset < usize::MAX,
{
    let bytes = source.as_bytes();
    offset < bytes.len() && bytes[offset] == byte
}

} // verus!
