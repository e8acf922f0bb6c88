//! Text helpers shared by the other modules.
//!
//! A string is modelled by its sequence of characters (`s@`); where offsets
//! matter they are byte offsets, and the model is the UTF-8 encoding of those
//! characters (`encode_utf8(s@)`).
use vstd::prelude::*;
use vstd::utf8::*;

verus! {

/// `String::push`: appends one character at the end of the string.
pub assume_specification[ String::push ](string: &mut String, ch: char)
    ensures
        final(string)@ == old(string)@.push(ch),
;

/// The characters of a text, in order.
pub fn to_chars(text: &str) -> (chars: Vec<char>)
    ensures
        chars@ == text@,
{
    let mut chars: Vec<char> = Vec::new();
    for c in it: text.chars()
        invariant
            it.seq() == text@,
            chars@ == text@.take(it.index() as int),
    {
        assert(text@.take(it.index() + 1) =~= text@.take(it.index() as int).push(c));
        chars.push(c);
    }
    assert(text@.take(text@.len() as int) =~= text@);
    chars
}

/// The text made of the characters `from..to`.
pub fn from_chars(chars: &Vec<char>, from: usize, to: usize) -> (text: String)
    requires
        from <= to <= chars.len(),
    ensures
        text@ == chars@.subrange(from as int, to as int),
{
    let mut text = String::new();
    let mut i: usize = from;
    while i < to
        invariant
            from <= i <= to <= chars.len(),
            text@ == chars@.subrange(from as int, i as int),
        decreases to - i,
    {
        assert(chars@.subrange(from as int, i + 1) =~= chars@.subrange(from as int, i as int).push(chars@[i as int]));
        text.push(chars[i]);
        i += 1;
    }
    text
}

/// Two texts with the same UTF-8 encoding are the same text.
pub proof fn lemma_bytes_injective(a: Seq<char>, b: Seq<char>)
    requires
        encode_utf8(a) == encode_utf8(b),
    ensures
        a == b,
{
    encode_utf8_decode_utf8(a);
    encode_utf8_decode_utf8(b);
}

/// The encoding of a concatenation is the concatenation of the encodings.
pub proof fn lemma_bytes_concat(a: Seq<char>, b: Seq<char>)
    ensures
        encode_utf8(a + b) == encode_utf8(a) + encode_utf8(b),
    decreases a.len(),
{
    if a.len() == 0 {
        assert(a + b =~= b);
        assert(encode_utf8(a) =~= Seq::<u8>::empty());
        assert(encode_utf8(a) + encode_utf8(b) =~= encode_utf8(b));
    } else {
        assert((a + b).drop_first() =~= a.drop_first() + b);
        lemma_bytes_concat(a.drop_first(), b);
        assert(encode_utf8(a + b) =~= encode_utf8(a) + encode_utf8(b));
    }
}

/// Whether two texts hold the same characters.
pub fn same(a: &str, b: &str) -> (result: bool)
    ensures
        result == (a@ == b@),
{
    let x = a.as_bytes();
    let y = b.as_bytes();
    if x.len() != y.len() {
        return false;
    }
    let mut i: usize = 0;
    while i < x.len()
        invariant
            i <= x@.len(),
            x@.len() == y@.len(),
            x@ == encode_utf8(a@),
            y@ == encode_utf8(b@),
            forall|j: int| 0 <= j < i ==> x@[j] == y@[j],
        decreases x.len() - i,
    {
        if x[i] != y[i] {
            assert(a@ != b@);
            return false;
        }
        i += 1;
    }
    proof {
        assert(x@ =~= y@);
        lemma_bytes_injective(a@, b@);
    }
    true
}

/// A copy of the text.
pub fn copy(text: &str) -> (result: String)
    ensures
        result@ == text@,
{
    text.to_owned()
}

/// The texts of a list, as character sequences.
pub open spec fn texts(list: Seq<String>) -> Seq<Seq<char>> {
    list.map_values(|s: String| s@)
}

/// A copy of the list.
pub fn copy_texts(list: &Vec<String>) -> (result: Vec<String>)
    ensures
        texts(result@) == texts(list@),
        result@.len() == list@.len(),
{
    let mut result: Vec<String> = Vec::new();
    let mut i: usize = 0;
    while i < list.len()
        invariant
            i <= list@.len(),
            texts(result@) == texts(list@).take(i as int),
        decreases list.len() - i,
    {
        let ghost before = result@;
        result.push(list[i].clone());
        assert(texts(result@) =~= texts(before).push(list@[i as int]@));
        assert(texts(list@).take(i + 1) =~= texts(list@).take(i as int).push(list@[i as int]@));
        i += 1;
    }
    assert(texts(list@).take(i as int) =~= texts(list@));
    assert(texts(result@).len() == result@.len());
    result
}

/// Appends copies of the texts of `more`.
pub fn push_texts(list: &mut Vec<String>, more: &Vec<String>)
    ensures
        texts(final(list)@) == texts(old(list)@) + texts(more@),
{
    let mut i: usize = 0;
    assert(texts(list@) =~= texts(old(list)@) + texts(more@).take(0));
    while i < more.len()
        invariant
            i <= more@.len(),
            texts(list@) == texts(old(list)@) + texts(more@).take(i as int),
        decreases more.len() - i,
    {
        let ghost before = texts(list@);
        list.push(more[i].clone());
        assert(texts(list@) =~= before.push(texts(more@)[i as int]));
        i += 1;
        assert(texts(list@) =~= texts(old(list)@) + texts(more@).take(i as int));
    }
    assert(texts(more@).take(i as int) =~= texts(more@));
}

/// Whether the list holds the text.
pub fn list_has(list: &Vec<String>, text: &str) -> (result: bool)
    ensures
        result == texts(list@).contains(text@),
{
    let mut i: usize = 0;
    while i < list.len()
        invariant
            i <= list@.len(),
            forall|j: int| 0 <= j < i ==> #[trigger] texts(list@)[j] != text@,
        decreases list.len() - i,
    {
        if same(list[i].as_str(), text) {
            assert(texts(list@)[i as int] == text@);
            return true;
        }
        i += 1;
    }
    false
}

/// The byte boundary `start` of a text is still one in the part before the
/// boundary `end`.
pub proof fn lemma_boundary_in_prefix(bytes: Seq<u8>, start: int, end: int)
    requires
        valid_utf8(bytes),
        0 <= start <= end <= bytes.len(),
        is_char_boundary(bytes, start),
        is_char_boundary(bytes, end),
    ensures
        valid_utf8(bytes.subrange(0, end)),
        is_char_boundary(bytes.subrange(0, end), start),
{
    valid_utf8_split(bytes, end);
    let prefix = bytes.subrange(0, end);
    if start == end {
        is_char_boundary_start_end_of_seq(prefix);
    } else {
        assert(prefix[start] == bytes[start]);
        is_char_boundary_iff_not_is_continuation_byte(bytes, start);
        is_char_boundary_iff_not_is_continuation_byte(prefix, start);
    }
}

/// Whether `start..end` can be cut out of `bytes`: in order, in range and on
/// character boundaries.
pub open spec fn is_slice(bytes: Seq<u8>, start: int, end: int) -> bool {
    0 <= start <= end <= bytes.len() && is_char_boundary(bytes, start) && is_char_boundary(bytes, end)
}

/// The part of `text` between two byte offsets.
pub fn slice(text: &str, start: usize, end: usize) -> (part: &str)
    requires
        is_slice(encode_utf8(text@), start as int, end as int),
    ensures
        encode_utf8(part@) == encode_utf8(text@).subrange(start as int, end as int),
{
    proof {
        encode_utf8_valid_utf8(text@);
        lemma_boundary_in_prefix(encode_utf8(text@), start as int, end as int);
    }
    let (prefix, _rest) = text.split_at(end);
    let (_head, part) = prefix.split_at(start);
    assert(encode_utf8(part@) =~= encode_utf8(text@).subrange(start as int, end as int));
    part
}

/// The part of `text` between two byte offsets, if they can be cut there.
pub fn get_slice(text: &str, start: usize, end: usize) -> (part: Option<&str>)
    ensures
        part is Some <==> is_slice(encode_utf8(text@), start as int, end as int),
        part matches Some(part) ==> encode_utf8(part@) == encode_utf8(text@).subrange(start as int, end as int),
{
    if start <= end && end <= text.as_bytes().len() && text.is_char_boundary(start) && text.is_char_boundary(end) {
        Some(slice(text, start, end))
    } else {
        None
    }
}

/// The text between two byte offsets of `text`, if they can be cut there.
pub open spec fn cut(text: Seq<char>, start: int, end: int) -> Option<Seq<char>> {
    let bytes = encode_utf8(text);
    if is_slice(bytes, start, end) {
        Some(decode_utf8(bytes.subrange(start, end)))
    } else {
        None
    }
}

/// A copy of the text between two byte offsets, if they can be cut there.
pub fn copy_cut(text: &str, start: usize, end: usize) -> (part: Option<String>)
    ensures
        maybe(part) == cut(text@, start as int, end as int),
{
    match get_slice(text, start, end) {
        None => None,
        Some(part) => {
            proof {
                encode_utf8_decode_utf8(part@);
            }
            Some(part.to_owned())
        },
    }
}

/// The characters of an optional text.
pub open spec fn maybe(text: Option<String>) -> Option<Seq<char>> {
    match text {
        Some(text) => Some(text@),
        None => None,
    }
}

/// An equal optional text.
pub fn copy_maybe(text: &Option<String>) -> (result: Option<String>)
    ensures
        result == *text,
{
    match text {
        Some(text) => Some(text.clone()),
        None => None,
    }
}

/// The texts of an optional list.
pub open spec fn maybe_texts(list: Option<Vec<String>>) -> Option<Seq<Seq<char>>> {
    match list {
        Some(list) => Some(texts(list@)),
        None => None,
    }
}

/// The models of a list's values.
pub open spec fn views<T: View>(list: Seq<T>) -> Seq<T::V> {
    list.map_values(|value: T| value@)
}

/// The model of an optional value.
pub open spec fn maybe_view<T: View>(value: Option<T>) -> Option<T::V> {
    match value {
        Some(value) => Some(value@),
        None => None,
    }
}

/// What a text is split at.
#[derive(Clone, Copy)]
pub enum Separator {
    /// This character.
    Char(char),
    /// A character with the Unicode property `White_Space`.
    Whitespace,
    /// Space, tab, line feed, form feed or carriage return.
    AsciiWhitespace,
    /// A double or a single quote.
    Quote,
}

/// The Unicode property `White_Space`.
pub open spec fn unicode_whitespace(c: char) -> bool {
    ||| '\u{9}' <= c <= '\u{d}'
    ||| c == ' '
    ||| c == '\u{85}'
    ||| c == '\u{a0}'
    ||| c == '\u{1680}'
    ||| '\u{2000}' <= c <= '\u{200a}'
    ||| c == '\u{2028}'
    ||| c == '\u{2029}'
    ||| c == '\u{202f}'
    ||| c == '\u{205f}'
    ||| c == '\u{3000}'
}

pub open spec fn ascii_whitespace(c: char) -> bool {
    c == ' ' || c == '\t' || c == '\n' || c == '\u{c}' || c == '\r'
}

pub open spec fn separates(separator: Separator, c: char) -> bool {
    match separator {
        Separator::Char(own) => c == own,
        Separator::Whitespace => unicode_whitespace(c),
        Separator::AsciiWhitespace => ascii_whitespace(c),
        Separator::Quote => c == '"' || c == '\'',
    }
}

pub fn is_separator(separator: Separator, c: char) -> (result: bool)
    ensures
        result == separates(separator, c),
{
    match separator {
        Separator::Char(own) => c == own,
        Separator::Whitespace => ('\u{9}' <= c && c <= '\u{d}') || c == ' ' || c == '\u{85}' || c == '\u{a0}' || c
            == '\u{1680}' || ('\u{2000}' <= c && c <= '\u{200a}') || c == '\u{2028}' || c == '\u{2029}' || c
            == '\u{202f}' || c == '\u{205f}' || c == '\u{3000}',
        Separator::AsciiWhitespace => c == ' ' || c == '\t' || c == '\n' || c == '\u{c}' || c == '\r',
        Separator::Quote => c == '"' || c == '\'',
    }
}

/// The pieces of `text` behind `i`, the first of them begun at `start`.
pub open spec fn pieces_from(text: Seq<char>, separator: Separator, start: int, i: int) -> Seq<Seq<char>>
    decreases text.len() - i,
{
    if i < 0 || i >= text.len() {
        seq![text.subrange(start, text.len() as int)]
    } else if separates(separator, text[i]) {
        seq![text.subrange(start, i)] + pieces_from(text, separator, i + 1, i + 1)
    } else {
        pieces_from(text, separator, start, i + 1)
    }
}

/// `text` split at every separator; neighbouring separators give empty pieces.
pub open spec fn pieces(text: Seq<char>, separator: Separator) -> Seq<Seq<char>> {
    pieces_from(text, separator, 0, 0)
}

/// The list without its empty texts.
pub open spec fn nonempty(list: Seq<Seq<char>>) -> Seq<Seq<char>>
    decreases list.len(),
{
    if list.len() == 0 {
        seq![]
    } else if list[0].len() == 0 {
        nonempty(list.drop_first())
    } else {
        seq![list[0]] + nonempty(list.drop_first())
    }
}

/// The non-empty pieces of `text`.
pub open spec fn words(text: Seq<char>, separator: Separator) -> Seq<Seq<char>> {
    nonempty(pieces(text, separator))
}

/// Splits a text at every separator.
pub fn split(text: &str, separator: Separator) -> (result: Vec<String>)
    ensures
        texts(result@) == pieces(text@, separator),
{
    let chars = to_chars(text);
    let mut result: Vec<String> = Vec::new();
    let mut start: usize = 0;
    let mut i: usize = 0;
    assert(texts(result@) + pieces_from(text@, separator, 0, 0) =~= pieces(text@, separator));
    while i < chars.len()
        invariant
            chars@ == text@,
            start <= i <= chars@.len(),
            texts(result@) + pieces_from(text@, separator, start as int, i as int) == pieces(text@, separator),
        decreases chars.len() - i,
    {
        if is_separator(separator, chars[i]) {
            let ghost before = texts(result@);
            let ghost rest = pieces_from(text@, separator, i + 1, i + 1);
            let piece = from_chars(&chars, start, i);
            result.push(piece);
            assert(texts(result@) =~= before.push(text@.subrange(start as int, i as int)));
            assert(texts(result@) + rest =~= before + (seq![text@.subrange(start as int, i as int)] + rest));
            start = i + 1;
        }
        i += 1;
    }
    let ghost before = texts(result@);
    let piece = from_chars(&chars, start, i);
    result.push(piece);
    assert(texts(result@) =~= before + seq![text@.subrange(start as int, text@.len() as int)]);
    result
}

/// The list without its empty texts.
pub fn drop_empty(list: Vec<String>) -> (result: Vec<String>)
    ensures
        texts(result@) == nonempty(texts(list@)),
{
    let mut result: Vec<String> = Vec::new();
    let mut i: usize = 0;
    assert(texts(list@).skip(0) =~= texts(list@));
    assert(texts(result@) + nonempty(texts(list@).skip(0)) =~= nonempty(texts(list@)));
    while i < list.len()
        invariant
            i <= list@.len(),
            texts(result@) + nonempty(texts(list@).skip(i as int)) == nonempty(texts(list@)),
        decreases list.len() - i,
    {
        let ghost rest = texts(list@).skip(i as int);
        let ghost before = texts(result@);
        assert(rest.drop_first() =~= texts(list@).skip(i + 1));
        assert(rest[0] == list@[i as int]@);
        if !list[i].as_str().is_empty() {
            result.push(list[i].clone());
            assert(texts(result@) =~= before.push(rest[0]));
            assert(texts(result@) + nonempty(rest.drop_first()) =~= before + (seq![rest[0]] + nonempty(
                rest.drop_first(),
            )));
        }
        i += 1;
    }
    assert(texts(list@).skip(i as int) =~= Seq::<Seq<char>>::empty());
    assert(texts(result@) + nonempty(texts(list@).skip(i as int)) =~= texts(result@));
    result
}

/// The non-empty pieces of a text.
pub fn split_words(text: &str, separator: Separator) -> (result: Vec<String>)
    ensures
        texts(result@) == words(text@, separator),
{
    drop_empty(split(text, separator))
}

/// The texts of the list with `glue` between neighbours.
pub open spec fn joined(list: Seq<Seq<char>>, glue: Seq<char>) -> Seq<char>
    decreases list.len(),
{
    if list.len() == 0 {
        seq![]
    } else if list.len() == 1 {
        list[0]
    } else {
        joined(list.drop_last(), glue) + glue + list.last()
    }
}

/// Joins the texts of a list.
pub fn join(list: &Vec<String>, glue: &str) -> (result: String)
    ensures
        result@ == joined(texts(list@), glue@),
{
    let mut result = String::new();
    let mut i: usize = 0;
    while i < list.len()
        invariant
            i <= list@.len(),
            result@ == joined(texts(list@).take(i as int), glue@),
        decreases list.len() - i,
    {
        assert(texts(list@).take(i + 1).drop_last() =~= texts(list@).take(i as int));
        let ghost before = result@;
        if i > 0 {
            result.append(glue);
        } else {
            assert(texts(list@).take(i as int) =~= Seq::<Seq<char>>::empty());
            assert(before + list@[i as int]@ =~= list@[i as int]@);
        }
        result.append(list[i].as_str());
        i += 1;
    }
    assert(texts(list@).take(i as int) =~= texts(list@));
    result
}

/// The text is not empty and holds no separator.
pub open spec fn is_word(text: Seq<char>, separator: Separator) -> bool {
    text.len() > 0 && forall|k: int| 0 <= k < text.len() ==> !separates(separator, #[trigger] text[k])
}

pub proof fn lemma_no_separator(text: Seq<char>, separator: Separator, start: int, i: int)
    requires
        0 <= i <= text.len(),
        forall|k: int| i <= k < text.len() ==> !separates(separator, #[trigger] text[k]),
    ensures
        pieces_from(text, separator, start, i) == seq![text.subrange(start, text.len() as int)],
    decreases text.len() - i,
{
    if i < text.len() {
        lemma_no_separator(text, separator, start, i + 1);
    }
}

/// A word behind a separator is one more piece.
proof fn lemma_piece_behind(
    text: Seq<char>,
    c: char,
    word: Seq<char>,
    separator: Separator,
    start: int,
    i: int,
)
    requires
        0 <= start <= i <= text.len(),
        separates(separator, c),
        is_word(word, separator),
    ensures
        pieces_from(text + seq![c] + word, separator, start, i) == pieces_from(text, separator, start, i).push(word),
    decreases text.len() - i,
{
    let whole = text + seq![c] + word;
    if i < text.len() {
        assert(whole[i] == text[i]);
        if separates(separator, text[i]) {
            lemma_piece_behind(text, c, word, separator, i + 1, i + 1);
            assert(whole.subrange(start, i) =~= text.subrange(start, i));
            assert(pieces_from(whole, separator, start, i) =~= pieces_from(text, separator, start, i).push(word));
        } else {
            lemma_piece_behind(text, c, word, separator, start, i + 1);
        }
    } else {
        assert(whole[i] == c);
        assert forall|k: int| i + 1 <= k < whole.len() implies !separates(separator, #[trigger] whole[k]) by {
            assert(whole[k] == word[k - i - 1]);
        }
        lemma_no_separator(whole, separator, i + 1, i + 1);
        assert(whole.subrange(i + 1, whole.len() as int) =~= word);
        assert(whole.subrange(start, i) =~= text.subrange(start, text.len() as int));
        assert(pieces_from(whole, separator, start, i) =~= pieces_from(text, separator, start, i).push(word));
    }
}

pub proof fn lemma_nonempty_push(list: Seq<Seq<char>>, text: Seq<char>)
    ensures
        nonempty(list.push(text)) == if text.len() == 0 {
            nonempty(list)
        } else {
            nonempty(list).push(text)
        },
    decreases list.len(),
{
    let more = list.push(text);
    if list.len() == 0 {
        assert(more.drop_first() =~= Seq::<Seq<char>>::empty());
        assert(nonempty(more.drop_first()) =~= Seq::<Seq<char>>::empty());
        assert(nonempty(list) =~= Seq::<Seq<char>>::empty());
        assert(nonempty(list).push(text) =~= seq![text] + nonempty(more.drop_first()));
    } else {
        assert(more.drop_first() =~= list.drop_first().push(text));
        assert(more[0] == list[0]);
        lemma_nonempty_push(list.drop_first(), text);
        if text.len() > 0 && list[0].len() > 0 {
            assert(nonempty(more) =~= nonempty(list).push(text));
        }
    }
}

/// A word behind a separator is one more word.
pub proof fn lemma_word_behind(text: Seq<char>, c: char, word: Seq<char>, separator: Separator)
    requires
        separates(separator, c),
        is_word(word, separator),
    ensures
        words(text + seq![c] + word, separator) == words(text, separator).push(word),
{
    lemma_piece_behind(text, c, word, separator, 0, 0);
    lemma_nonempty_push(pieces(text, separator), word);
}

proof fn lemma_pieces_joined(list: Seq<Seq<char>>, separator: Separator)
    requires
        list.len() > 0,
        separates(separator, ' '),
        forall|i: int| 0 <= i < list.len() ==> is_word(#[trigger] list[i], separator),
    ensures
        pieces(joined(list, " "@), separator) == list,
    decreases list.len(),
{
    reveal_strlit(" ");
    assert(" "@ =~= seq![' ']);
    if list.len() == 1 {
        let word = list[0];
        assert(is_word(word, separator));
        lemma_no_separator(word, separator, 0, 0);
        assert(word.subrange(0, word.len() as int) =~= word);
        assert(list =~= seq![word]);
    } else {
        let rest = list.drop_last();
        assert forall|i: int| 0 <= i < rest.len() implies is_word(#[trigger] rest[i], separator) by {
            assert(is_word(list[i], separator));
        }
        lemma_pieces_joined(rest, separator);
        assert(is_word(list[list.len() - 1], separator));
        lemma_piece_behind(joined(rest, " "@), ' ', list.last(), separator, 0, 0);
        assert(rest.push(list.last()) =~= list);
    }
}

proof fn lemma_all_nonempty(list: Seq<Seq<char>>)
    requires
        forall|i: int| 0 <= i < list.len() ==> (#[trigger] list[i]).len() > 0,
    ensures
        nonempty(list) == list,
    decreases list.len(),
{
    if list.len() > 0 {
        let rest = list.drop_first();
        assert forall|i: int| 0 <= i < rest.len() implies (#[trigger] rest[i]).len() > 0 by {
            assert(list[i + 1].len() > 0);
        }
        lemma_all_nonempty(rest);
        assert(list[0].len() > 0);
        assert(nonempty(list) =~= list);
    } else {
        assert(nonempty(list) =~= list);
    }
}

/// Splitting undoes joining: words with a space between neighbours are read
/// back as they were.
pub proof fn splitting_undoes_joining(list: Seq<Seq<char>>, separator: Separator)
    requires
        separates(separator, ' '),
        forall|i: int| 0 <= i < list.len() ==> is_word(#[trigger] list[i], separator),
    ensures
        words(joined(list, " "@), separator) == list,
{
    if list.len() > 0 {
        lemma_pieces_joined(list, separator);
        assert forall|i: int| 0 <= i < list.len() implies (#[trigger] list[i]).len() > 0 by {
            assert(is_word(list[i], separator));
        }
        lemma_all_nonempty(list);
    } else {
        let text = joined(list, " "@);
        assert(text.len() == 0);
        assert(text.subrange(0, 0) =~= Seq::<char>::empty());
        assert(pieces(text, separator) == seq![text.subrange(0, 0)]);
        let one = pieces(text, separator);
        assert(one.drop_first() =~= Seq::<Seq<char>>::empty());
        assert(nonempty(one) == nonempty(one.drop_first()));
        assert(nonempty(one.drop_first()) =~= Seq::<Seq<char>>::empty());
        assert(list =~= Seq::<Seq<char>>::empty());
    }
}

proof fn lemma_pieces_plain(text: Seq<char>, separator: Separator, start: int, i: int, n: int)
    requires
        0 <= start <= i <= text.len(),
        forall|k: int| start <= k < i ==> !separates(separator, #[trigger] text[k]),
        0 <= n < pieces_from(text, separator, start, i).len(),
    ensures
        ({
            let piece = pieces_from(text, separator, start, i)[n];
            forall|k: int| 0 <= k < piece.len() ==> !separates(separator, #[trigger] piece[k])
        }),
    decreases text.len() - i,
{
    let list = pieces_from(text, separator, start, i);
    if i < text.len() && !separates(separator, text[i]) {
        lemma_pieces_plain(text, separator, start, i + 1, n);
    } else if i < text.len() && n > 0 {
        let rest = pieces_from(text, separator, i + 1, i + 1);
        assert(list[n] == rest[n - 1]);
        lemma_pieces_plain(text, separator, i + 1, i + 1, n - 1);
    } else {
        assert(list[n] == text.subrange(start, i));
        assert forall|k: int| 0 <= k < list[n].len() implies !separates(separator, #[trigger] list[n][k]) by {
            assert(list[n][k] == text[start + k]);
        }
    }
}

pub proof fn lemma_nonempty_members(list: Seq<Seq<char>>, n: int)
    requires
        0 <= n < nonempty(list).len(),
    ensures
        nonempty(list)[n].len() > 0,
        list.contains(nonempty(list)[n]),
    decreases list.len(),
{
    if list.len() > 0 {
        let rest = list.drop_first();
        let found = nonempty(list)[n];
        if list[0].len() == 0 {
            lemma_nonempty_members(rest, n);
            let k = choose|k: int| 0 <= k < rest.len() && rest[k] == found;
            assert(list[k + 1] == found);
        } else if n == 0 {
            assert(list[0] == found);
        } else {
            assert(found == nonempty(rest)[n - 1]);
            lemma_nonempty_members(rest, n - 1);
            let k = choose|k: int| 0 <= k < rest.len() && rest[k] == found;
            assert(list[k + 1] == found);
        }
    }
}

/// The words of a text are not empty and hold no separator.
pub proof fn lemma_words_are_words(text: Seq<char>, separator: Separator)
    ensures
        forall|n: int| 0 <= n < words(text, separator).len() ==> is_word(#[trigger] words(text, separator)[n], separator),
{
    let list = pieces(text, separator);
    assert forall|n: int| 0 <= n < words(text, separator).len() implies is_word(
        #[trigger] words(text, separator)[n],
        separator,
    ) by {
        lemma_nonempty_members(list, n);
        let word = words(text, separator)[n];
        let k = choose|k: int| 0 <= k < list.len() && list[k] == word;
        lemma_pieces_plain(text, separator, 0, 0, k);
    }
}

/// `part` stands in `text` at `start`.
pub open spec fn stands_at(text: Seq<char>, part: Seq<char>, start: int) -> bool {
    0 <= start && start + part.len() <= text.len() && text.subrange(start, start + part.len()) == part
}

/// Whether `part` stands in `text` at `start`.
pub fn is_at(text: &Vec<char>, part: &Vec<char>, start: usize) -> (result: bool)
    ensures
        result == stands_at(text@, part@, start as int),
{
    let total = text.len();
    if start > total || part.len() > total - start {
        return false;
    }
    let mut i: usize = 0;
    while i < part.len()
        invariant
            i <= part@.len(),
            total == text@.len(),
            start + part@.len() <= total,
            forall|j: int| 0 <= j < i ==> text@[start + j] == #[trigger] part@[j],
        decreases part.len() - i,
    {
        if text[start + i] != part[i] {
            assert(text@.subrange(start as int, start + part@.len())[i as int] != part@[i as int]);
            return false;
        }
        i += 1;
    }
    assert(text@.subrange(start as int, start + part@.len()) =~= part@);
    true
}

pub open spec fn begins(text: Seq<char>, part: Seq<char>) -> bool {
    stands_at(text, part, 0)
}

pub open spec fn ends(text: Seq<char>, part: Seq<char>) -> bool {
    stands_at(text, part, text.len() - part.len())
}

pub open spec fn holds(text: Seq<char>, part: Seq<char>) -> bool {
    exists|start: int| stands_at(text, part, start)
}

/// Whether the text begins with `part`.
pub fn starts_with(text: &str, part: &str) -> (result: bool)
    ensures
        result == begins(text@, part@),
{
    is_at(&to_chars(text), &to_chars(part), 0)
}

/// Whether the text ends with `part`.
pub fn ends_with(text: &str, part: &str) -> (result: bool)
    ensures
        result == ends(text@, part@),
{
    let chars = to_chars(text);
    let tail = to_chars(part);
    if tail.len() > chars.len() {
        return false;
    }
    is_at(&chars, &tail, chars.len() - tail.len())
}

/// The text behind `part`, where it begins with it.
pub open spec fn without_prefix(text: Seq<char>, part: Seq<char>) -> Option<Seq<char>> {
    if begins(text, part) {
        Some(text.skip(part.len() as int))
    } else {
        None
    }
}

/// The text before `part`, where it ends with it.
pub open spec fn without_suffix(text: Seq<char>, part: Seq<char>) -> Option<Seq<char>> {
    if ends(text, part) {
        Some(text.take(text.len() - part.len()))
    } else {
        None
    }
}

/// The text behind `part`, where it begins with it.
pub fn strip_prefix(text: &str, part: &str) -> (result: Option<String>)
    ensures
        maybe(result) == without_prefix(text@, part@),
{
    let chars = to_chars(text);
    let head = to_chars(part);
    if is_at(&chars, &head, 0) {
        let rest = from_chars(&chars, head.len(), chars.len());
        assert(rest@ =~= text@.skip(part@.len() as int));
        Some(rest)
    } else {
        None
    }
}

/// The text before `part`, where it ends with it.
pub fn strip_suffix(text: &str, part: &str) -> (result: Option<String>)
    ensures
        maybe(result) == without_suffix(text@, part@),
{
    let chars = to_chars(text);
    let tail = to_chars(part);
    if tail.len() <= chars.len() && is_at(&chars, &tail, chars.len() - tail.len()) {
        let rest = from_chars(&chars, 0, chars.len() - tail.len());
        assert(rest@ =~= text@.take(text@.len() - part@.len()));
        Some(rest)
    } else {
        None
    }
}

/// Whether the text holds `part`.
pub fn contains(text: &str, part: &str) -> (result: bool)
    ensures
        result == holds(text@, part@),
{
    let chars = to_chars(text);
    let needle = to_chars(part);
    let mut start: usize = 0;
    while start <= chars.len()
        invariant
            chars@ == text@,
            needle@ == part@,
            start <= chars@.len() + 1,
            forall|j: int| 0 <= j < start ==> !stands_at(text@, part@, j),
        decreases chars.len() + 1 - start,
    {
        if is_at(&chars, &needle, start) {
            return true;
        }
        if start == chars.len() {
            assert forall|j: int| !stands_at(text@, part@, j) by {};
            return false;
        }
        start += 1;
    }
    false
}

/// The characters of ASCII upper case letters in lower case.
pub open spec fn ascii_lower(c: char) -> char {
    if 'A' <= c <= 'Z' {
        (c as u8 + 32) as char
    } else {
        c
    }
}

pub open spec fn ascii_lowered(text: Seq<char>) -> Seq<char> {
    text.map_values(|c: char| ascii_lower(c))
}

/// The text with its ASCII letters in lower case.
pub fn to_ascii_lowercase(text: &str) -> (result: String)
    ensures
        result@ == ascii_lowered(text@),
{
    let chars = to_chars(text);
    let mut result = String::new();
    let mut i: usize = 0;
    while i < chars.len()
        invariant
            chars@ == text@,
            i <= chars@.len(),
            result@ == ascii_lowered(text@.take(i as int)),
        decreases chars.len() - i,
    {
        let c = chars[i];
        let lower = if 'A' <= c && c <= 'Z' {
            (c as u8 + 32) as char
        } else {
            c
        };
        result.push(lower);
        assert(result@ =~= ascii_lowered(text@.take(i + 1)));
        i += 1;
    }
    assert(text@.take(i as int) =~= text@);
    result
}

/// The text in lower case, as `str::to_lowercase` gives it.
pub uninterp spec fn lowercase(text: Seq<char>) -> Seq<char>;

/// `str::to_lowercase`: the text in lower case by the Unicode tables of the
/// standard library. Nothing more is said of the result.
#[verifier::external_body]
pub(crate) fn to_lowercase(text: &str) -> (result: String)
    ensures
        result@ == lowercase(text@),
{
    text.to_lowercase()
}

/// Whether the text holds the character.
pub fn has_char(text: &str, c: char) -> (result: bool)
    ensures
        result == text@.contains(c),
{
    let chars = to_chars(text);
    let mut i: usize = 0;
    while i < chars.len()
        invariant
            chars@ == text@,
            i <= chars@.len(),
            forall|j: int| 0 <= j < i ==> text@[j] != c,
        decreases chars.len() - i,
    {
        if chars[i] == c {
            assert(text@[i as int] == c);
            return true;
        }
        i += 1;
    }
    false
}

/// Every character of the text is a separator.
pub open spec fn blank(text: Seq<char>, separator: Separator) -> bool {
    forall|i: int| 0 <= i < text.len() ==> separates(separator, #[trigger] text[i])
}

/// Whether every character of the text is a separator.
pub fn is_blank(text: &str, separator: Separator) -> (result: bool)
    ensures
        result == blank(text@, separator),
{
    let chars = to_chars(text);
    let mut i: usize = 0;
    while i < chars.len()
        invariant
            chars@ == text@,
            i <= chars@.len(),
            forall|j: int| 0 <= j < i ==> separates(separator, #[trigger] text@[j]),
        decreases chars.len() - i,
    {
        if !is_separator(separator, chars[i]) {
            assert(!separates(separator, text@[i as int]));
            return false;
        }
        i += 1;
    }
    true
}

/// `text` without the separators at its two ends.
pub open spec fn trimmed(text: Seq<char>, separator: Separator) -> Seq<char>
    decreases text.len(),
{
    if text.len() == 0 {
        text
    } else if separates(separator, text[0]) {
        trimmed(text.drop_first(), separator)
    } else if separates(separator, text.last()) {
        trimmed(text.drop_last(), separator)
    } else {
        text
    }
}

/// The text without the separators at its two ends.
pub fn trim(text: &str, separator: Separator) -> (result: String)
    ensures
        result@ == trimmed(text@, separator),
{
    let chars = to_chars(text);
    let mut start: usize = 0;
    let mut end: usize = chars.len();
    assert(text@.subrange(0, end as int) =~= text@);
    while start < end && is_separator(separator, chars[start])
        invariant
            chars@ == text@,
            start <= end == chars@.len(),
            trimmed(text@.subrange(start as int, end as int), separator) == trimmed(text@, separator),
        decreases end - start,
    {
        assert(text@.subrange(start as int, end as int).drop_first() =~= text@.subrange(start + 1, end as int));
        start += 1;
    }
    while start < end && is_separator(separator, chars[end - 1])
        invariant
            chars@ == text@,
            start <= end <= chars@.len(),
            start < end ==> !separates(separator, chars@[start as int]),
            trimmed(text@.subrange(start as int, end as int), separator) == trimmed(text@, separator),
        decreases end - start,
    {
        assert(text@.subrange(start as int, end as int).drop_last() =~= text@.subrange(start as int, end - 1));
        end -= 1;
    }
    proof {
        let rest = text@.subrange(start as int, end as int);
        if rest.len() > 0 {
            assert(rest[0] == chars@[start as int]);
            assert(rest.last() == chars@[end - 1]);
        }
        assert(trimmed(rest, separator) == rest);
    }
    from_chars(&chars, start, end)
}

/// `text` from `i` on with every occurrence of `from` replaced, taken from the
/// left without overlap.
pub open spec fn replaced_from(text: Seq<char>, from: Seq<char>, to: Seq<char>, i: int) -> Seq<char>
    decreases text.len() - i,
{
    if i < 0 || i >= text.len() {
        seq![]
    } else if from.len() > 0 && stands_at(text, from, i) {
        to + replaced_from(text, from, to, i + from.len())
    } else {
        seq![text[i]] + replaced_from(text, from, to, i + 1)
    }
}

/// `text` with `to` before and behind each of its characters from `i` on.
pub open spec fn interleaved_from(text: Seq<char>, to: Seq<char>, i: int) -> Seq<char>
    decreases text.len() - i,
{
    if i < 0 || i >= text.len() {
        to
    } else {
        to + seq![text[i]] + interleaved_from(text, to, i + 1)
    }
}

/// `text` with every occurrence of `from` replaced by `to`. The empty text
/// occurs at every boundary between characters.
pub open spec fn replaced(text: Seq<char>, from: Seq<char>, to: Seq<char>) -> Seq<char> {
    if from.len() == 0 {
        interleaved_from(text, to, 0)
    } else {
        replaced_from(text, from, to, 0)
    }
}

/// Replaces every occurrence of a text.
pub fn replace(text: &str, from: &str, to: &str) -> (result: String)
    ensures
        result@ == replaced(text@, from@, to@),
{
    let chars = to_chars(text);
    let needle = to_chars(from);
    let mut result = String::new();
    let mut i: usize = 0;
    if needle.len() == 0 {
        while i < chars.len()
            invariant
                chars@ == text@,
                i <= chars@.len(),
                result@ + interleaved_from(text@, to@, i as int) == interleaved_from(text@, to@, 0),
            decreases chars.len() - i,
        {
            let ghost before = result@;
            let ghost rest = interleaved_from(text@, to@, i + 1);
            result.append(to);
            result.push(chars[i]);
            assert(result@ + rest =~= before + (to@ + seq![text@[i as int]] + rest));
            i += 1;
        }
        result.append(to);
        return result;
    }
    assert(result@ + replaced_from(text@, from@, to@, 0) =~= replaced_from(text@, from@, to@, 0));
    while i < chars.len()
        invariant
            chars@ == text@,
            needle@ == from@,
            needle@.len() > 0,
            i <= chars@.len(),
            result@ + replaced_from(text@, from@, to@, i as int) == replaced_from(text@, from@, to@, 0),
        decreases chars.len() - i,
    {
        let ghost before = result@;
        if is_at(&chars, &needle, i) {
            let ghost rest = replaced_from(text@, from@, to@, i + from@.len());
            result.append(to);
            assert(result@ + rest =~= before + (to@ + rest));
            i += needle.len();
        } else {
            let ghost rest = replaced_from(text@, from@, to@, i + 1);
            result.push(chars[i]);
            assert(result@ + rest =~= before + (seq![text@[i as int]] + rest));
            i += 1;
        }
    }
    assert(result@ + replaced_from(text@, from@, to@, i as int) =~= result@);
    result
}

/// `a` stands before `b` in the order of their code points, from `i` on.
pub open spec fn precedes_from(a: Seq<char>, b: Seq<char>, i: int) -> bool
    decreases a.len() - i,
{
    if i < 0 || i >= b.len() {
        false
    } else if i >= a.len() {
        true
    } else if a[i] != b[i] {
        a[i] < b[i]
    } else {
        precedes_from(a, b, i + 1)
    }
}

/// `a` stands before `b` in the order of strings.
pub open spec fn precedes(a: Seq<char>, b: Seq<char>) -> bool {
    precedes_from(a, b, 0)
}

/// Whether `a` stands before `b` in the order of strings.
pub fn is_before(a: &str, b: &str) -> (result: bool)
    ensures
        result == precedes(a@, b@),
{
    let x = to_chars(a);
    let y = to_chars(b);
    let mut i: usize = 0;
    while i < x.len() && i < y.len()
        invariant
            x@ == a@,
            y@ == b@,
            i <= x@.len(),
            i <= y@.len(),
            precedes_from(a@, b@, i as int) == precedes(a@, b@),
        decreases x.len() - i,
    {
        if x[i] != y[i] {
            return x[i] < y[i];
        }
        i += 1;
    }
    i < y.len()
}

/// Of two different texts one precedes the other, and not the other way round.
pub proof fn lemma_precedes_total(a: Seq<char>, b: Seq<char>, i: int)
    requires
        0 <= i <= a.len(),
        i <= b.len(),
        a.take(i) == b.take(i),
    ensures
        a == b ==> !precedes_from(a, b, i),
        a != b ==> precedes_from(a, b, i) != precedes_from(b, a, i),
    decreases a.len() - i,
{
    if i < a.len() && i < b.len() && a[i] == b[i] {
        assert(a.take(i + 1) =~= a.take(i).push(a[i]));
        assert(b.take(i + 1) =~= b.take(i).push(b[i]));
        lemma_precedes_total(a, b, i + 1);
    } else if i == a.len() && i == b.len() {
        assert(a.take(i) =~= a);
        assert(b.take(i) =~= b);
    }
}

/// The decimal digits of a number.
pub open spec fn decimal(value: nat) -> Seq<char>
    decreases value,
{
    let digit = ('0' as u8 + value % 10) as char;
    if value < 10 {
        seq![digit]
    } else {
        decimal(value / 10).push(digit)
    }
}

/// Writes the decimal digits of a number.
pub fn push_decimal(text: &mut String, value: u64)
    ensures
        final(text)@ == old(text)@ + decimal(value as nat),
    decreases value,
{
    let ghost start = text@;
    if value >= 10 {
        push_decimal(text, value / 10);
    }
    let digit: u8 = (value % 10) as u8;
    text.push((48 + digit) as char);
    assert(text@ =~= start + decimal(value as nat));
}

/// The lowercase hexadecimal digit of a value below sixteen.
pub open spec fn hex_digit_of(value: nat) -> char {
    if value < 10 {
        ('0' as u8 + value) as char
    } else {
        ('a' as u8 + (value - 10)) as char
    }
}

/// The lowercase hexadecimal digits of a number.
pub open spec fn hexadecimal(value: nat) -> Seq<char>
    decreases value,
{
    if value < 16 {
        seq![hex_digit_of(value)]
    } else {
        hexadecimal(value / 16).push(hex_digit_of(value % 16))
    }
}

/// Writes the lowercase hexadecimal digits of a number.
pub fn push_hexadecimal(text: &mut String, value: u64)
    ensures
        final(text)@ == old(text)@ + hexadecimal(value as nat),
    decreases value,
{
    let ghost start = text@;
    if value >= 16 {
        push_hexadecimal(text, value / 16);
    }
    let digit: u8 = (value % 16) as u8;
    if digit < 10 {
        text.push((48 + digit) as char);
    } else {
        text.push((97 + (digit - 10)) as char);
    }
    assert(text@ =~= start + hexadecimal(value as nat));
}

} // verus!
