//! What splitting, joining, trimming and lowering do to a text.
use crate::snapshots::unix_lines;
use crate::text::{
    ascii_lower, ascii_lowered, cut, is_word, joined, lemma_boundary_in_prefix, lemma_no_separator, nonempty, pieces, pieces_from,
    replaced, replaced_from, separates, stands_at, trimmed, words, Separator,
};
use vstd::prelude::*;
use vstd::utf8::*;

verus! {

// ---------------------------------------------------------------------------
// Words
// ---------------------------------------------------------------------------

/// The text consists of separators.
pub open spec fn blank(text: Seq<char>, separator: Separator) -> bool {
    forall|i: int| 0 <= i < text.len() ==> separates(separator, #[trigger] text[i])
}

/// A word that ends the first text does not run on in the second.
pub open spec fn parted(a: Seq<char>, b: Seq<char>, separator: Separator) -> bool {
    ||| a.len() == 0
    ||| b.len() == 0
    ||| separates(separator, a.last())
    ||| separates(separator, b[0])
}

proof fn lemma_pieces_shift(head: Seq<char>, text: Seq<char>, separator: Separator, start: int, i: int)
    requires
        0 <= start <= i <= text.len(),
    ensures
        pieces_from(head + text, separator, head.len() + start, head.len() + i) == pieces_from(
            text,
            separator,
            start,
            i,
        ),
    decreases text.len() - i,
{
    let whole = head + text;
    let n = head.len() as int;
    if i < text.len() {
        assert(whole[n + i] == text[i]);
        assert(whole.subrange(n + start, n + i) =~= text.subrange(start, i));
        if separates(separator, text[i]) {
            lemma_pieces_shift(head, text, separator, i + 1, i + 1);
        } else {
            lemma_pieces_shift(head, text, separator, start, i + 1);
        }
    } else {
        assert(whole.subrange(n + start, whole.len() as int) =~= text.subrange(start, text.len() as int));
    }
}

proof fn lemma_pieces_around(a: Seq<char>, c: char, b: Seq<char>, separator: Separator, start: int, i: int)
    requires
        0 <= start <= i <= a.len(),
        separates(separator, c),
    ensures
        pieces_from(a + seq![c] + b, separator, start, i) == pieces_from(a, separator, start, i) + pieces(b, separator),
    decreases a.len() - i,
{
    let whole = a + seq![c] + b;
    let n = a.len() as int;
    if i < n {
        assert(whole[i] == a[i]);
        if separates(separator, a[i]) {
            lemma_pieces_around(a, c, b, separator, i + 1, i + 1);
            assert(whole.subrange(start, i) =~= a.subrange(start, i));
            assert(pieces_from(whole, separator, start, i) =~= pieces_from(a, separator, start, i) + pieces(
                b,
                separator,
            ));
        } else {
            lemma_pieces_around(a, c, b, separator, start, i + 1);
        }
    } else {
        assert(whole[n] == c);
        lemma_pieces_shift(a + seq![c], b, separator, 0, 0);
        assert(whole.subrange(start, n) =~= a.subrange(start, n));
        assert(pieces_from(whole, separator, start, i) =~= pieces_from(a, separator, start, i) + pieces(b, separator));
    }
}

proof fn lemma_nonempty_concat(a: Seq<Seq<char>>, b: Seq<Seq<char>>)
    ensures
        nonempty(a + b) == nonempty(a) + nonempty(b),
    decreases a.len(),
{
    if a.len() == 0 {
        assert(a + b =~= b);
        assert(nonempty(a) + nonempty(b) =~= nonempty(b));
    } else {
        assert((a + b).drop_first() =~= a.drop_first() + b);
        assert((a + b)[0] == a[0]);
        lemma_nonempty_concat(a.drop_first(), b);
        assert(nonempty(a + b) =~= nonempty(a) + nonempty(b));
    }
}

proof fn lemma_words_around(a: Seq<char>, c: char, b: Seq<char>, separator: Separator)
    requires
        separates(separator, c),
    ensures
        words(a + seq![c] + b, separator) == words(a, separator) + words(b, separator),
{
    lemma_pieces_around(a, c, b, separator, 0, 0);
    lemma_nonempty_concat(pieces(a, separator), pieces(b, separator));
}

proof fn lemma_no_words(separator: Separator)
    ensures
        words(Seq::<char>::empty(), separator) == Seq::<Seq<char>>::empty(),
{
    let text = Seq::<char>::empty();
    assert(text.subrange(0, 0) =~= text);
    let list = pieces(text, separator);
    assert(list == seq![text.subrange(0, 0)]);
    assert(list[0].len() == 0);
    assert(list.drop_first() =~= Seq::<Seq<char>>::empty());
    assert(nonempty(list.drop_first()) =~= Seq::<Seq<char>>::empty());
}

/// The words of a text are read from left to right, each once and as it
/// stands: those of two texts that no word joins are the words of the first and
/// then those of the second, a text of separators has none, and a text without
/// a separator is a word of its own.
pub proof fn words_are_read_from_left_to_right(a: Seq<char>, b: Seq<char>, separator: Separator)
    ensures
        parted(a, b, separator) ==> words(a + b, separator) == words(a, separator) + words(b, separator),
        blank(a, separator) ==> words(a, separator) == Seq::<Seq<char>>::empty(),
        is_word(a, separator) ==> words(a, separator) == seq![a],
    decreases a.len(),
{
    let none = Seq::<char>::empty();
    lemma_no_words(separator);
    if parted(a, b, separator) {
        if a.len() == 0 {
            assert(a + b =~= b);
            assert(a =~= none);
            assert(words(a, separator) + words(b, separator) =~= words(b, separator));
        } else if b.len() == 0 {
            assert(a + b =~= a);
            assert(b =~= none);
            assert(words(a, separator) + words(b, separator) =~= words(a, separator));
        } else if separates(separator, a.last()) {
            let head = a.drop_last();
            lemma_words_around(head, a.last(), b, separator);
            lemma_words_around(head, a.last(), none, separator);
            assert(head + seq![a.last()] + b =~= a + b);
            assert(head + seq![a.last()] + none =~= a);
            assert(words(head, separator) + words(none, separator) =~= words(head, separator));
        } else {
            let tail = b.drop_first();
            lemma_words_around(a, b[0], tail, separator);
            lemma_words_around(none, b[0], tail, separator);
            assert(a + seq![b[0]] + tail =~= a + b);
            assert(none + seq![b[0]] + tail =~= b);
            assert(words(none, separator) + words(tail, separator) =~= words(tail, separator));
        }
    }
    if blank(a, separator) {
        if a.len() == 0 {
            assert(a =~= none);
        } else {
            let head = a.drop_last();
            assert forall|i: int| 0 <= i < head.len() implies separates(separator, #[trigger] head[i]) by {
                assert(separates(separator, a[i]));
            }
            words_are_read_from_left_to_right(head, none, separator);
            assert(separates(separator, a[a.len() - 1]));
            lemma_words_around(head, a.last(), none, separator);
            assert(head + seq![a.last()] + none =~= a);
            assert(words(a, separator) =~= Seq::<Seq<char>>::empty());
        }
    }
    if is_word(a, separator) {
        lemma_no_separator(a, separator, 0, 0);
        assert(a.subrange(0, a.len() as int) =~= a);
        let list = seq![a];
        assert(list.drop_first() =~= Seq::<Seq<char>>::empty());
        assert(nonempty(list.drop_first()) =~= Seq::<Seq<char>>::empty());
        assert(words(a, separator) =~= list);
    }
}

// ---------------------------------------------------------------------------
// Joining and trimming
// ---------------------------------------------------------------------------

/// A joined list is its texts in order, with the glue between neighbours and
/// nowhere else.
pub proof fn joining_keeps_texts_and_order(a: Seq<Seq<char>>, b: Seq<Seq<char>>, glue: Seq<char>)
    ensures
        joined(Seq::<Seq<char>>::empty(), glue) == Seq::<char>::empty(),
        a.len() == 1 ==> joined(a, glue) == a[0],
        a.len() > 0 && b.len() > 0 ==> joined(a + b, glue) == joined(a, glue) + glue + joined(b, glue),
    decreases b.len(),
{
    if a.len() > 0 && b.len() > 0 {
        let rest = b.drop_last();
        assert((a + b).drop_last() =~= a + rest);
        assert((a + b).last() == b.last());
        if rest.len() == 0 {
            assert(a + rest =~= a);
            assert(joined(b, glue) == b[0]);
        } else {
            joining_keeps_texts_and_order(a, rest, glue);
            assert(joined(a + b, glue) =~= joined(a, glue) + glue + joined(b, glue));
        }
    }
}

/// Trimming takes separators from the two ends and nothing else.
pub proof fn trimming_takes_separators_from_the_ends(text: Seq<char>, separator: Separator)
    ensures
        exists|head: Seq<char>, tail: Seq<char>|
            blank(head, separator) && blank(tail, separator) && text == #[trigger] (head + trimmed(text, separator)
                + tail),
        trimmed(text, separator).len() > 0 ==> !separates(separator, trimmed(text, separator)[0]) && !separates(
            separator,
            trimmed(text, separator).last(),
        ),
    decreases text.len(),
{
    let none = Seq::<char>::empty();
    let result = trimmed(text, separator);
    if text.len() == 0 {
        assert(text =~= none + result + none);
    } else if separates(separator, text[0]) {
        let rest = text.drop_first();
        trimming_takes_separators_from_the_ends(rest, separator);
        let (head, tail) = choose|head: Seq<char>, tail: Seq<char>|
            blank(head, separator) && blank(tail, separator) && rest == #[trigger] (head + trimmed(rest, separator)
                + tail);
        let more = seq![text[0]] + head;
        assert(blank(more, separator)) by {
            assert forall|i: int| 0 <= i < more.len() implies separates(separator, #[trigger] more[i]) by {
                if i > 0 {
                    assert(separates(separator, head[i - 1]));
                }
            }
        }
        assert(text =~= seq![text[0]] + rest);
        assert(seq![text[0]] + (head + result + tail) =~= more + result + tail);
    } else if separates(separator, text.last()) {
        let rest = text.drop_last();
        trimming_takes_separators_from_the_ends(rest, separator);
        let (head, tail) = choose|head: Seq<char>, tail: Seq<char>|
            blank(head, separator) && blank(tail, separator) && rest == #[trigger] (head + trimmed(rest, separator)
                + tail);
        let more = tail.push(text.last());
        assert(blank(more, separator)) by {
            assert forall|i: int| 0 <= i < more.len() implies separates(separator, #[trigger] more[i]) by {
                if i < tail.len() {
                    assert(separates(separator, tail[i]));
                }
            }
        }
        assert(text =~= rest.push(text.last()));
        assert((head + result + tail).push(text.last()) =~= head + result + more);
    } else {
        assert(text =~= none + result + none);
    }
}

/// Lowering changes the letters A to Z and nothing else.
pub proof fn lowering_changes_capital_letters_only(text: Seq<char>)
    ensures
        ascii_lowered(text).len() == text.len(),
        forall|i: int|
            0 <= i < text.len() ==> if 'A' <= text[i] <= 'Z' {
                #[trigger] ascii_lowered(text)[i] as int == text[i] as int + 32
            } else {
                ascii_lowered(text)[i] == text[i]
            },
{
    assert forall|i: int| 0 <= i < text.len() implies if 'A' <= text[i] <= 'Z' {
        #[trigger] ascii_lowered(text)[i] as int == text[i] as int + 32
    } else {
        ascii_lowered(text)[i] == text[i]
    } by {
        assert(ascii_lowered(text)[i] == ascii_lower(text[i]));
    }
}

// ---------------------------------------------------------------------------
// Cutting
// ---------------------------------------------------------------------------

/// A part cut out of a text holds the bytes between the two offsets, and it can
/// be cut exactly where both lie between characters, in order.
pub proof fn cutting_takes_the_bytes_between(text: Seq<char>, start: int, end: int)
    ensures
        cut(text, start, end) is Some <==> 0 <= start <= end <= encode_utf8(text).len() && is_char_boundary(
            encode_utf8(text),
            start,
        ) && is_char_boundary(encode_utf8(text), end),
        cut(text, start, end) matches Some(part) ==> encode_utf8(part) == encode_utf8(text).subrange(start, end),
{
    let bytes = encode_utf8(text);
    if cut(text, start, end) is Some {
        encode_utf8_valid_utf8(text);
        lemma_boundary_in_prefix(bytes, start, end);
        let prefix = bytes.subrange(0, end);
        valid_utf8_split(prefix, start);
        assert(prefix.subrange(start, end) =~= bytes.subrange(start, end));
        decode_utf8_encode_utf8(bytes.subrange(start, end));
    }
}

// ---------------------------------------------------------------------------
// Replacing
// ---------------------------------------------------------------------------

proof fn lemma_replaced_char(text: Seq<char>, a: char, b: char, i: int)
    requires
        0 <= i <= text.len(),
    ensures
        replaced_from(text, seq![a], seq![b], i) == Seq::new(
            (text.len() - i) as nat,
            |k: int| if text[i + k] == a {
                b
            } else {
                text[i + k]
            },
        ),
    decreases text.len() - i,
{
    let goal = Seq::new(
        (text.len() - i) as nat,
        |k: int| if text[i + k] == a {
            b
        } else {
            text[i + k]
        },
    );
    if i < text.len() {
        lemma_replaced_char(text, a, b, i + 1);
        let from = seq![a];
        let piece = text.subrange(i, i + 1);
        assert(piece[0] == text[i]);
        if text[i] == a {
            assert(piece =~= from);
            assert(stands_at(text, from, i));
        } else {
            assert(!stands_at(text, from, i)) by {
                if stands_at(text, from, i) {
                    assert(piece == from);
                    assert(from[0] == a);
                }
            }
        }
        let rest = replaced_from(text, seq![a], seq![b], i + 1);
        let head = if text[i] == a {
            b
        } else {
            text[i]
        };
        assert(replaced_from(text, seq![a], seq![b], i) == seq![head] + rest);
        assert forall|k: int| 0 <= k < goal.len() implies (seq![head] + rest)[k] == goal[k] by {
            if k > 0 {
                assert(rest[k - 1] == if text[(i + 1) + (k - 1)] == a {
                    b
                } else {
                    text[(i + 1) + (k - 1)]
                });
            }
        }
        assert(seq![head] + rest =~= goal);
    } else {
        assert(replaced_from(text, seq![a], seq![b], i) =~= goal);
    }
}

/// Replacing one character by another changes every such character, where it
/// stands, and nothing else.
pub proof fn replacing_a_character_keeps_the_others(text: Seq<char>, a: char, b: char)
    ensures
        ({
            let after = replaced(text, seq![a], seq![b]);
            &&& after.len() == text.len()
            &&& forall|i: int|
                0 <= i < text.len() ==> #[trigger] after[i] == if text[i] == a {
                    b
                } else {
                    text[i]
                }
        }),
{
    lemma_replaced_char(text, a, b, 0);
}

proof fn lemma_absent(text: Seq<char>, from: Seq<char>, to: Seq<char>, i: int)
    requires
        0 <= i <= text.len(),
        from.len() > 0,
        forall|k: int| 0 <= k < text.len() ==> #[trigger] text[k] != from[0],
    ensures
        replaced_from(text, from, to, i) == text.skip(i),
    decreases text.len() - i,
{
    if i < text.len() {
        lemma_absent(text, from, to, i + 1);
        assert(!stands_at(text, from, i)) by {
            if stands_at(text, from, i) {
                assert(text.subrange(i, i + from.len())[0] == text[i]);
            }
        }
        assert(text.skip(i) =~= seq![text[i]] + text.skip(i + 1));
    } else {
        assert(text.skip(i) =~= seq![]);
    }
}

/// Lines end in line feeds alone: no carriage return is left, and a text without
/// one does not change.
pub proof fn lines_end_in_line_feeds(text: Seq<char>)
    ensures
        !unix_lines(text).contains('\r'),
        !text.contains('\r') ==> unix_lines(text) == text,
{
    reveal_strlit("\r\n");
    reveal_strlit("\r");
    reveal_strlit("\n");
    assert("\r"@ =~= seq!['\r']);
    assert("\n"@ =~= seq!['\n']);
    let first = replaced(text, "\r\n"@, "\n"@);
    replacing_a_character_keeps_the_others(first, '\r', '\n');
    let after = unix_lines(text);
    assert forall|i: int| 0 <= i < after.len() implies #[trigger] after[i] != '\r' by {}
    if !text.contains('\r') {
        assert forall|k: int| 0 <= k < text.len() implies #[trigger] text[k] != "\r\n"@[0] by {
            assert(text.contains(text[k]));
        }
        lemma_absent(text, "\r\n"@, "\n"@, 0);
        assert(text.skip(0) =~= text);
        assert(after =~= text) by {
            assert forall|i: int| 0 <= i < text.len() implies #[trigger] after[i] == text[i] by {
                assert(text.contains(text[i]));
            }
        }
    }
}

} // verus!
