//! How media conditions are scanned: what nested parentheses hide, and what
//! whitespace does not change.
use crate::media::{chain_from, collapsed, css_trimmed, group_end, once_from, operator_at, parts_from, ChainModel};
use crate::text::{
    ascii_whitespace, is_word, joined, lemma_no_separator, lemma_nonempty_push, lemma_words_are_words, nonempty, pieces, pieces_from,
    separates, words, Separator,
};
use vstd::prelude::*;

verus! {

// ---------------------------------------------------------------------------
// Nesting
// ---------------------------------------------------------------------------

/// The characters that a scan outside parentheses stops at.
pub enum Stop {
    Nothing,
    Char(char),
    /// The start of a comparison.
    Operator,
    /// A colon or the start of a comparison.
    Value,
}

pub open spec fn operator_char(c: char) -> bool {
    c == '<' || c == '>' || c == '='
}

pub open spec fn stops(stop: Stop, c: char) -> bool {
    match stop {
        Stop::Nothing => false,
        Stop::Char(own) => c == own,
        Stop::Operator => operator_char(c),
        Stop::Value => c == ':' || operator_char(c),
    }
}

/// The depth behind a character; nothing where it closes what is not open, or
/// where the scan stops at it.
pub open spec fn behind(c: char, depth: int, stop: Stop) -> Option<int> {
    if c == '(' {
        Some(depth + 1)
    } else if c == ')' {
        if depth <= 0 {
            None
        } else {
            Some(depth - 1)
        }
    } else if depth == 0 && stops(stop, c) {
        None
    } else {
        Some(depth)
    }
}

/// The depth at `j`, scanned from `i` on.
pub open spec fn depth_at(text: Seq<char>, i: int, j: int, depth: int, stop: Stop) -> Option<int>
    decreases j - i,
{
    if i >= j {
        Some(depth)
    } else {
        match behind(text[i], depth, stop) {
            Some(next) => depth_at(text, i + 1, j, next, stop),
            None => None,
        }
    }
}

/// The depth behind a text.
pub open spec fn depth_behind(text: Seq<char>, depth: int, stop: Stop) -> Option<int> {
    depth_at(text, 0, text.len() as int, depth, stop)
}

/// The parentheses of the text are balanced, and nothing outside them stops
/// the scan.
pub open spec fn balanced(text: Seq<char>, stop: Stop) -> bool {
    depth_behind(text, 0, stop) == Some(0int)
}

pub proof fn lemma_depth_split(text: Seq<char>, i: int, j: int, k: int, depth: int, stop: Stop)
    requires
        i <= j <= k,
    ensures
        depth_at(text, i, k, depth, stop) == match depth_at(text, i, j, depth, stop) {
            Some(middle) => depth_at(text, j, k, middle, stop),
            None => None,
        },
    decreases j - i,
{
    if i < j {
        if let Some(next) = behind(text[i], depth, stop) {
            lemma_depth_split(text, i + 1, j, k, next, stop);
        }
    }
}

pub proof fn lemma_depth_shift(text: Seq<char>, i: int, part: Seq<char>, k: int, depth: int, stop: Stop)
    requires
        0 <= i,
        0 <= k <= part.len(),
        i + part.len() <= text.len(),
        part == text.subrange(i, i + part.len()),
    ensures
        depth_at(text, i + k, i + part.len(), depth, stop) == depth_at(part, k, part.len() as int, depth, stop),
    decreases part.len() - k,
{
    if k < part.len() {
        assert(part[k] == text[i + k]);
        if let Some(next) = behind(part[k], depth, stop) {
            lemma_depth_shift(text, i, part, k + 1, next, stop);
        }
    }
}

/// The depth behind a part of a text.
pub proof fn lemma_depth_part(text: Seq<char>, i: int, j: int, depth: int, stop: Stop)
    requires
        0 <= i <= j <= text.len(),
    ensures
        depth_at(text, i, j, depth, stop) == depth_behind(text.subrange(i, j), depth, stop),
{
    lemma_depth_shift(text, i, text.subrange(i, j), 0, depth, stop);
}

pub proof fn lemma_depth_concat(a: Seq<char>, b: Seq<char>, depth: int, stop: Stop)
    ensures
        depth_behind(a + b, depth, stop) == match depth_behind(a, depth, stop) {
            Some(middle) => depth_behind(b, middle, stop),
            None => None,
        },
{
    let whole = a + b;
    let n = a.len() as int;
    assert(whole.subrange(0, n) =~= a);
    assert(whole.subrange(n, whole.len() as int) =~= b);
    lemma_depth_split(whole, 0, n, whole.len() as int, depth, stop);
    lemma_depth_part(whole, 0, n, depth, stop);
    if let Some(middle) = depth_behind(a, depth, stop) {
        lemma_depth_part(whole, n, whole.len() as int, middle, stop);
    }
}

pub proof fn lemma_balanced_concat(a: Seq<char>, b: Seq<char>, stop: Stop)
    requires
        balanced(a, stop),
        balanced(b, stop),
    ensures
        balanced(a + b, stop),
{
    lemma_depth_concat(a, b, 0, stop);
}

/// The text holds no parenthesis and nothing that stops the scan.
pub open spec fn level(text: Seq<char>, stop: Stop) -> bool {
    forall|i: int|
        0 <= i < text.len() ==> (#[trigger] text[i]) != '(' && text[i] != ')' && !stops(stop, text[i])
}

pub proof fn lemma_level(text: Seq<char>, i: int, depth: int, stop: Stop)
    requires
        0 <= i <= text.len(),
        level(text, stop),
    ensures
        depth_at(text, i, text.len() as int, depth, stop) == Some(depth),
    decreases text.len() - i,
{
    if i < text.len() {
        assert(text[i] != '(');
        lemma_level(text, i + 1, depth, stop);
    }
}

pub proof fn lemma_level_balanced(text: Seq<char>, stop: Stop)
    requires
        level(text, stop),
    ensures
        balanced(text, stop),
{
    lemma_level(text, 0, 0, stop);
}

/// A scan that stops at more comes no further.
pub proof fn lemma_depth_weaken(text: Seq<char>, i: int, j: int, depth: int, stop: Stop)
    requires
        depth_at(text, i, j, depth, stop) is Some,
    ensures
        depth_at(text, i, j, depth, Stop::Nothing) == depth_at(text, i, j, depth, stop),
        stop is Value ==> depth_at(text, i, j, depth, Stop::Char(':')) == depth_at(text, i, j, depth, stop),
        stop is Value ==> depth_at(text, i, j, depth, Stop::Operator) == depth_at(text, i, j, depth, stop),
    decreases j - i,
{
    if i < j {
        let next = behind(text[i], depth, stop)->0;
        lemma_depth_weaken(text, i + 1, j, next, stop);
    }
}

pub proof fn lemma_depth_both(text: Seq<char>, i: int, j: int, depth: int)
    requires
        depth_at(text, i, j, depth, Stop::Char(':')) is Some,
        depth_at(text, i, j, depth, Stop::Operator) is Some,
    ensures
        depth_at(text, i, j, depth, Stop::Value) == depth_at(text, i, j, depth, Stop::Char(':')),
    decreases j - i,
{
    if i < j {
        let next = behind(text[i], depth, Stop::Operator)->0;
        assert(behind(text[i], depth, Stop::Char(':')) == Some(next));
        lemma_depth_both(text, i + 1, j, next);
    }
}

/// Inside parentheses nothing stops the scan.
pub proof fn lemma_depth_raised(text: Seq<char>, i: int, j: int, depth: int, stop: Stop)
    requires
        depth >= 0,
        depth_at(text, i, j, depth, Stop::Nothing) is Some,
    ensures
        depth_at(text, i, j, depth + 1, stop) == Some(depth_at(text, i, j, depth, Stop::Nothing)->0 + 1),
        depth_at(text, i, j, depth, Stop::Nothing)->0 >= 0,
    decreases j - i,
{
    if i < j {
        let next = behind(text[i], depth, Stop::Nothing)->0;
        lemma_depth_raised(text, i + 1, j, next, stop);
    }
}

/// What stands in parentheses is balanced.
pub proof fn lemma_group_balanced(inner: Seq<char>, stop: Stop)
    requires
        balanced(inner, Stop::Nothing),
    ensures
        balanced(seq!['('] + inner + seq![')'], stop),
{
    let open = seq!['('];
    let close = seq![')'];
    lemma_depth_raised(inner, 0, inner.len() as int, 0, stop);
    lemma_depth_concat(open + inner, close, 0, stop);
    lemma_depth_concat(open, inner, 0, stop);
    assert(depth_at(open, 1, 1, 1, stop) == Some(1int));
    assert(depth_behind(open, 0, stop) == Some(1int));
    assert(depth_at(close, 1, 1, 0, stop) == Some(0int));
    assert(depth_behind(close, 1, stop) == Some(0int));
}

// ---------------------------------------------------------------------------
// Scans
// ---------------------------------------------------------------------------

pub proof fn lemma_group_scan(text: Seq<char>, i: int, j: int, depth: int)
    requires
        0 <= i <= j < text.len(),
        depth >= 0,
        depth_at(text, i, j, depth, Stop::Nothing) is Some,
    ensures
        group_end(text, i, depth + 1) == group_end(text, j, depth_at(text, i, j, depth, Stop::Nothing)->0 + 1),
        depth_at(text, i, j, depth, Stop::Nothing)->0 >= 0,
    decreases j - i,
{
    if i < j {
        let next = behind(text[i], depth, Stop::Nothing)->0;
        lemma_group_scan(text, i + 1, j, next);
    }
}

pub proof fn lemma_group_found(text: Seq<char>, i: int, depth: int)
    requires
        0 <= i <= text.len(),
        depth >= 1,
        group_end(text, i, depth) is Some,
    ensures
        ({
            let end = group_end(text, i, depth)->0;
            &&& i < end <= text.len()
            &&& depth_at(text, i, end - 1, depth - 1, Stop::Nothing) == Some(0int)
        }),
    decreases text.len() - i,
{
    if text[i] == '(' {
        lemma_group_found(text, i + 1, depth + 1);
    } else if text[i] == ')' {
        if depth > 1 {
            lemma_group_found(text, i + 1, depth - 1);
        } else {
            assert(group_end(text, i + 1, 0) == Some(i + 1));
        }
    } else {
        lemma_group_found(text, i + 1, depth);
    }
}

pub proof fn lemma_once_scan(text: Seq<char>, separator: char, i: int, j: int, depth: int)
    requires
        0 <= i <= j <= text.len(),
        depth >= 0,
        separator != '(',
        separator != ')',
        depth_at(text, i, j, depth, Stop::Char(separator)) is Some,
    ensures
        once_from(text, separator, i, depth) == once_from(
            text,
            separator,
            j,
            depth_at(text, i, j, depth, Stop::Char(separator))->0,
        ),
    decreases j - i,
{
    if i < j {
        let next = behind(text[i], depth, Stop::Char(separator))->0;
        lemma_once_scan(text, separator, i + 1, j, next);
    }
}

/// Where a balanced text is cut, or that nothing cuts it.
pub proof fn lemma_once_found(text: Seq<char>, separator: char, i: int, depth: int)
    requires
        0 <= i <= text.len(),
        depth >= 0,
        separator != '(',
        separator != ')',
        depth_at(text, i, text.len() as int, depth, Stop::Nothing) is Some,
    ensures
        match once_from(text, separator, i, depth) {
            Some(sides) => exists|k: int|
                i <= k < text.len() && text[k] == separator && sides == (text.take(k), text.skip(k + 1))
                    && #[trigger] depth_at(text, i, k, depth, Stop::Char(separator)) == Some(0int),
            None => depth_at(text, i, text.len() as int, depth, Stop::Char(separator)) == depth_at(
                text,
                i,
                text.len() as int,
                depth,
                Stop::Nothing,
            ),
        },
    decreases text.len() - i,
{
    if i < text.len() {
        if depth == 0 && text[i] == separator {
            assert(depth_at(text, i, i, depth, Stop::Char(separator)) == Some(0int));
        } else {
            let next = behind(text[i], depth, Stop::Nothing)->0;
            assert(behind(text[i], depth, Stop::Char(separator)) == Some(next));
            lemma_once_found(text, separator, i + 1, next);
            if let Some(sides) = once_from(text, separator, i + 1, next) {
                let k = choose|k: int|
                    i + 1 <= k < text.len() && text[k] == separator && sides == (text.take(k), text.skip(k + 1))
                        && #[trigger] depth_at(text, i + 1, k, next, Stop::Char(separator)) == Some(0int);
                assert(depth_at(text, i, k, depth, Stop::Char(separator)) == Some(0int));
            }
        }
    }
}

pub proof fn lemma_chain_scan(text: Seq<char>, start: int, i: int, j: int, depth: int)
    requires
        0 <= i <= j <= text.len(),
        depth >= 0,
        depth_at(text, i, j, depth, Stop::Operator) is Some,
    ensures
        chain_from(text, start, i, depth) == chain_from(
            text,
            start,
            j,
            depth_at(text, i, j, depth, Stop::Operator)->0,
        ),
    decreases j - i,
{
    if i < j {
        let next = behind(text[i], depth, Stop::Operator)->0;
        lemma_chain_scan(text, start, i + 1, j, next);
    }
}

/// The first comparison of a chain.
pub open spec fn first_operator(text: Seq<char>, start: int, i: int, depth: int, chain: ChainModel, k: int) -> bool {
    &&& i <= k < text.len()
    &&& operator_char(text[k])
    &&& depth_at(text, i, k, depth, Stop::Operator) == Some(0int)
    &&& operator_at(text, k) matches Some(op) && chain.pairs.len() > 0 && chain.pairs[0] == (
        text.subrange(start, k),
        op.0,
    ) && chain_from(text, op.1, op.1, 0) == Some(
        ChainModel { pairs: chain.pairs.drop_first(), trailing: chain.trailing },
    )
}

/// Where the first comparison stands, or that there is none.
pub proof fn lemma_chain_found(text: Seq<char>, start: int, i: int, depth: int)
    requires
        0 <= start <= i <= text.len(),
        depth >= 0,
        chain_from(text, start, i, depth) is Some,
    ensures
        ({
            let chain = chain_from(text, start, i, depth)->0;
            if chain.pairs.len() == 0 {
                &&& chain.trailing == text.subrange(start, text.len() as int)
                &&& depth_at(text, i, text.len() as int, depth, Stop::Operator) is Some
            } else {
                exists|k: int| #[trigger] first_operator(text, start, i, depth, chain, k)
            }
        }),
    decreases text.len() - i,
{
    let chain = chain_from(text, start, i, depth)->0;
    if i < text.len() {
        if operator_char(text[i]) && depth == 0 {
            let op = operator_at(text, i)->0;
            let rest = chain_from(text, op.1, op.1, 0)->0;
            assert(chain.pairs.drop_first() =~= rest.pairs);
            assert(depth_at(text, i, i, depth, Stop::Operator) == Some(0int));
            assert(first_operator(text, start, i, depth, chain, i));
        } else {
            let next = behind(text[i], depth, Stop::Operator)->0;
            lemma_chain_found(text, start, i + 1, next);
            if chain.pairs.len() > 0 {
                let k = choose|k: int| #[trigger] first_operator(text, start, i + 1, next, chain, k);
                assert(first_operator(text, start, i, depth, chain, k));
            }
        }
    }
}

pub proof fn lemma_parts_scan(text: Seq<char>, start: int, i: int, j: int, depth: int)
    requires
        0 <= i <= j <= text.len(),
        depth >= 0,
        depth_at(text, i, j, depth, Stop::Char(',')) is Some,
    ensures
        parts_from(text, ',', start, i, depth) == parts_from(
            text,
            ',',
            start,
            j,
            depth_at(text, i, j, depth, Stop::Char(','))->0,
        ),
    decreases j - i,
{
    if i < j {
        let next = behind(text[i], depth, Stop::Char(','))->0;
        lemma_parts_scan(text, start, i + 1, j, next);
    }
}

// ---------------------------------------------------------------------------
// Whitespace
// ---------------------------------------------------------------------------

/// Whitespace is single spaces between other characters.
pub open spec fn neat(text: Seq<char>) -> bool {
    forall|i: int|
        0 <= i < text.len() && ascii_whitespace(#[trigger] text[i]) ==> text[i] == ' ' && 0 < i && i + 1 < text.len()
            && !ascii_whitespace(text[i + 1])
}

/// The text holds no whitespace.
pub open spec fn unspaced(text: Seq<char>) -> bool {
    forall|i: int| 0 <= i < text.len() ==> !ascii_whitespace(#[trigger] text[i])
}

pub proof fn lemma_neat_concat(a: Seq<char>, b: Seq<char>)
    requires
        neat(a),
        neat(b),
    ensures
        neat(a + b),
{
    let whole = a + b;
    assert forall|i: int| 0 <= i < whole.len() && ascii_whitespace(#[trigger] whole[i]) implies whole[i] == ' ' && 0 < i
        && i + 1 < whole.len() && !ascii_whitespace(whole[i + 1]) by {
        if i < a.len() {
            assert(whole[i] == a[i]);
            assert(whole[i + 1] == a[i + 1]);
        } else {
            assert(whole[i] == b[i - a.len()]);
            assert(whole[i + 1] == b[i - a.len() + 1]);
        }
    }
}

pub proof fn lemma_neat_spaced(a: Seq<char>, b: Seq<char>)
    requires
        neat(a),
        neat(b),
        a.len() > 0,
        b.len() > 0,
    ensures
        neat(a + seq![' '] + b),
{
    let whole = a + seq![' '] + b;
    assert forall|i: int| 0 <= i < whole.len() && ascii_whitespace(#[trigger] whole[i]) implies whole[i] == ' ' && 0 < i
        && i + 1 < whole.len() && !ascii_whitespace(whole[i + 1]) by {
        if i < a.len() {
            assert(whole[i] == a[i]);
            assert(whole[i + 1] == a[i + 1]);
        } else if i == a.len() {
            assert(whole[i + 1] == b[0]);
        } else {
            assert(whole[i] == b[i - a.len() - 1]);
            assert(whole[i + 1] == b[i - a.len()]);
        }
    }
}

pub proof fn lemma_space()
    ensures
        " "@ == seq![' '],
{
    reveal_strlit(" ");
    assert(" "@ =~= seq![' ']);
}

pub proof fn lemma_neat_joined(list: Seq<Seq<char>>)
    requires
        forall|i: int| 0 <= i < list.len() ==> neat(#[trigger] list[i]) && list[i].len() > 0,
    ensures
        neat(joined(list, " "@)),
        list.len() > 0 ==> joined(list, " "@).len() > 0,
    decreases list.len(),
{
    lemma_space();
    if list.len() > 0 {
        assert(neat(list[list.len() - 1]));
        if list.len() > 1 {
            let rest = list.drop_last();
            assert forall|i: int| 0 <= i < rest.len() implies neat(#[trigger] rest[i]) && rest[i].len() > 0 by {
                assert(neat(list[i]));
            }
            lemma_neat_joined(rest);
            lemma_neat_spaced(joined(rest, " "@), list.last());
        } else {
            assert(neat(list[0]));
        }
    }
}

pub proof fn lemma_collapsed_neat(text: Seq<char>)
    ensures
        neat(collapsed(text)),
{
    let list = words(text, Separator::AsciiWhitespace);
    lemma_words_are_words(text, Separator::AsciiWhitespace);
    assert forall|i: int| 0 <= i < list.len() implies neat(#[trigger] list[i]) && list[i].len() > 0 by {
        assert(is_word(list[i], Separator::AsciiWhitespace));
        assert forall|k: int| 0 <= k < list[i].len() implies !ascii_whitespace(#[trigger] list[i][k]) by {
            assert(!separates(Separator::AsciiWhitespace, list[i][k]));
        }
    }
    lemma_neat_joined(list);
}

/// The pieces of a text behind a separator and one more piece.
pub proof fn lemma_pieces_behind(text: Seq<char>, c: char, tail: Seq<char>, start: int, i: int)
    requires
        0 <= start <= i <= text.len(),
        ascii_whitespace(c),
        unspaced(tail),
    ensures
        pieces_from(text + seq![c] + tail, Separator::AsciiWhitespace, start, i) == pieces_from(
            text,
            Separator::AsciiWhitespace,
            start,
            i,
        ).push(tail),
    decreases text.len() - i,
{
    let separator = Separator::AsciiWhitespace;
    let whole = text + seq![c] + tail;
    if i < text.len() {
        assert(whole[i] == text[i]);
        if separates(separator, text[i]) {
            lemma_pieces_behind(text, c, tail, i + 1, i + 1);
            assert(whole.subrange(start, i) =~= text.subrange(start, i));
            assert(pieces_from(whole, separator, start, i) =~= pieces_from(text, separator, start, i).push(tail));
        } else {
            lemma_pieces_behind(text, c, tail, start, i + 1);
        }
    } else {
        assert(whole[i] == c);
        assert forall|k: int| i + 1 <= k < whole.len() implies !separates(separator, #[trigger] whole[k]) by {
            assert(whole[k] == tail[k - i - 1]);
        }
        lemma_no_separator(whole, separator, i + 1, i + 1);
        assert(whole.subrange(i + 1, whole.len() as int) =~= tail);
        assert(whole.subrange(start, i) =~= text.subrange(start, text.len() as int));
        assert(pieces_from(whole, separator, start, i) =~= pieces_from(text, separator, start, i).push(tail));
    }
}

/// The words of a text behind a separator and one more word.
pub proof fn lemma_words_behind(text: Seq<char>, c: char, tail: Seq<char>)
    requires
        ascii_whitespace(c),
        unspaced(tail),
    ensures
        words(text + seq![c] + tail, Separator::AsciiWhitespace) == if tail.len() == 0 {
            words(text, Separator::AsciiWhitespace)
        } else {
            words(text, Separator::AsciiWhitespace).push(tail)
        },
{
    lemma_pieces_behind(text, c, tail, 0, 0);
    lemma_nonempty_push(pieces(text, Separator::AsciiWhitespace), tail);
}

pub proof fn lemma_one_word(text: Seq<char>)
    requires
        unspaced(text),
    ensures
        words(text, Separator::AsciiWhitespace) == if text.len() == 0 {
            seq![]
        } else {
            seq![text]
        },
{
    let separator = Separator::AsciiWhitespace;
    assert forall|k: int| 0 <= k < text.len() implies !separates(separator, #[trigger] text[k]) by {}
    lemma_no_separator(text, separator, 0, 0);
    assert(text.subrange(0, text.len() as int) =~= text);
    let none = Seq::<Seq<char>>::empty();
    lemma_nonempty_push(none, text);
    assert(none.push(text) =~= seq![text]);
    assert(nonempty(none) =~= none);
}

/// Where the last whitespace of the first `n` characters stands.
spec fn last_space(text: Seq<char>, n: int) -> Option<int>
    decreases n,
{
    if n <= 0 {
        None
    } else if ascii_whitespace(text[n - 1]) {
        Some(n - 1)
    } else {
        last_space(text, n - 1)
    }
}

proof fn lemma_last_space(text: Seq<char>, n: int)
    requires
        0 <= n <= text.len(),
    ensures
        match last_space(text, n) {
            Some(k) => 0 <= k < n && ascii_whitespace(text[k]) && forall|i: int|
                k < i < n ==> !ascii_whitespace(#[trigger] text[i]),
            None => forall|i: int| 0 <= i < n ==> !ascii_whitespace(#[trigger] text[i]),
        },
    decreases n,
{
    if n > 0 && !ascii_whitespace(text[n - 1]) {
        lemma_last_space(text, n - 1);
    }
}

pub proof fn lemma_neat_collapsed(text: Seq<char>)
    requires
        neat(text),
    ensures
        collapsed(text) == text,
    decreases text.len(),
{
    let separator = Separator::AsciiWhitespace;
    let n = text.len() as int;
    lemma_space();
    lemma_last_space(text, n);
    match last_space(text, n) {
        None => {
            lemma_one_word(text);
            assert(collapsed(text) =~= text);
        },
        Some(k) => {
            let head = text.take(k);
            let tail = text.skip(k + 1);
            assert(text[k] == ' ');
            assert(text =~= head + seq![' '] + tail);
            assert(neat(head)) by {
                assert forall|i: int| 0 <= i < head.len() && ascii_whitespace(#[trigger] head[i]) implies head[i] == ' '
                    && 0 < i && i + 1 < head.len() && !ascii_whitespace(head[i + 1]) by {
                    assert(head[i] == text[i]);
                    assert(!ascii_whitespace(text[i + 1]));
                    assert(i + 1 != k);
                    assert(head[i + 1] == text[i + 1]);
                }
            }
            assert(unspaced(tail)) by {
                assert forall|i: int| 0 <= i < tail.len() implies !ascii_whitespace(#[trigger] tail[i]) by {
                    assert(tail[i] == text[k + 1 + i]);
                }
            }
            lemma_neat_collapsed(head);
            lemma_words_behind(head, ' ', tail);
            let list = words(head, separator);
            assert(list.len() > 0) by {
                if list.len() == 0 {
                    assert(joined(list, " "@) =~= Seq::<char>::empty());
                }
            }
            assert(list.push(tail).drop_last() =~= list);
            assert(collapsed(text) == head + seq![' '] + tail);
        },
    }
}

pub proof fn lemma_pieces_shift(c: char, text: Seq<char>, start: int, i: int)
    requires
        0 <= start <= i <= text.len(),
    ensures
        pieces_from(seq![c] + text, Separator::AsciiWhitespace, start + 1, i + 1) == pieces_from(
            text,
            Separator::AsciiWhitespace,
            start,
            i,
        ),
    decreases text.len() - i,
{
    let whole = seq![c] + text;
    let separator = Separator::AsciiWhitespace;
    if i < text.len() {
        assert(whole[i + 1] == text[i]);
        if separates(separator, text[i]) {
            lemma_pieces_shift(c, text, i + 1, i + 1);
            assert(whole.subrange(start + 1, i + 1) =~= text.subrange(start, i));
        } else {
            lemma_pieces_shift(c, text, start, i + 1);
        }
    } else {
        assert(whole.subrange(start + 1, whole.len() as int) =~= text.subrange(start, text.len() as int));
    }
}

/// Whitespace at the ends does not matter.
pub proof fn lemma_collapsed_ends(text: Seq<char>)
    ensures
        collapsed(seq![' '] + text) == collapsed(text),
        collapsed(text + seq![' ']) == collapsed(text),
{
    let separator = Separator::AsciiWhitespace;
    let whole = seq![' '] + text;
    lemma_pieces_shift(' ', text, 0, 0);
    assert(whole[0] == ' ');
    assert(whole.subrange(0, 0) =~= Seq::<char>::empty());
    let list = pieces(whole, separator);
    assert(list == seq![whole.subrange(0, 0)] + pieces(text, separator));
    assert(list.drop_first() =~= pieces(text, separator));
    assert(list[0].len() == 0);
    let none = Seq::<char>::empty();
    lemma_words_behind(text, ' ', none);
    assert(text + seq![' '] + none =~= text + seq![' ']);
}

/// A text without words is whitespace alone.
pub proof fn lemma_no_words(text: Seq<char>, start: int, i: int)
    requires
        0 <= start <= i <= text.len(),
        nonempty(pieces_from(text, Separator::AsciiWhitespace, start, i)).len() == 0,
        forall|k: int| start <= k < i ==> !ascii_whitespace(#[trigger] text[k]),
    ensures
        forall|k: int| start <= k < text.len() ==> ascii_whitespace(#[trigger] text[k]),
    decreases text.len() - i,
{
    let separator = Separator::AsciiWhitespace;
    let list = pieces_from(text, separator, start, i);
    if i < text.len() && !ascii_whitespace(text[i]) {
        lemma_no_words(text, start, i + 1);
    } else if i < text.len() {
        let rest = pieces_from(text, separator, i + 1, i + 1);
        assert(list[0] == text.subrange(start, i));
        assert(list.drop_first() =~= rest);
        assert(start == i);
        lemma_no_words(text, i + 1, i + 1);
    } else {
        assert(list[0] == text.subrange(start, i));
        assert(start == i);
    }
}

pub proof fn lemma_trimmed_away(text: Seq<char>)
    requires
        forall|k: int| 0 <= k < text.len() ==> ascii_whitespace(#[trigger] text[k]),
    ensures
        css_trimmed(text).len() == 0,
    decreases text.len(),
{
    if text.len() > 0 {
        assert(ascii_whitespace(text[0]));
        let rest = text.drop_first();
        assert forall|k: int| 0 <= k < rest.len() implies ascii_whitespace(#[trigger] rest[k]) by {
            assert(rest[k] == text[k + 1]);
        }
        lemma_trimmed_away(rest);
    }
}

pub proof fn lemma_collapsed_nonempty(text: Seq<char>)
    requires
        css_trimmed(text).len() > 0,
    ensures
        collapsed(text).len() > 0,
{
    let list = words(text, Separator::AsciiWhitespace);
    if list.len() == 0 {
        lemma_no_words(text, 0, 0);
        lemma_trimmed_away(text);
    } else {
        lemma_words_are_words(text, Separator::AsciiWhitespace);
        assert forall|i: int| 0 <= i < list.len() implies neat(#[trigger] list[i]) && list[i].len() > 0 by {
            assert(is_word(list[i], Separator::AsciiWhitespace));
            assert forall|k: int| 0 <= k < list[i].len() implies !ascii_whitespace(#[trigger] list[i][k]) by {
                assert(!separates(Separator::AsciiWhitespace, list[i][k]));
            }
        }
        lemma_neat_joined(list);
    }
}

/// The depth behind the texts of a list, one after the other.
spec fn depth_through(list: Seq<Seq<char>>, depth: int, stop: Stop) -> Option<int>
    decreases list.len(),
{
    if list.len() == 0 {
        Some(depth)
    } else {
        match depth_through(list.drop_last(), depth, stop) {
            Some(middle) => depth_behind(list.last(), middle, stop),
            None => None,
        }
    }
}

proof fn lemma_depth_first(list: Seq<Seq<char>>, depth: int, stop: Stop)
    requires
        list.len() > 0,
    ensures
        depth_through(list, depth, stop) == match depth_behind(list[0], depth, stop) {
            Some(middle) => depth_through(list.drop_first(), middle, stop),
            None => None,
        },
    decreases list.len(),
{
    if list.len() > 1 {
        let rest = list.drop_last();
        lemma_depth_first(rest, depth, stop);
        assert(list.drop_first().drop_last() =~= rest.drop_first());
        assert(rest[0] == list[0]);
        assert(list.drop_first().last() == list.last());
        if let Some(middle) = depth_behind(list[0], depth, stop) {
            assert(depth_through(list.drop_first(), middle, stop) == match depth_through(
                rest.drop_first(),
                middle,
                stop,
            ) {
                Some(next) => depth_behind(list.last(), next, stop),
                None => None,
            });
        }
    } else {
        assert(list.drop_last() =~= Seq::<Seq<char>>::empty());
        assert(list.drop_first() =~= Seq::<Seq<char>>::empty());
        assert(list.last() == list[0]);
        assert(depth_through(list.drop_last(), depth, stop) == Some(depth));
        if let Some(middle) = depth_behind(list[0], depth, stop) {
            assert(depth_through(list.drop_first(), middle, stop) == Some(middle));
        }
    }
}

/// No scan stops at whitespace.
pub open spec fn ignores_space(stop: Stop) -> bool {
    forall|c: char| #[trigger] ascii_whitespace(c) ==> !stops(stop, c)
}

pub proof fn lemma_depth_space(c: char, depth: int, stop: Stop)
    requires
        ascii_whitespace(c),
        ignores_space(stop),
    ensures
        depth_behind(seq![c], depth, stop) == Some(depth),
{
    let text = seq![c];
    assert(level(text, stop));
    lemma_level(text, 0, depth, stop);
}

proof fn lemma_depth_joined(list: Seq<Seq<char>>, depth: int, stop: Stop)
    requires
        ignores_space(stop),
    ensures
        depth_behind(joined(list, " "@), depth, stop) == depth_through(list, depth, stop),
    decreases list.len(),
{
    lemma_space();
    if list.len() == 1 {
        assert(depth_through(list.drop_last(), depth, stop) == Some(depth));
    } else if list.len() > 1 {
        let rest = list.drop_last();
        lemma_depth_joined(rest, depth, stop);
        lemma_depth_concat(joined(rest, " "@) + seq![' '], list.last(), depth, stop);
        lemma_depth_concat(joined(rest, " "@), seq![' '], depth, stop);
        if let Some(middle) = depth_through(rest, depth, stop) {
            lemma_depth_space(' ', middle, stop);
        }
    }
}

proof fn lemma_depth_words(text: Seq<char>, start: int, i: int, depth: int, stop: Stop)
    requires
        0 <= start <= i <= text.len(),
        ignores_space(stop),
    ensures
        depth_through(nonempty(pieces_from(text, Separator::AsciiWhitespace, start, i)), depth, stop) == depth_at(
            text,
            start,
            text.len() as int,
            depth,
            stop,
        ),
    decreases text.len() - i,
{
    let separator = Separator::AsciiWhitespace;
    let n = text.len() as int;
    if i < n && !ascii_whitespace(text[i]) {
        lemma_depth_words(text, start, i + 1, depth, stop);
    } else {
        let list = pieces_from(text, separator, start, i);
        let piece = text.subrange(start, i);
        let rest = if i < n {
            pieces_from(text, separator, i + 1, i + 1)
        } else {
            seq![]
        };
        assert(list =~= seq![piece] + rest);
        assert(list[0] == piece);
        assert(list.drop_first() =~= rest);
        let through = nonempty(list);
        lemma_depth_part(text, start, i, depth, stop);
        if piece.len() == 0 {
            assert(through == nonempty(rest));
            assert(depth_behind(piece, depth, stop) == Some(depth));
        } else {
            assert(through[0] == piece);
            assert(through.drop_first() =~= nonempty(rest));
            lemma_depth_first(through, depth, stop);
        }
        if i < n {
            lemma_depth_split(text, start, i, n, depth, stop);
            if let Some(middle) = depth_behind(piece, depth, stop) {
                assert(!stops(stop, text[i]));
                assert(behind(text[i], middle, stop) == Some(middle));
                lemma_depth_words(text, i + 1, i + 1, middle, stop);
            }
        } else {
            assert(nonempty(rest) =~= Seq::<Seq<char>>::empty());
        }
    }
}

/// Collapsing keeps a text balanced.
pub proof fn lemma_collapsed_depth(text: Seq<char>, depth: int, stop: Stop)
    requires
        ignores_space(stop),
    ensures
        depth_behind(collapsed(text), depth, stop) == depth_behind(text, depth, stop),
{
    lemma_depth_words(text, 0, 0, depth, stop);
    lemma_depth_joined(words(text, Separator::AsciiWhitespace), depth, stop);
}

} // verus!
