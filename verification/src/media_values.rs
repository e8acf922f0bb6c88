//! Values of media features have one spelling: normalizing a value again
//! changes nothing.
use crate::media::{
    all_caseless, alphabetic, ascii_letter, canonical, caseless, collapsed, css_trimmed, dimension, normalized,
    once_from, shown_whole, split_once, whole_number,
};
use crate::media_scan::{
    balanced, behind, depth_at, ignores_space, lemma_collapsed_depth, lemma_collapsed_neat, lemma_collapsed_nonempty,
    lemma_depth_part, lemma_level, lemma_once_scan, level, neat, stops, unspaced, Stop,
};
use crate::number::{
    behind_sign, char_at, digit, digits_end, exponent_end, integer_span, number_end, shown, sign_at, NumbersModel,
};
use crate::text::{ascii_lower, ascii_lowered, ascii_whitespace};
use vstd::prelude::*;

verus! {

// ---------------------------------------------------------------------------
// Numbers
// ---------------------------------------------------------------------------

/// The spelling of a number reads back to itself, and its case does not
/// matter.
pub open spec fn spellings_settle(numbers: NumbersModel) -> bool {
    &&& forall|text: Seq<char>| #[trigger]
        shown(numbers, text) is Some ==> whole_number(shown(numbers, text)->0) && shown(
            numbers,
            shown(numbers, text)->0,
        ) == shown(numbers, text)
    &&& forall|text: Seq<char>| shown(numbers, #[trigger] ascii_lowered(text)) == shown(numbers, text)
}

/// A character of a number.
pub open spec fn numeric(c: char) -> bool {
    digit(c) || c == '+' || c == '-' || c == '.' || c == 'e' || c == 'E'
}

pub open spec fn all_numeric(text: Seq<char>) -> bool {
    forall|i: int| 0 <= i < text.len() ==> numeric(#[trigger] text[i])
}

proof fn lemma_digits(text: Seq<char>, i: int)
    requires
        0 <= i <= text.len(),
    ensures
        i <= digits_end(text, i) <= text.len(),
        forall|k: int| i <= k < digits_end(text, i) ==> digit(#[trigger] text[k]),
        digits_end(text, i) < text.len() ==> !digit(text[digits_end(text, i)]),
    decreases text.len() - i,
{
    if i < text.len() && digit(text[i]) {
        lemma_digits(text, i + 1);
    }
}

/// A number holds nothing but characters of numbers.
proof fn lemma_whole_numeric(text: Seq<char>)
    requires
        whole_number(text),
    ensures
        all_numeric(text),
        text.len() > 0,
{
    let start = behind_sign(text, 0);
    lemma_digits(text, start);
    let integer = digits_end(text, start);
    let end = if char_at(text, integer, '.') {
        lemma_digits(text, integer + 1);
        digits_end(text, integer + 1)
    } else {
        integer
    };
    assert(end <= text.len());
    assert(number_end(text) == Some(exponent_end(text, end)));
    let digits = behind_sign(text, end + 1);
    if exponent_end(text, end) != end {
        lemma_digits(text, digits);
    }
    assert forall|k: int| 0 <= k < text.len() implies numeric(#[trigger] text[k]) by {
        if k < start {
            assert(sign_at(text, 0));
        } else if k < integer {
            assert(digit(text[k]));
        } else if k < end {
            assert(k == integer || digit(text[k]));
        } else {
            assert(k == end || k < digits || digit(text[k]));
        }
    }
}

/// What may follow a number without becoming part of it.
pub open spec fn ends_number(text: Seq<char>) -> bool {
    &&& text.len() > 0
    &&& !digit(text[0])
    &&& text[0] != '.'
    &&& text[0] == 'e' || text[0] == 'E' ==> text.len() == 1 || (!digit(text[1]) && text[1] != '+' && text[1] != '-')
}

proof fn lemma_digits_local(a: Seq<char>, b: Seq<char>, i: int)
    requires
        0 <= i <= a.len(),
        ends_number(b),
    ensures
        digits_end(a + b, i) == digits_end(a, i),
    decreases a.len() - i,
{
    if i < a.len() {
        assert((a + b)[i] == a[i]);
        if digit(a[i]) {
            lemma_digits_local(a, b, i + 1);
        }
    } else {
        assert((a + b)[i] == b[0]);
    }
}

/// A number ends where what follows is no part of it.
proof fn lemma_number_local(a: Seq<char>, b: Seq<char>)
    requires
        whole_number(a),
        ends_number(b),
    ensures
        number_end(a + b) == Some(a.len() as int),
{
    let whole = a + b;
    lemma_whole_numeric(a);
    assert(whole[0] == a[0]);
    let start = behind_sign(a, 0);
    assert(behind_sign(whole, 0) == start);
    lemma_digits(a, start);
    lemma_digits_local(a, b, start);
    let integer = digits_end(a, start);
    if integer < a.len() {
        assert(whole[integer] == a[integer]);
    } else {
        assert(whole[integer] == b[0]);
    }
    assert(char_at(whole, integer, '.') == char_at(a, integer, '.'));
    let end = if char_at(a, integer, '.') {
        lemma_digits(a, integer + 1);
        lemma_digits_local(a, b, integer + 1);
        digits_end(a, integer + 1)
    } else {
        integer
    };
    assert(number_end(a) == Some(exponent_end(a, end)));
    if end < a.len() {
        assert(whole[end] == a[end]);
        let digits = behind_sign(a, end + 1);
        assert(digits_end(a, digits) > digits);
        assert(digits < a.len());
        assert(whole[end + 1] == a[end + 1]);
        assert(behind_sign(whole, end + 1) == digits);
        lemma_digits_local(a, b, digits);
    } else {
        assert(whole[end] == b[0]);
        if b.len() > 1 {
            assert(whole[end + 1] == b[1]);
        }
        if b[0] == 'e' || b[0] == 'E' {
            assert(behind_sign(whole, end + 1) == end + 1);
            assert(digits_end(whole, end + 1) == end + 1);
        }
        assert(exponent_end(whole, end) == end);
    }
    assert(number_end(whole) == Some(exponent_end(whole, end)));
}

// ---------------------------------------------------------------------------
// Case
// ---------------------------------------------------------------------------

proof fn lemma_lower(c: char)
    ensures
        ascii_lower(ascii_lower(c)) == ascii_lower(c),
        digit(ascii_lower(c)) == digit(c),
        ascii_letter(ascii_lower(c)) == ascii_letter(c),
        ascii_whitespace(ascii_lower(c)) == ascii_whitespace(c),
        caseless(ascii_lower(c)) == caseless(c),
        !ascii_letter(c) ==> ascii_lower(c) == c,
        ascii_lower(c) != c ==> ascii_letter(c),
        (ascii_lower(c) == 'e') == (c == 'e' || c == 'E'),
        ascii_lower(c) != 'E',
{
}

proof fn lemma_lowered(text: Seq<char>)
    ensures
        ascii_lowered(text).len() == text.len(),
        forall|i: int| 0 <= i < text.len() ==> #[trigger] ascii_lowered(text)[i] == ascii_lower(text[i]),
        ascii_lowered(ascii_lowered(text)) == ascii_lowered(text),
        alphabetic(ascii_lowered(text)) == alphabetic(text),
        all_caseless(ascii_lowered(text)) == all_caseless(text),
{
    let lowered = ascii_lowered(text);
    assert forall|i: int| 0 <= i < text.len() implies ascii_lowered(lowered)[i] == lowered[i] by {
        lemma_lower(text[i]);
    }
    assert(ascii_lowered(lowered) =~= lowered);
    assert forall|i: int| 0 <= i < text.len() implies #[trigger] ascii_letter(lowered[i]) == ascii_letter(
        text[i],
    ) && caseless(lowered[i]) == caseless(text[i]) by {
        lemma_lower(text[i]);
    }
    if alphabetic(lowered) {
        assert forall|i: int| 0 <= i < text.len() implies #[trigger] ascii_letter(text[i]) by {
            assert(ascii_letter(lowered[i]));
        }
    }
    if all_caseless(lowered) {
        assert forall|i: int| 0 <= i < text.len() implies #[trigger] caseless(text[i]) by {
            assert(caseless(lowered[i]));
        }
    }
    if all_caseless(text) {
        assert forall|i: int| 0 <= i < text.len() implies #[trigger] caseless(lowered[i]) by {
            assert(caseless(text[i]));
        }
    }
}

proof fn lemma_lowered_digits(text: Seq<char>, i: int)
    ensures
        digits_end(ascii_lowered(text), i) == digits_end(text, i),
    decreases text.len() - i,
{
    lemma_lowered(text);
    if 0 <= i < text.len() {
        lemma_lower(text[i]);
        if digit(text[i]) {
            lemma_lowered_digits(text, i + 1);
        }
    }
}

proof fn lemma_lowered_char(text: Seq<char>, i: int, c: char)
    requires
        !ascii_letter(c),
    ensures
        char_at(ascii_lowered(text), i, c) == char_at(text, i, c),
{
    lemma_lowered(text);
    if 0 <= i < text.len() {
        lemma_lower(text[i]);
    }
}

proof fn lemma_lowered_number(text: Seq<char>)
    ensures
        number_end(ascii_lowered(text)) == number_end(text),
{
    let lowered = ascii_lowered(text);
    lemma_lowered(text);
    lemma_lowered_char(text, 0, '+');
    lemma_lowered_char(text, 0, '-');
    let integer = integer_span(text);
    lemma_lowered_digits(text, integer.0);
    assert(integer_span(lowered) == integer);
    lemma_lowered_char(text, integer.1, '.');
    lemma_lowered_digits(text, integer.1 + 1);
    lemma_lowered_exponent(text, integer.1);
    lemma_lowered_exponent(text, digits_end(text, integer.1 + 1));
}

proof fn lemma_lowered_exponent(text: Seq<char>, i: int)
    ensures
        exponent_end(ascii_lowered(text), i) == exponent_end(text, i),
{
    lemma_lowered(text);
    lemma_lowered_char(text, i + 1, '+');
    lemma_lowered_char(text, i + 1, '-');
    lemma_lowered_digits(text, behind_sign(text, i + 1));
    if 0 <= i < text.len() {
        lemma_lower(text[i]);
    }
}

proof fn lemma_lowered_take(text: Seq<char>, k: int)
    requires
        0 <= k <= text.len(),
    ensures
        ascii_lowered(text).take(k) == ascii_lowered(text.take(k)),
        ascii_lowered(text).skip(k) == ascii_lowered(text.skip(k)),
{
    assert(ascii_lowered(text).take(k) =~= ascii_lowered(text.take(k)));
    assert(ascii_lowered(text).skip(k) =~= ascii_lowered(text.skip(k)));
}

proof fn lemma_lowered_dimension(text: Seq<char>)
    ensures
        dimension(ascii_lowered(text)) == match dimension(text) {
            Some(parts) => Some((ascii_lowered(parts.0), parts.1)),
            None => None,
        },
{
    lemma_lowered_number(text);
    lemma_lowered(text);
    if let Some(end) = number_end(text) {
        if 0 <= end < text.len() {
            lemma_lowered_take(text, end);
            lemma_lowered(text.skip(end));
        }
    }
}

proof fn lemma_lowered_trimmed(text: Seq<char>)
    ensures
        css_trimmed(ascii_lowered(text)) == ascii_lowered(css_trimmed(text)),
    decreases text.len(),
{
    let lowered = ascii_lowered(text);
    lemma_lowered(text);
    if text.len() > 0 {
        lemma_lower(text[0]);
        lemma_lower(text.last());
        if ascii_whitespace(text[0]) {
            lemma_lowered_trimmed(text.drop_first());
            assert(lowered.drop_first() =~= ascii_lowered(text.drop_first()));
        } else if ascii_whitespace(text.last()) {
            lemma_lowered_trimmed(text.drop_last());
            assert(lowered.drop_last() =~= ascii_lowered(text.drop_last()));
        }
    }
}

proof fn lemma_lowered_once(text: Seq<char>, separator: char, i: int, depth: int)
    requires
        !ascii_letter(separator),
    ensures
        once_from(ascii_lowered(text), separator, i, depth) == match once_from(text, separator, i, depth) {
            Some(sides) => Some((ascii_lowered(sides.0), ascii_lowered(sides.1))),
            None => None,
        },
    decreases text.len() - i,
{
    lemma_lowered(text);
    if 0 <= i < text.len() {
        lemma_lower(text[i]);
        lemma_lowered_take(text, i);
        lemma_lowered_take(text, i + 1);
        lemma_lowered_once(text, separator, i + 1, depth);
        lemma_lowered_once(text, separator, i + 1, depth + 1);
        lemma_lowered_once(text, separator, i + 1, depth - 1);
    }
}

proof fn lemma_lowered_whole(numbers: NumbersModel, text: Seq<char>)
    requires
        spellings_settle(numbers),
    ensures
        shown_whole(numbers, ascii_lowered(text)) == shown_whole(numbers, text),
{
    lemma_lowered_number(text);
    lemma_lowered(text);
    assert(shown(numbers, ascii_lowered(text)) == shown(numbers, text));
}

/// The spelling of a value does not depend on its case.
proof fn lemma_lowered_canonical(numbers: NumbersModel, text: Seq<char>)
    requires
        spellings_settle(numbers),
    ensures
        canonical(numbers, ascii_lowered(text)) == canonical(numbers, text),
{
    lemma_lowered_dimension(text);
    if let Some(parts) = dimension(text) {
        assert(shown(numbers, ascii_lowered(parts.0)) == shown(numbers, parts.0));
    }
    lemma_lowered_whole(numbers, text);
    lemma_lowered_once(text, '/', 0, 0);
    if let Some(sides) = split_once(text, '/') {
        lemma_lowered_trimmed(sides.0);
        lemma_lowered_trimmed(sides.1);
        lemma_lowered_whole(numbers, css_trimmed(sides.0));
        lemma_lowered_whole(numbers, css_trimmed(sides.1));
    }
}

// ---------------------------------------------------------------------------
// Spellings
// ---------------------------------------------------------------------------

/// A character of a canonical dimension, number or ratio.
pub open spec fn canonical_char(c: char) -> bool {
    numeric(c) || ascii_letter(c) || c == '/'
}

pub open spec fn all_canonical(text: Seq<char>) -> bool {
    forall|i: int| 0 <= i < text.len() ==> canonical_char(#[trigger] text[i])
}

proof fn lemma_trimmed_same(text: Seq<char>)
    requires
        unspaced(text),
    ensures
        css_trimmed(text) == text,
{
    if text.len() > 0 {
        assert(!ascii_whitespace(text[0]));
        assert(!ascii_whitespace(text[text.len() - 1]));
    }
}

/// The spelling of a dimension is that of itself.
proof fn lemma_sized_again(numbers: NumbersModel, number: Seq<char>, unit: Seq<char>)
    requires
        whole_number(number),
        shown(numbers, number) == Some(number),
        unit.len() > 0,
        alphabetic(unit),
        ascii_lowered(unit) == unit,
    ensures
        canonical(numbers, number + unit) == Some(number + unit),
        all_canonical(number + unit),
{
    let whole = number + unit;
    lemma_whole_numeric(number);
    assert(ascii_letter(unit[0]));
    if unit.len() > 1 {
        assert(ascii_letter(unit[1]));
    }
    lemma_number_local(number, unit);
    let end = number.len() as int;
    assert(whole.take(end) =~= number);
    assert(whole.skip(end) =~= unit);
    assert(dimension(whole) == Some((number, unit)));
    assert forall|i: int| 0 <= i < whole.len() implies canonical_char(#[trigger] whole[i]) by {
        if i < end {
            assert(numeric(number[i]));
        } else {
            assert(ascii_letter(unit[i - end]));
        }
    }
}

/// The spelling of a ratio is that of itself.
proof fn lemma_ratio_again(numbers: NumbersModel, left: Seq<char>, right: Seq<char>)
    requires
        whole_number(left),
        whole_number(right),
        shown(numbers, left) == Some(left),
        shown(numbers, right) == Some(right),
    ensures
        canonical(numbers, left + "/"@ + right) == Some(left + "/"@ + right),
        all_canonical(left + "/"@ + right),
{
    reveal_strlit("/");
    let slash = "/"@;
    assert(slash =~= seq!['/']);
    let whole = left + slash + right;
    let n = left.len() as int;
    lemma_whole_numeric(left);
    lemma_whole_numeric(right);
    assert(whole =~= left + (slash + right));
    assert((slash + right)[0] == '/');
    lemma_number_local(left, slash + right);
    assert(whole.skip(n)[0] == '/');
    assert(dimension(whole) is None) by {
        if alphabetic(whole.skip(n)) {
            assert(ascii_letter(whole.skip(n)[0]));
        }
    }
    assert(shown_whole(numbers, whole) is None);
    assert(level(left, Stop::Char('/'))) by {
        assert forall|i: int| 0 <= i < left.len() implies (#[trigger] left[i]) != '(' && left[i] != ')' && !stops(
            Stop::Char('/'),
            left[i],
        ) by {
            assert(numeric(left[i]));
        }
    }
    lemma_level(left, 0, 0, Stop::Char('/'));
    assert(whole.subrange(0, n) =~= left);
    lemma_depth_part(whole, 0, n, 0, Stop::Char('/'));
    lemma_once_scan(whole, '/', 0, n, 0);
    assert(whole[n] == '/');
    assert(whole.take(n) =~= left);
    assert(whole.skip(n + 1) =~= right);
    assert(split_once(whole, '/') == Some((left, right)));
    assert forall|i: int| 0 <= i < left.len() implies !ascii_whitespace(#[trigger] left[i]) by {
        assert(numeric(left[i]));
    }
    assert forall|i: int| 0 <= i < right.len() implies !ascii_whitespace(#[trigger] right[i]) by {
        assert(numeric(right[i]));
    }
    lemma_trimmed_same(left);
    lemma_trimmed_same(right);
    assert forall|i: int| 0 <= i < whole.len() implies canonical_char(#[trigger] whole[i]) by {
        if i < n {
            assert(numeric(left[i]));
        } else if i > n {
            assert(numeric(right[i - n - 1]));
        }
    }
}

/// A canonical spelling is that of itself.
proof fn lemma_canonical_again(numbers: NumbersModel, text: Seq<char>)
    requires
        spellings_settle(numbers),
        canonical(numbers, text) is Some,
    ensures
        canonical(numbers, canonical(numbers, text)->0) == canonical(numbers, text),
        all_canonical(canonical(numbers, text)->0),
        (canonical(numbers, text)->0).len() > 0,
{
    let sized = dimension(text) is Some && shown(numbers, (dimension(text)->0).0) is Some;
    if sized {
        let parts = dimension(text)->0;
        let number = shown(numbers, parts.0)->0;
        let end = number_end(text)->0;
        lemma_lowered(text.skip(end));
        lemma_whole_numeric(number);
        lemma_sized_again(numbers, number, parts.1);
    } else if shown_whole(numbers, text) is Some {
        let number = shown(numbers, text)->0;
        lemma_whole_numeric(number);
        assert(dimension(number) is None);
        assert forall|i: int| 0 <= i < number.len() implies canonical_char(#[trigger] number[i]) by {
            assert(numeric(number[i]));
        }
    } else {
        let sides = split_once(text, '/')->0;
        let left = shown(numbers, css_trimmed(sides.0))->0;
        let right = shown(numbers, css_trimmed(sides.1))->0;
        lemma_whole_numeric(left);
        lemma_ratio_again(numbers, left, right);
    }
}

/// A scan that canonical spellings do not stop.
pub open spec fn ignores_canonical(stop: Stop) -> bool {
    forall|c: char| #[trigger] canonical_char(c) ==> !stops(stop, c)
}

proof fn lemma_lowered_depth(text: Seq<char>, i: int, depth: int, stop: Stop)
    requires
        0 <= i <= text.len(),
        ignores_canonical(stop),
    ensures
        depth_at(ascii_lowered(text), i, text.len() as int, depth, stop) == depth_at(
            text,
            i,
            text.len() as int,
            depth,
            stop,
        ),
    decreases text.len() - i,
{
    lemma_lowered(text);
    if i < text.len() {
        lemma_lower(text[i]);
        if ascii_lower(text[i]) != text[i] {
            assert(canonical_char(text[i]));
            assert(canonical_char(ascii_lower(text[i])));
        }
        if let Some(next) = behind(text[i], depth, stop) {
            lemma_lowered_depth(text, i + 1, next, stop);
        }
    }
}

/// A value that is written as it stands in a key.
pub open spec fn settled(numbers: NumbersModel, value: Seq<char>, stop: Stop) -> bool {
    &&& value.len() > 0
    &&& neat(value)
    &&& balanced(value, stop)
    &&& forall|text: Seq<char>| #[trigger] collapsed(text) == value ==> normalized(numbers, text) == value
}

/// Normalizing settles a value.
pub proof fn lemma_normalized_settled(numbers: NumbersModel, value: Seq<char>, stop: Stop)
    requires
        spellings_settle(numbers),
        ignores_space(stop),
        ignores_canonical(stop),
        balanced(value, stop),
        normalized(numbers, value).len() > 0,
    ensures
        settled(numbers, normalized(numbers, value), stop),
{
    let text = collapsed(value);
    let result = normalized(numbers, value);
    lemma_collapsed_neat(value);
    lemma_collapsed_depth(value, 0, stop);
    lemma_lowered(text);
    if canonical(numbers, text) is Some {
        lemma_canonical_again(numbers, text);
        assert forall|i: int| 0 <= i < result.len() implies !ascii_whitespace(#[trigger] result[i]) by {
            assert(canonical_char(result[i]));
        }
        assert(level(result, stop)) by {
            assert forall|i: int| 0 <= i < result.len() implies (#[trigger] result[i]) != '(' && result[i] != ')'
                && !stops(stop, result[i]) by {
                assert(canonical_char(result[i]));
            }
        }
        lemma_level(result, 0, 0, stop);
        assert forall|other: Seq<char>| #[trigger] collapsed(other) == result implies normalized(numbers, other)
            == result by {}
    } else if all_caseless(text) {
        assert(result == ascii_lowered(text));
        assert(neat(result)) by {
            assert forall|i: int| 0 <= i < result.len() && ascii_whitespace(#[trigger] result[i]) implies result[i]
                == ' ' && 0 < i && i + 1 < result.len() && !ascii_whitespace(result[i + 1]) by {
                lemma_lower(text[i]);
                assert(ascii_whitespace(text[i]));
                lemma_lower(text[i + 1]);
            }
        }
        lemma_lowered_depth(text, 0, 0, stop);
        lemma_lowered_canonical(numbers, text);
        assert forall|other: Seq<char>| #[trigger] collapsed(other) == result implies normalized(numbers, other)
            == result by {}
    } else {
        assert(result == text);
    }
}

/// A text that is not blank has a value.
pub proof fn lemma_normalized_nonempty(numbers: NumbersModel, value: Seq<char>)
    requires
        spellings_settle(numbers),
        css_trimmed(value).len() > 0,
    ensures
        normalized(numbers, value).len() > 0,
{
    let text = collapsed(value);
    lemma_collapsed_nonempty(value);
    lemma_lowered(text);
    if canonical(numbers, text) is Some {
        lemma_canonical_again(numbers, text);
    }
}

} // verus!
