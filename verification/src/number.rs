//! CSS numbers: how they are scanned, and the one spelling that equal numbers
//! share.
//!
//! The value of a number is a double-precision float. The library never holds
//! one: it works with the shortest decimal spelling of the value, which
//! [`show_number`] gives, and with the bits of its encoding, by which two
//! values are ordered.
use crate::text::{maybe, same, to_chars};
use vstd::prelude::*;

verus! {

pub open spec fn digit(c: char) -> bool {
    '0' <= c <= '9'
}

fn is_digit(c: char) -> (result: bool)
    ensures
        result == digit(c),
{
    '0' <= c && c <= '9'
}

/// Where the run of digits at `i` ends.
pub open spec fn digits_end(text: Seq<char>, i: int) -> int
    decreases text.len() - i,
{
    if i < 0 || i >= text.len() || !digit(text[i]) {
        i
    } else {
        digits_end(text, i + 1)
    }
}

fn find_digits_end(text: &Vec<char>, start: usize) -> (result: usize)
    requires
        start <= text@.len(),
    ensures
        result == digits_end(text@, start as int),
        start <= result <= text@.len(),
{
    let mut i: usize = start;
    while i < text.len() && is_digit(text[i])
        invariant
            start <= i <= text@.len(),
            digits_end(text@, i as int) == digits_end(text@, start as int),
        decreases text.len() - i,
    {
        i += 1;
    }
    i
}

/// `c` stands at `i`.
pub open spec fn char_at(text: Seq<char>, i: int, c: char) -> bool {
    0 <= i < text.len() && text[i] == c
}

/// A sign stands at `i`.
pub open spec fn sign_at(text: Seq<char>, i: int) -> bool {
    char_at(text, i, '+') || char_at(text, i, '-')
}

/// Where the sign that may stand at `i` ends.
pub open spec fn behind_sign(text: Seq<char>, i: int) -> int {
    if sign_at(text, i) {
        i + 1
    } else {
        i
    }
}

/// Where the exponent that may stand at `i` ends.
pub open spec fn exponent_end(text: Seq<char>, i: int) -> int {
    let digits = behind_sign(text, i + 1);
    if (char_at(text, i, 'e') || char_at(text, i, 'E')) && digits_end(text, digits) > digits {
        digits_end(text, digits)
    } else {
        i
    }
}

/// Where the integer digits of the number begin and end.
pub open spec fn integer_span(text: Seq<char>) -> (int, int) {
    let start = behind_sign(text, 0);
    (start, digits_end(text, start))
}

/// The length of the leading CSS number in `text`: optional sign, integer and
/// fraction digits, and an optional exponent.
pub open spec fn number_end(text: Seq<char>) -> Option<int> {
    let integer = integer_span(text);
    if char_at(text, integer.1, '.') {
        let end = digits_end(text, integer.1 + 1);
        if end > integer.1 + 1 {
            Some(exponent_end(text, end))
        } else {
            None
        }
    } else if integer.1 > integer.0 {
        Some(exponent_end(text, integer.1))
    } else {
        None
    }
}

fn find_behind_sign(text: &Vec<char>, i: usize) -> (result: usize)
    requires
        i <= text@.len(),
    ensures
        result == behind_sign(text@, i as int),
        i <= result <= text@.len(),
{
    if i < text.len() && (text[i] == '+' || text[i] == '-') {
        i + 1
    } else {
        i
    }
}

fn find_exponent_end(text: &Vec<char>, i: usize) -> (result: usize)
    requires
        i <= text@.len(),
    ensures
        result == exponent_end(text@, i as int),
        i <= result <= text@.len(),
{
    if i < text.len() && (text[i] == 'e' || text[i] == 'E') {
        let digits = find_behind_sign(text, i + 1);
        let end = find_digits_end(text, digits);
        if end > digits {
            return end;
        }
    }
    i
}

/// The length of the leading CSS number in `text`.
pub fn scan_css_number(text: &Vec<char>) -> (result: Option<usize>)
    ensures
        match result {
            Some(end) => number_end(text@) == Some(end as int) && end <= text@.len(),
            None => number_end(text@) is None,
        },
{
    let start = find_behind_sign(text, 0);
    let integer = find_digits_end(text, start);
    if integer < text.len() && text[integer] == '.' {
        let end = find_digits_end(text, integer + 1);
        if end > integer + 1 {
            Some(find_exponent_end(text, end))
        } else {
            None
        }
    } else if integer > start {
        Some(find_exponent_end(text, integer))
    } else {
        None
    }
}

/// The integer digits of `text` in `i..end` without leading zeros; `0` where
/// nothing is left.
pub open spec fn significant(text: Seq<char>, i: int, end: int) -> Seq<char>
    decreases end - i,
{
    if i >= end {
        seq!['0']
    } else if text[i] == '0' {
        significant(text, i + 1, end)
    } else {
        text.subrange(i, end)
    }
}

/// The number in the grammar of JSON: no plus sign, no leading zeros, and a
/// digit before the point.
pub open spec fn json_form(text: Seq<char>) -> Seq<char> {
    let integer = integer_span(text);
    let sign = if char_at(text, 0, '-') {
        seq!['-']
    } else {
        seq![]
    };
    sign + significant(text, integer.0, integer.1) + text.skip(integer.1)
}

fn write_json_form(text: &str) -> (result: String)
    ensures
        result@ == json_form(text@),
{
    let chars = to_chars(text);
    let start = find_behind_sign(&chars, 0);
    let end = find_digits_end(&chars, start);
    let mut result = String::new();
    if chars.len() > 0 && chars[0] == '-' {
        result.push('-');
    }
    let ghost sign = result@;
    assert(sign =~= if char_at(text@, 0, '-') {
        seq!['-']
    } else {
        seq![]
    });
    let mut i: usize = start;
    while i < end && chars[i] == '0'
        invariant
            chars@ == text@,
            start <= i <= end <= chars@.len(),
            significant(text@, i as int, end as int) == significant(text@, start as int, end as int),
        decreases end - i,
    {
        i += 1;
    }
    if i == end {
        result.push('0');
    }
    let ghost head = result@;
    assert(head + text@.subrange(i as int, end as int) =~= sign + significant(text@, start as int, end as int));
    let tail = crate::text::from_chars(&chars, i, chars.len());
    result.append(tail.as_str());
    assert(result@ =~= sign + significant(text@, start as int, end as int) + text@.skip(end as int));
    result
}

/// The spelling that [`display_number`] gives a number.
pub uninterp spec fn number_display(text: Seq<char>) -> Option<Seq<char>>;

/// `serde_json::from_str::<serde_json::Number>`, `serde_json::Number::as_f64`
/// and the `Display` of the float: the shortest decimal spelling of the
/// number's double-precision value, or nothing where the text is no JSON
/// number or its value is out of range. The claim is only that the spelling
/// depends on the text alone.
#[verifier::external_body]
fn display_number(text: &str) -> (result: Option<String>)
    ensures
        maybe(result) == number_display(text@),
{
    let number = serde_json::from_str::<serde_json::Number>(text).ok()?;
    number.as_f64().map(|value| value.to_string())
}

/// The bits that [`encode_number`] gives a number.
pub uninterp spec fn number_bits(text: Seq<char>) -> Option<u64>;

/// `serde_json::from_str::<serde_json::Number>`, `serde_json::Number::as_f64`
/// and the `to_bits` of the float: the encoding of the number's
/// double-precision value, or nothing where the text is no JSON number or its
/// value is out of range. The claim is only that the bits depend on the text
/// alone.
#[verifier::external_body]
fn encode_number(text: &str) -> (result: Option<u64>)
    ensures
        result == number_bits(text@),
{
    let number = serde_json::from_str::<serde_json::Number>(text).ok()?;
    number.as_f64().map(|value| value.to_bits())
}

/// Where the spellings of numbers come from.
pub enum Numbers {
    /// They are computed.
    Computed,
    /// They are given, each for a number as it is written; the first entry of
    /// a number counts, and a number without an entry has no finite value.
    Known(Vec<(String, String)>),
}

/// The model of [`Numbers`].
pub enum NumbersModel {
    Computed,
    Known(Seq<(Seq<char>, Seq<char>)>),
}

impl View for Numbers {
    type V = NumbersModel;

    open spec fn view(&self) -> NumbersModel {
        match self {
            Numbers::Computed => NumbersModel::Computed,
            Numbers::Known(entries) => NumbersModel::Known(
                entries@.map_values(|entry: (String, String)| (entry.0@, entry.1@)),
            ),
        }
    }
}

/// What the entries from `i` on hold for `name`.
pub open spec fn entry_from(entries: Seq<(Seq<char>, Seq<char>)>, name: Seq<char>, i: int) -> Option<Seq<char>>
    decreases entries.len() - i,
{
    if i < 0 || i >= entries.len() {
        None
    } else if entries[i].0 == name {
        Some(entries[i].1)
    } else {
        entry_from(entries, name, i + 1)
    }
}

/// What the first entry of `name` holds.
pub open spec fn entry_of(entries: Seq<(Seq<char>, Seq<char>)>, name: Seq<char>) -> Option<Seq<char>> {
    entry_from(entries, name, 0)
}

/// The models of named texts.
pub open spec fn pairs_of(entries: Seq<(String, String)>) -> Seq<(Seq<char>, Seq<char>)> {
    entries.map_values(|entry: (String, String)| (entry.0@, entry.1@))
}

/// What the first entry of `name` holds.
pub fn find_entry<'a>(entries: &'a Vec<(String, String)>, name: &str) -> (result: Option<&'a String>)
    ensures
        match result {
            Some(value) => entry_of(pairs_of(entries@), name@) == Some(value@),
            None => entry_of(pairs_of(entries@), name@) is None,
        },
{
    let mut i: usize = 0;
    while i < entries.len()
        invariant
            i <= entries@.len(),
            entry_from(pairs_of(entries@), name@, i as int) == entry_of(pairs_of(entries@), name@),
        decreases entries.len() - i,
    {
        let entry = &entries[i];
        assert(pairs_of(entries@)[i as int] == (entry.0@, entry.1@));
        if same(entry.0.as_str(), name) {
            return Some(&entry.1);
        }
        i += 1;
    }
    None
}

/// The one spelling of the finite number that `text` writes.
pub open spec fn shown(numbers: NumbersModel, text: Seq<char>) -> Option<Seq<char>> {
    match numbers {
        NumbersModel::Computed => number_display(json_form(text)),
        NumbersModel::Known(entries) => entry_of(entries, text),
    }
}

/// The one spelling of the finite number that `text` writes.
pub fn show_number(numbers: &Numbers, text: &str) -> (result: Option<String>)
    ensures
        maybe(result) == shown(numbers@, text@),
{
    match numbers {
        Numbers::Computed => display_number(write_json_form(text).as_str()),
        Numbers::Known(entries) => {
            assert(numbers@ == NumbersModel::Known(pairs_of(entries@)));
            match find_entry(entries, text) {
                Some(value) => Some(value.clone()),
                None => None,
            }
        },
    }
}

/// Where a float with these bits stands among the floats: its magnitude,
/// counted downwards where the sign bit is set. The two zeros
/// share a place.
pub open spec fn rank(bits: u64) -> int {
    if bits >= 0x8000_0000_0000_0000 {
        0x8000_0000_0000_0000 - bits
    } else {
        bits as int
    }
}

/// The place of a float among the floats.
pub fn rank_of(bits: u64) -> (result: i64)
    ensures
        result == rank(bits),
{
    if bits >= 0x8000_0000_0000_0000 {
        let magnitude: u64 = bits - 0x8000_0000_0000_0000;
        0 - (magnitude as i64)
    } else {
        bits as i64
    }
}

/// The place of the number that `text` writes among the finite floats, where it
/// has one.
pub open spec fn number_rank(text: Seq<char>) -> Option<int> {
    match number_bits(json_form(text)) {
        Some(bits) => Some(rank(bits)),
        None => None,
    }
}

/// The place of the number that `text` writes among the finite floats, where it
/// has one.
pub fn rank_number(text: &str) -> (result: Option<i64>)
    ensures
        match result {
            Some(place) => number_rank(text@) == Some(place as int),
            None => number_rank(text@) is None,
        },
{
    match encode_number(write_json_form(text).as_str()) {
        Some(bits) => Some(rank_of(bits)),
        None => None,
    }
}

/// The bits of the positive infinity.
pub const INFINITY: u64 = 0x7ff0_0000_0000_0000;

/// The place among the floats of the decimal number that `text` writes. One
/// that is out of the range of finite floats stands at the infinity of its
/// sign.
pub open spec fn decimal_rank(text: Seq<char>) -> int {
    match number_rank(text) {
        Some(place) => place,
        None => if char_at(text, 0, '-') {
            0 - rank(INFINITY)
        } else {
            rank(INFINITY)
        },
    }
}

/// The place among the floats of the decimal number that `text` writes.
pub fn rank_decimal(text: &str) -> (result: i64)
    ensures
        result == decimal_rank(text@),
{
    match rank_number(text) {
        Some(place) => place,
        None => {
            let infinity = rank_of(INFINITY);
            let chars = to_chars(text);
            if chars.len() > 0 && chars[0] == '-' {
                0 - infinity
            } else {
                infinity
            }
        },
    }
}

} // verus!
