//! Theme tokens.
use crate::number::{digit, entry_of, find_entry, number_rank, pairs_of, rank_number};
use crate::text::{begins, copy, from_chars, is_before, maybe, precedes, same, starts_with, to_chars, trim, trimmed, Separator};
use vstd::prelude::*;

verus! {

/// A character of the numbers that dimensions start with.
pub open spec fn number_char(c: char) -> bool {
    digit(c) || c == '.' || c == '-'
}

fn is_number_char(c: char) -> (result: bool)
    ensures
        result == number_char(c),
{
    ('0' <= c && c <= '9') || c == '.' || c == '-'
}

/// Where the unit starts, from `i` on.
pub open spec fn unit_start(text: Seq<char>, i: int) -> int
    decreases text.len() - i,
{
    if i < 0 || i >= text.len() || !number_char(text[i]) {
        i
    } else {
        unit_start(text, i + 1)
    }
}

/// Where the digits from `i` on end.
pub open spec fn digits_to(text: Seq<char>, i: int) -> int
    decreases text.len() - i,
{
    if i < 0 || i >= text.len() || !digit(text[i]) {
        i
    } else {
        digits_to(text, i + 1)
    }
}

/// The places of a number: behind its sign, behind its integer digits, and
/// behind a point and the digits after it.
pub open spec fn places(text: Seq<char>) -> (int, int, int) {
    let start: int = if text.len() > 0 && text[0] == '-' {
        1
    } else {
        0
    };
    let point = digits_to(text, start);
    let end = if point < text.len() && text[point] == '.' {
        digits_to(text, point + 1)
    } else {
        point
    };
    (start, point, end)
}

/// A decimal number: a sign, digits, a point and digits, with a digit
/// somewhere.
pub open spec fn decimal_number(text: Seq<char>) -> bool {
    let (start, point, end) = places(text);
    end == text.len() && (point > start || end > point + 1)
}

/// The number without a point that nothing follows.
pub open spec fn without_point(text: Seq<char>) -> Seq<char> {
    if text.len() > 0 && text.last() == '.' {
        text.drop_last()
    } else {
        text
    }
}

/// The number and the unit of a dimension.
pub open spec fn dimension_of(value: Seq<char>) -> Option<(Seq<char>, Seq<char>)> {
    let split = unit_start(value, 0);
    if split >= value.len() || !decimal_number(value.take(split)) {
        None
    } else {
        Some((without_point(value.take(split)), value.skip(split)))
    }
}

pub open spec fn dimension_texts(result: Option<(String, String)>) -> Option<(Seq<char>, Seq<char>)> {
    match result {
        Some(pair) => Some((pair.0@, pair.1@)),
        None => None,
    }
}

fn find_digits(text: &Vec<char>, from: usize) -> (result: usize)
    requires
        from <= text@.len(),
    ensures
        result == digits_to(text@, from as int),
        from <= result <= text@.len(),
{
    let mut i = from;
    while i < text.len() && '0' <= text[i] && text[i] <= '9'
        invariant
            from <= i <= text@.len(),
            digits_to(text@, i as int) == digits_to(text@, from as int),
        decreases text.len() - i,
    {
        i += 1;
    }
    i
}

fn is_decimal_number(text: &Vec<char>) -> (result: bool)
    ensures
        result == decimal_number(text@),
{
    let start: usize = if text.len() > 0 && text[0] == '-' {
        1
    } else {
        0
    };
    let point = find_digits(text, start);
    let end = if point < text.len() && text[point] == '.' {
        find_digits(text, point + 1)
    } else {
        point
    };
    end == text.len() && (point > start || end > point + 1)
}

/// The number and the unit of a dimension such as `1.5rem`. The number is one
/// that a float can be read from.
pub fn parse_dimension(value: &str) -> (result: Option<(String, String)>)
    ensures
        dimension_texts(result) == dimension_of(value@),
{
    let chars = to_chars(value);
    let mut i: usize = 0;
    while i < chars.len() && is_number_char(chars[i])
        invariant
            i <= chars@.len(),
            unit_start(chars@, i as int) == unit_start(chars@, 0),
        decreases chars.len() - i,
    {
        i += 1;
    }
    if i >= chars.len() {
        return None;
    }
    let number = to_chars(from_chars(&chars, 0, i).as_str());
    assert(number@ =~= value@.take(i as int));
    if !is_decimal_number(&number) {
        return None;
    }
    let end = if number.len() > 0 && number[number.len() - 1] == '.' {
        number.len() - 1
    } else {
        number.len()
    };
    let head = from_chars(&number, 0, end);
    let unit = from_chars(&chars, i, chars.len());
    assert(head@ =~= without_point(value@.take(i as int)));
    assert(unit@ =~= value@.skip(i as int));
    Some((head, unit))
}

// ---------------------------------------------------------------------------
// Tokens by value
// ---------------------------------------------------------------------------

/// The token is one of the namespace with this value.
pub open spec fn names_value(entry: (Seq<char>, Seq<char>), prefix: Seq<char>, value: Seq<char>) -> bool {
    begins(entry.0, prefix) && trimmed(entry.1, Separator::Whitespace) == value
}

/// The first name in order among the first `n` tokens with this value.
pub open spec fn least_name(
    tokens: Seq<(Seq<char>, Seq<char>)>,
    prefix: Seq<char>,
    value: Seq<char>,
    n: int,
) -> Option<Seq<char>>
    decreases n,
{
    if n <= 0 {
        None
    } else {
        let before = least_name(tokens, prefix, value, n - 1);
        let name = tokens[n - 1].0.skip(prefix.len() as int);
        if !names_value(tokens[n - 1], prefix, value) {
            before
        } else {
            match before {
                Some(best) => if precedes(name, best) {
                    Some(name)
                } else {
                    before
                },
                None => Some(name),
            }
        }
    }
}

/// The two numbers whose quotient tells how many steps of the spacing scale a
/// value is.
pub open spec fn spacing_numbers(value: Seq<char>, tokens: Seq<(Seq<char>, Seq<char>)>) -> Option<
    (Seq<char>, Seq<char>),
> {
    match entry_of(tokens, "spacing"@) {
        None => None,
        Some(base) => match (dimension_of(value), dimension_of(base)) {
            (Some(value), Some(base)) => if value.1 == base.1 && number_rank(base.0) != Some(0int) {
                Some((value.0, base.0))
            } else {
                None
            },
            _ => None,
        },
    }
}

/// The theme's name for a value. `quotient` is the spelling of the quotient of
/// [`spacing_numbers`], where that is a finite number that is not negative.
pub open spec fn theme_token(
    namespace: Seq<char>,
    value: Seq<char>,
    tokens: Seq<(Seq<char>, Seq<char>)>,
    quotient: Option<Seq<char>>,
) -> Option<Seq<char>> {
    match least_name(tokens, namespace + "-"@, value, tokens.len() as int) {
        Some(name) => Some(name),
        None => if namespace == "spacing"@ && spacing_numbers(value, tokens) is Some {
            quotient
        } else {
            None
        },
    }
}

/// The two numbers whose quotient tells how many steps of the spacing scale a
/// value is, where the theme has a scale in the value's unit.
pub fn find_spacing_numbers(value: &str, theme_tokens: &Vec<(String, String)>) -> (result: Option<(String, String)>)
    ensures
        dimension_texts(result) == spacing_numbers(value@, pairs_of(theme_tokens@)),
{
    match find_entry(theme_tokens, "spacing") {
        None => None,
        Some(base) => match (parse_dimension(value), parse_dimension(base.as_str())) {
            (Some(value), Some(base)) => {
                let zero = match rank_number(base.0.as_str()) {
                    Some(rank) => rank == 0,
                    None => false,
                };
                if same(value.1.as_str(), base.1.as_str()) && !zero {
                    Some((value.0, base.0))
                } else {
                    None
                }
            },
            _ => None,
        },
    }
}

fn find_least_name(tokens: &Vec<(String, String)>, prefix: &str, value: &str) -> (result: Option<String>)
    ensures
        maybe(result) == least_name(pairs_of(tokens@), prefix@, value@, tokens@.len() as int),
{
    let length = to_chars(prefix).len();
    let mut best: Option<String> = None;
    let mut n: usize = 0;
    while n < tokens.len()
        invariant
            n <= tokens@.len(),
            length == prefix@.len(),
            maybe(best) == least_name(pairs_of(tokens@), prefix@, value@, n as int),
        decreases tokens.len() - n,
    {
        let entry = &tokens[n];
        assert(pairs_of(tokens@)[n as int] == (entry.0@, entry.1@));
        if starts_with(entry.0.as_str(), prefix) && same(
            trim(entry.1.as_str(), Separator::Whitespace).as_str(),
            value,
        ) {
            let chars = to_chars(entry.0.as_str());
            let name = from_chars(&chars, length, chars.len());
            assert(name@ =~= entry.0@.skip(prefix@.len() as int));
            let better = match &best {
                Some(known) => is_before(name.as_str(), known.as_str()),
                None => true,
            };
            if better {
                best = Some(name);
            }
        }
        n += 1;
    }
    best
}

/// The theme's name for a value.
pub fn exact_theme_token(
    namespace: &str,
    value: &str,
    theme_tokens: &Vec<(String, String)>,
    quotient: &Option<String>,
) -> (result: Option<String>)
    ensures
        maybe(result) == theme_token(namespace@, value@, pairs_of(theme_tokens@), maybe(*quotient)),
{
    let mut prefix = copy(namespace);
    prefix.append("-");
    match find_least_name(theme_tokens, prefix.as_str(), value) {
        Some(name) => Some(name),
        None => if same(namespace, "spacing") && find_spacing_numbers(value, theme_tokens).is_some() {
            crate::text::copy_maybe(quotient)
        } else {
            None
        },
    }
}

} // verus!
