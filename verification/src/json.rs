//! JSON string literals.
use vstd::prelude::*;

verus! {

/// The lower-case hex digit of a number below sixteen.
pub open spec fn hex_char(value: int) -> char {
    if value < 10 {
        ('0' as u8 + value) as char
    } else {
        ('a' as u8 + (value - 10)) as char
    }
}

/// How a character is written inside a JSON string.
pub open spec fn json_escaped(c: char) -> Seq<char> {
    if c == '"' || c == '\\' {
        seq!['\\', c]
    } else if c == '\u{8}' {
        seq!['\\', 'b']
    } else if c == '\t' {
        seq!['\\', 't']
    } else if c == '\n' {
        seq!['\\', 'n']
    } else if c == '\u{c}' {
        seq!['\\', 'f']
    } else if c == '\r' {
        seq!['\\', 'r']
    } else if (c as u32) <= 0x1f {
        seq!['\\', 'u', '0', '0', hex_char(c as int / 16), hex_char(c as int % 16)]
    } else {
        seq![c]
    }
}

pub open spec fn json_escapes(text: Seq<char>) -> Seq<char>
    decreases text.len(),
{
    if text.len() == 0 {
        seq![]
    } else {
        json_escapes(text.drop_last()) + json_escaped(text.last())
    }
}

/// A text as a JSON string literal.
pub open spec fn json_quoted(text: Seq<char>) -> Seq<char> {
    seq!['"'] + json_escapes(text) + seq!['"']
}

/// `serde_json::to_string` on a string: the text between double quotes, with
/// quotes, backslashes and control characters escaped. It does not fail on a
/// string.
#[verifier::external_body]
pub(crate) fn quote_json(text: &str) -> (result: String)
    ensures
        result@ == json_quoted(text@),
{
    serde_json::to_string(text).expect("string serialization")
}

} // verus!
