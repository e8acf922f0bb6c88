//! Tailwind arbitrary values: how a CSS value is written inside a candidate.
use crate::text::{holds, stands_at, to_chars};
use vstd::prelude::*;

verus! {

broadcast use vstd::seq_lib::group_seq_properties;

/// CSS whitespace per CSS Syntax. Other Unicode whitespace (NBSP, em space,
/// ...) are ident code points.
pub open spec fn css_whitespace(character: char) -> bool {
    character == ' ' || character == '\t' || character == '\n' || character == '\r' || character == '\u{c}'
}

/// CSS whitespace per CSS Syntax. Other Unicode whitespace (NBSP, em space,
/// ...) are ident code points and must be preserved verbatim: Tailwind passes
/// them through candidates unchanged.
pub fn is_css_whitespace(character: char) -> (result: bool)
    ensures
        result == css_whitespace(character),
{
    character == ' ' || character == '\t' || character == '\n' || character == '\r' || character == '\u{c}'
}

pub open spec fn ascii_hex_digit(character: char) -> bool {
    '0' <= character <= '9' || 'a' <= character <= 'f' || 'A' <= character <= 'F'
}

fn is_ascii_hex_digit(character: char) -> (result: bool)
    ensures
        result == ascii_hex_digit(character),
{
    ('0' <= character && character <= '9') || ('a' <= character && character <= 'f') || ('A' <= character
        && character <= 'F')
}

/// Whether the character keeps a CSS ident running: ASCII letters and digits,
/// `-`, and every non-ASCII code point (`_` is handled on its own).
pub open spec fn ident_character(character: char) -> bool {
    ||| '0' <= character <= '9'
    ||| 'a' <= character <= 'z'
    ||| 'A' <= character <= 'Z'
    ||| character == '-'
    ||| character > '\u{7f}'
}

fn is_ident_character(character: char) -> (result: bool)
    ensures
        result == ident_character(character),
{
    ('0' <= character && character <= '9') || ('a' <= character && character <= 'z') || ('A' <= character
        && character <= 'Z') || character == '-' || character > '\u{7f}'
}

/// How one non-whitespace character is written: `_` needs an escape.
pub open spec fn encoded_character(character: char) -> Seq<char> {
    if character == '_' {
        seq!['\\', '_']
    } else {
        seq![character]
    }
}

/// The encoding of `value` from position `i` on, behind `encoded`; `pending`
/// says that whitespace was passed since the last character.
pub open spec fn encoding_from(value: Seq<char>, i: int, encoded: Seq<char>, pending: bool) -> Seq<char>
    decreases value.len() - i,
{
    if i < 0 || i >= value.len() {
        encoded
    } else if css_whitespace(value[i]) {
        encoding_from(value, i + 1, encoded, encoded.len() > 0)
    } else {
        let separator = if pending {
            seq!['_']
        } else {
            seq![]
        };
        encoding_from(value, i + 1, encoded + separator + encoded_character(value[i]), false)
    }
}

/// What `encode` returns: leading and trailing whitespace is dropped, every
/// inner run becomes one `_`, and a literal `_` becomes `\_`.
pub open spec fn encoding(value: Seq<char>) -> Seq<char> {
    encoding_from(value, 0, seq![], false)
}

/// Writes a value with its whitespace as underscores.
pub fn encode(value: &str) -> (result: String)
    ensures
        result@ == encoding(value@),
{
    let chars = to_chars(value);
    let mut encoded = String::new();
    let mut whitespace = false;
    let mut i: usize = 0;
    while i < chars.len()
        invariant
            i <= chars@.len(),
            encoding_from(chars@, i as int, encoded@, whitespace) == encoding(chars@),
        decreases chars.len() - i,
    {
        let character = chars[i];
        let ghost before = encoded@;
        let ghost pending = whitespace;
        if is_css_whitespace(character) {
            whitespace = !encoded.as_str().is_empty();
        } else {
            if whitespace {
                encoded.push('_');
                whitespace = false;
            }
            if character == '_' {
                encoded.push('\\');
                encoded.push('_');
            } else {
                encoded.push(character);
            }
            assert(encoded@ =~= before + (if pending {
                seq!['_']
            } else {
                seq![]
            }) + encoded_character(character));
        }
        i += 1;
    }
    encoded
}

/// Reads an escape whose backslash has been consumed: the escaped character,
/// unless there is none or it is whitespace.
pub open spec fn escape_at(chars: Seq<char>, i: int) -> Option<char> {
    if 0 <= i < chars.len() && !css_whitespace(chars[i]) {
        Some(chars[i])
    } else {
        None
    }
}

/// Copies a backslash escape and reports whether it starts a hex escape,
/// whose trailing whitespace (if any) is the escape terminator.
fn push_escape(chars: &Vec<char>, i: usize, encoded: &mut String) -> (hex: Option<bool>)
    ensures
        hex is Some <==> escape_at(chars@, i as int) is Some,
        hex matches Some(hex) ==> {
            &&& hex == ascii_hex_digit(chars@[i as int])
            &&& final(encoded)@ == old(encoded)@ + seq!['\\', chars@[i as int]]
        },
{
    if i >= chars.len() {
        return None;
    }
    let escaped = chars[i];
    if is_css_whitespace(escaped) {
        return None;
    }
    encoded.push('\\');
    encoded.push(escaped);
    assert(encoded@ =~= old(encoded)@ + seq!['\\', escaped]);
    Some(is_ascii_hex_digit(escaped))
}

/// A quoted string whose opening quote has been consumed: the position behind
/// the closing quote and the text written so far, or `None` where the string
/// is unterminated or holds whitespace that a class cannot carry.
pub open spec fn quoted_from(chars: Seq<char>, i: int, quote: char, encoded: Seq<char>) -> Option<(
    int,
    Seq<char>,
)>
    decreases chars.len() - i,
{
    if i < 0 || i >= chars.len() {
        None
    } else if chars[i] == quote {
        Some((i + 1, encoded.push(quote)))
    } else if chars[i] == '\\' {
        match escape_at(chars, i + 1) {
            Some(escaped) => quoted_from(chars, i + 2, quote, encoded + seq!['\\', escaped]),
            None => None,
        }
    } else if chars[i] == ' ' {
        quoted_from(chars, i + 1, quote, encoded.push('_'))
    } else if css_whitespace(chars[i]) {
        None
    } else {
        quoted_from(chars, i + 1, quote, encoded + encoded_character(chars[i]))
    }
}

fn encode_quoted(chars: &Vec<char>, start: usize, quote: char, encoded: &mut String) -> (next: Option<usize>)
    ensures
        match quoted_from(chars@, start as int, quote, old(encoded)@) {
            Some((position, text)) => next == Some(position as usize) && final(encoded)@ == text && start < position
                <= chars@.len(),
            None => next is None,
        },
{
    let mut i: usize = start;
    while i < chars.len()
        invariant
            i <= chars@.len() || i == start,
            start <= i,
            quoted_from(chars@, i as int, quote, encoded@) == quoted_from(chars@, start as int, quote, old(encoded)@),
        decreases chars.len() - i,
    {
        let character = chars[i];
        let ghost before = encoded@;
        if character == quote {
            encoded.push(character);
            return Some(i + 1);
        }
        if character == '\\' {
            match push_escape(chars, i + 1, encoded) {
                Some(_) => {},
                None => {
                    return None;
                },
            }
            i += 2;
        } else if character == '_' {
            encoded.push('\\');
            encoded.push('_');
            assert(encoded@ =~= before + encoded_character(character));
            i += 1;
        } else if character == ' ' {
            encoded.push('_');
            i += 1;
        } else if is_css_whitespace(character) {
            return None;
        } else {
            encoded.push(character);
            assert(encoded@ =~= before + encoded_character(character));
            i += 1;
        }
    }
    None
}

/// The body of a `url(` whose parenthesis has been consumed. Tailwind emits it
/// verbatim, so whitespace, brackets and `;` outside quotes are refused.
pub open spec fn url_from(chars: Seq<char>, i: int, quote: Option<char>, encoded: Seq<char>) -> Option<(
    int,
    Seq<char>,
)>
    decreases chars.len() - i,
{
    if i < 0 || i >= chars.len() || css_whitespace(chars[i]) {
        None
    } else {
        match quote {
            Some(closing) => if chars[i] == '\\' {
                match escape_at(chars, i + 1) {
                    Some(escaped) => url_from(chars, i + 2, quote, encoded + seq!['\\', escaped]),
                    None => None,
                }
            } else {
                url_from(
                    chars,
                    i + 1,
                    if chars[i] == closing {
                        None
                    } else {
                        quote
                    },
                    encoded.push(chars[i]),
                )
            },
            None => if chars[i] == ')' {
                Some((i + 1, encoded.push(')')))
            } else if chars[i] == '"' || chars[i] == '\'' {
                url_from(chars, i + 1, Some(chars[i]), encoded.push(chars[i]))
            } else if chars[i] == '(' || chars[i] == '[' || chars[i] == ']' || chars[i] == ';' {
                None
            } else {
                url_from(chars, i + 1, None, encoded.push(chars[i]))
            },
        }
    }
}

fn encode_url_body(chars: &Vec<char>, start: usize, encoded: &mut String) -> (next: Option<usize>)
    ensures
        match url_from(chars@, start as int, None, old(encoded)@) {
            Some((position, text)) => next == Some(position as usize) && final(encoded)@ == text && start < position
                <= chars@.len(),
            None => next is None,
        },
{
    let mut i: usize = start;
    let mut quote: Option<char> = None;
    while i < chars.len()
        invariant
            i <= chars@.len() || i == start,
            start <= i,
            url_from(chars@, i as int, quote, encoded@) == url_from(chars@, start as int, None, old(encoded)@),
        decreases chars.len() - i,
    {
        let character = chars[i];
        if is_css_whitespace(character) {
            return None;
        }
        match quote {
            Some(closing) => {
                if character == '\\' {
                    match push_escape(chars, i + 1, encoded) {
                        Some(_) => {},
                        None => {
                            return None;
                        },
                    }
                    i += 2;
                } else {
                    encoded.push(character);
                    if character == closing {
                        quote = None;
                    }
                    i += 1;
                }
            },
            None => {
                if character == ')' {
                    encoded.push(')');
                    return Some(i + 1);
                } else if character == '"' || character == '\'' {
                    quote = Some(character);
                    encoded.push(character);
                } else if character == '(' || character == '[' || character == ']' || character == ';' {
                    return None;
                } else {
                    encoded.push(character);
                }
                i += 1;
            },
        }
    }
    None
}

/// Whether a function name makes Tailwind keep the arguments verbatim.
pub open spec fn is_url_name(name: Seq<char>) -> bool {
    ||| name == seq!['u', 'r', 'l']
    ||| name.len() >= 4 && name.skip(name.len() - 4) == seq!['_', 'u', 'r', 'l']
}

fn names_url(chars: &Vec<char>, start: usize, end: usize) -> (result: bool)
    requires
        start <= end <= chars.len(),
    ensures
        result == is_url_name(chars@.subrange(start as int, end as int)),
{
    let ghost name = chars@.subrange(start as int, end as int);
    let length = end - start;
    if length >= 4 {
        let result = chars[end - 4] == '_' && chars[end - 3] == 'u' && chars[end - 2] == 'r' && chars[end - 1] == 'l';
        proof {
            let tail = name.skip(name.len() - 4);
            if result {
                assert(tail =~= seq!['_', 'u', 'r', 'l']);
            } else {
                assert(tail[0] == chars@[end - 4] && tail[1] == chars@[end - 3] && tail[2] == chars@[end - 2]
                    && tail[3] == chars@[end - 1]);
            }
        }
        result
    } else if length == 3 {
        let result = chars[start] == 'u' && chars[start + 1] == 'r' && chars[start + 2] == 'l';
        proof {
            if result {
                assert(name =~= seq!['u', 'r', 'l']);
            } else {
                assert(name[0] == chars@[start as int] && name[1] == chars@[start + 1] && name[2] == chars@[start
                    + 2]);
            }
        }
        result
    } else {
        false
    }
}

/// What the encoder carries from one character to the next.
pub struct Progress {
    /// A separator is owed before the next token.
    pub pending_space: bool,
    /// Open parentheses.
    pub parens: nat,
    /// Open brackets.
    pub brackets: nat,
    /// Where the running ident began.
    pub ident_start: Option<int>,
    /// Digits of the hex escape that ends here, if one does.
    pub hex_digits: nat,
}

/// The ident that runs up to `i`.
pub open spec fn ident_before(chars: Seq<char>, start: Option<int>, i: int) -> Seq<char> {
    match start {
        Some(start) => chars.subrange(start, i),
        None => seq![],
    }
}

pub open spec fn kept_start(start: Option<int>, i: int) -> Option<int> {
    match start {
        Some(start) => Some(start),
        None => Some(i),
    }
}

/// The encoding of `chars` from `i` on behind `encoded`, or `None` where the
/// value has no faithful encoding.
pub open spec fn value_from(chars: Seq<char>, i: int, at: Progress, encoded: Seq<char>) -> Option<Seq<char>>
    decreases chars.len() - i,
{
    if i < 0 || i >= chars.len() {
        if at.parens == 0 && at.brackets == 0 {
            Some(encoded)
        } else {
            None
        }
    } else {
        let character = chars[i];
        if css_whitespace(character) {
            let next = Progress { ident_start: None, hex_digits: 0, ..at };
            if at.hex_digits > 0 {
                value_from(chars, i + 1, next, encoded.push('_'))
            } else {
                value_from(chars, i + 1, Progress { pending_space: encoded.len() > 0, ..next }, encoded)
            }
        } else {
            let text = if at.pending_space {
                encoded.push('_')
            } else {
                encoded
            };
            let next = Progress { pending_space: false, ident_start: None, hex_digits: 0, ..at };
            if character == ';' {
                None
            } else if character == '"' || character == '\'' {
                match quoted_from(chars, i + 1, character, text.push(character)) {
                    Some((position, text)) => if i < position <= chars.len() {
                        value_from(chars, position, next, text)
                    } else {
                        None
                    },
                    None => None,
                }
            } else if character == '(' {
                if is_url_name(ident_before(chars, at.ident_start, i)) {
                    match url_from(chars, i + 1, None, text.push('(')) {
                        Some((position, text)) => if i < position <= chars.len() {
                            value_from(chars, position, next, text)
                        } else {
                            None
                        },
                        None => None,
                    }
                } else {
                    value_from(chars, i + 1, Progress { parens: at.parens + 1, ..next }, text.push('('))
                }
            } else if character == ')' {
                if at.parens == 0 {
                    None
                } else {
                    value_from(chars, i + 1, Progress { parens: (at.parens - 1) as nat, ..next }, text.push(')'))
                }
            } else if character == '[' {
                value_from(chars, i + 1, Progress { brackets: at.brackets + 1, ..next }, text.push('['))
            } else if character == ']' {
                if at.brackets == 0 {
                    None
                } else {
                    value_from(chars, i + 1, Progress { brackets: (at.brackets - 1) as nat, ..next }, text.push(']'))
                }
            } else if character == '\\' {
                match escape_at(chars, i + 1) {
                    Some(escaped) => value_from(
                        chars,
                        i + 2,
                        Progress {
                            hex_digits: if ascii_hex_digit(escaped) {
                                1
                            } else {
                                0
                            },
                            ..next
                        },
                        text + seq!['\\', escaped],
                    ),
                    None => None,
                }
            } else if character == '_' || ident_character(character) {
                value_from(
                    chars,
                    i + 1,
                    Progress {
                        ident_start: kept_start(at.ident_start, i),
                        hex_digits: if 0 < at.hex_digits < 6 && ascii_hex_digit(character) {
                            at.hex_digits + 1
                        } else {
                            0
                        },
                        ..next
                    },
                    text + encoded_character(character),
                )
            } else {
                value_from(chars, i + 1, next, text.push(character))
            }
        }
    }
}

pub open spec fn start_progress() -> Progress {
    Progress { pending_space: false, parens: 0, brackets: 0, ident_start: None, hex_digits: 0 }
}

/// What `encode_value` returns.
pub open spec fn value_encoding(value: Seq<char>) -> Option<Seq<char>> {
    value_from(value, 0, start_progress(), seq![])
}

/// Encodes a CSS declaration value as a Tailwind arbitrary value, or returns
/// `None` when the value cannot round-trip through the Tailwind decoder.
///
/// - Outside `url()`, whitespace between tokens becomes `_` and literal `_`
///   becomes `\_`; this applies inside quoted strings too, where Tailwind
///   also decodes `_` to a space and `\_` to an underscore.
/// - Only CSS whitespace (space, tab, newline, carriage return, form feed)
///   counts as whitespace. Other Unicode whitespace such as NBSP is a CSS
///   ident code point: it is copied verbatim (Tailwind emits it unchanged)
///   and it keeps the surrounding ident running, so `A\u{a0}url(...)` is not
///   a `url()` function - neither here nor in Tailwind's decoder.
/// - The first CSS whitespace character after a hex escape (`\41 `) is the
///   escape terminator, consumed by the escape per CSS syntax. It is part of
///   the token and always becomes its own `_` (Tailwind decodes each `_` to
///   exactly one space), so `\41  B` ("A B") encodes as `\41__B` while
///   `\41 B` ("AB") encodes as `\41_B`.
/// - Tailwind emits `url()` bodies verbatim (no underscore decoding), so the
///   body is copied through unchanged and whitespace there is
///   unrepresentable. Tailwind applies the same treatment to any function
///   whose name ends in `_url`.
/// - Unrepresentable values: `;` outside quotes, unterminated strings,
///   unbalanced parentheses or brackets, whitespace inside `url()`, and
///   non-space whitespace or escaped whitespace inside quoted strings (a
///   class attribute cannot carry a literal space).
pub fn encode_value(value: &str) -> (result: Option<String>)
    ensures
        match value_encoding(value@) {
            Some(text) => result matches Some(encoded) && encoded@ == text,
            None => result is None,
        },
{
    let chars = to_chars(value);
    let mut encoded = String::new();
    let mut pending_space = false;
    let mut parens: usize = 0;
    let mut brackets: usize = 0;
    let mut ident_start: Option<usize> = None;
    let mut hex_digits: u8 = 0;
    let mut i: usize = 0;
    while i < chars.len()
        invariant
            i <= chars@.len(),
            parens <= i,
            brackets <= i,
            hex_digits <= 6,
            chars@ == value@,
            ident_start matches Some(start) ==> start <= i,
            value_from(
                value@,
                i as int,
                progress(pending_space, parens, brackets, ident_start, hex_digits),
                encoded@,
            ) == value_encoding(value@),
        decreases chars.len() - i,
    {
        let character = chars[i];
        if is_css_whitespace(character) {
            if hex_digits > 0 {
                // The escape terminator: consumed by the hex escape, so it is
                // part of the token and must round-trip as its own space.
                encoded.push('_');
            } else {
                pending_space = !encoded.as_str().is_empty();
            }
            hex_digits = 0;
            ident_start = None;
            i += 1;
            continue ;
        }
        if pending_space {
            encoded.push('_');
            pending_space = false;
        }
        let hex_run = hex_digits;
        hex_digits = 0;
        let running = ident_start;
        ident_start = None;
        let ghost text = encoded@;
        if character == ';' {
            return None;
        } else if character == '"' || character == '\'' {
            encoded.push(character);
            match encode_quoted(&chars, i + 1, character, &mut encoded) {
                Some(next) => {
                    i = next;
                },
                None => {
                    return None;
                },
            }
        } else if character == '(' {
            let url = match running {
                Some(start) => names_url(&chars, start, i),
                None => false,
            };
            encoded.push('(');
            if url {
                match encode_url_body(&chars, i + 1, &mut encoded) {
                    Some(next) => {
                        i = next;
                    },
                    None => {
                        return None;
                    },
                }
            } else {
                parens += 1;
                i += 1;
            }
        } else if character == ')' {
            if parens == 0 {
                return None;
            }
            parens -= 1;
            encoded.push(')');
            i += 1;
        } else if character == '[' {
            brackets += 1;
            encoded.push('[');
            i += 1;
        } else if character == ']' {
            if brackets == 0 {
                return None;
            }
            brackets -= 1;
            encoded.push(']');
            i += 1;
        } else if character == '\\' {
            match push_escape(&chars, i + 1, &mut encoded) {
                Some(hex) => {
                    if hex {
                        hex_digits = 1;
                    }
                    i += 2;
                },
                None => {
                    return None;
                },
            }
        } else if character == '_' {
            encoded.push('\\');
            encoded.push('_');
            assert(encoded@ =~= text + encoded_character(character));
            ident_start = match running {
                Some(start) => Some(start),
                None => Some(i),
            };
            i += 1;
        } else if is_ident_character(character) {
            encoded.push(character);
            assert(encoded@ =~= text + encoded_character(character));
            ident_start = match running {
                Some(start) => Some(start),
                None => Some(i),
            };
            if hex_run > 0 && hex_run < 6 && is_ascii_hex_digit(character) {
                hex_digits = hex_run + 1;
            }
            i += 1;
        } else {
            encoded.push(character);
            i += 1;
        }
    }
    if parens == 0 && brackets == 0 {
        Some(encoded)
    } else {
        None
    }
}

/// The state of the encoder's variables.
pub open spec fn progress(
    pending_space: bool,
    parens: usize,
    brackets: usize,
    ident_start: Option<usize>,
    hex_digits: u8,
) -> Progress {
    Progress {
        pending_space,
        parens: parens as nat,
        brackets: brackets as nat,
        ident_start: match ident_start {
            Some(start) => Some(start as int),
            None => None,
        },
        hex_digits: hex_digits as nat,
    }
}

/// No character of the text is CSS whitespace.
pub open spec fn without_whitespace(text: Seq<char>) -> bool {
    forall|i: int| 0 <= i < text.len() ==> !css_whitespace(#[trigger] text[i])
}

proof fn lemma_encoding_without_whitespace(value: Seq<char>, i: int, encoded: Seq<char>, pending: bool)
    requires
        without_whitespace(encoded),
    ensures
        without_whitespace(encoding_from(value, i, encoded, pending)),
    decreases value.len() - i,
{
    if 0 <= i < value.len() {
        if css_whitespace(value[i]) {
            lemma_encoding_without_whitespace(value, i + 1, encoded, encoded.len() > 0);
        } else {
            let separator = if pending {
                seq!['_']
            } else {
                seq![]
            };
            lemma_encoding_without_whitespace(
                value,
                i + 1,
                encoded + separator + encoded_character(value[i]),
                false,
            );
        }
    }
}

proof fn lemma_quoted_without_whitespace(chars: Seq<char>, i: int, quote: char, encoded: Seq<char>)
    requires
        without_whitespace(encoded),
        !css_whitespace(quote),
    ensures
        quoted_from(chars, i, quote, encoded) matches Some((_, text)) ==> without_whitespace(text),
    decreases chars.len() - i,
{
    if 0 <= i < chars.len() && chars[i] != quote {
        if chars[i] == '\\' {
            if let Some(escaped) = escape_at(chars, i + 1) {
                lemma_quoted_without_whitespace(chars, i + 2, quote, encoded + seq!['\\', escaped]);
            }
        } else if chars[i] == ' ' {
            lemma_quoted_without_whitespace(chars, i + 1, quote, encoded.push('_'));
        } else if !css_whitespace(chars[i]) {
            lemma_quoted_without_whitespace(chars, i + 1, quote, encoded + encoded_character(chars[i]));
        }
    }
}

proof fn lemma_url_without_whitespace(chars: Seq<char>, i: int, quote: Option<char>, encoded: Seq<char>)
    requires
        without_whitespace(encoded),
    ensures
        url_from(chars, i, quote, encoded) matches Some((_, text)) ==> without_whitespace(text),
    decreases chars.len() - i,
{
    if 0 <= i < chars.len() && !css_whitespace(chars[i]) {
        match quote {
            Some(closing) => {
                if chars[i] == '\\' {
                    if let Some(escaped) = escape_at(chars, i + 1) {
                        lemma_url_without_whitespace(chars, i + 2, quote, encoded + seq!['\\', escaped]);
                    }
                } else if chars[i] == closing {
                    lemma_url_without_whitespace(chars, i + 1, None, encoded.push(chars[i]));
                } else {
                    lemma_url_without_whitespace(chars, i + 1, quote, encoded.push(chars[i]));
                }
            },
            None => {
                if chars[i] == '"' || chars[i] == '\'' {
                    lemma_url_without_whitespace(chars, i + 1, Some(chars[i]), encoded.push(chars[i]));
                } else if chars[i] != ')' {
                    lemma_url_without_whitespace(chars, i + 1, None, encoded.push(chars[i]));
                }
            },
        }
    }
}

proof fn lemma_value_without_whitespace(chars: Seq<char>, i: int, at: Progress, encoded: Seq<char>)
    requires
        without_whitespace(encoded),
    ensures
        value_from(chars, i, at, encoded) matches Some(text) ==> without_whitespace(text),
    decreases chars.len() - i,
{
    if 0 <= i < chars.len() {
        let character = chars[i];
        if css_whitespace(character) {
            let next = Progress { ident_start: None, hex_digits: 0, ..at };
            lemma_value_without_whitespace(chars, i + 1, next, encoded.push('_'));
            lemma_value_without_whitespace(
                chars,
                i + 1,
                Progress { pending_space: encoded.len() > 0, ..next },
                encoded,
            );
        } else {
            let text = if at.pending_space {
                encoded.push('_')
            } else {
                encoded
            };
            let next = Progress { pending_space: false, ident_start: None, hex_digits: 0, ..at };
            if character == '"' || character == '\'' {
                lemma_quoted_without_whitespace(chars, i + 1, character, text.push(character));
                if let Some((position, text)) = quoted_from(chars, i + 1, character, text.push(character)) {
                    if i < position <= chars.len() {
                        lemma_value_without_whitespace(chars, position, next, text);
                    }
                }
            } else if character == '(' {
                lemma_url_without_whitespace(chars, i + 1, None, text.push('('));
                if let Some((position, text)) = url_from(chars, i + 1, None, text.push('(')) {
                    if i < position <= chars.len() {
                        lemma_value_without_whitespace(chars, position, next, text);
                    }
                }
                lemma_value_without_whitespace(
                    chars,
                    i + 1,
                    Progress { parens: at.parens + 1, ..next },
                    text.push('('),
                );
            } else if character == ')' {
                lemma_value_without_whitespace(
                    chars,
                    i + 1,
                    Progress { parens: (at.parens - 1) as nat, ..next },
                    text.push(')'),
                );
            } else if character == '[' {
                lemma_value_without_whitespace(
                    chars,
                    i + 1,
                    Progress { brackets: at.brackets + 1, ..next },
                    text.push('['),
                );
            } else if character == ']' {
                lemma_value_without_whitespace(
                    chars,
                    i + 1,
                    Progress { brackets: (at.brackets - 1) as nat, ..next },
                    text.push(']'),
                );
            } else if character == '\\' {
                if let Some(escaped) = escape_at(chars, i + 1) {
                    let hex_digits: nat = if ascii_hex_digit(escaped) {
                        1
                    } else {
                        0
                    };
                    lemma_value_without_whitespace(
                        chars,
                        i + 2,
                        Progress { hex_digits, ..next },
                        text + seq!['\\', escaped],
                    );
                }
            } else if character == '_' || ident_character(character) {
                let hex_digits: nat = if 0 < at.hex_digits < 6 && ascii_hex_digit(character) {
                    at.hex_digits + 1
                } else {
                    0
                };
                lemma_value_without_whitespace(
                    chars,
                    i + 1,
                    Progress { ident_start: kept_start(at.ident_start, i), hex_digits, ..next },
                    text + encoded_character(character),
                );
            } else {
                lemma_value_without_whitespace(chars, i + 1, next, text.push(character));
            }
        }
    }
}

/// A candidate never carries whitespace: neither encoder writes any, so the
/// result stays one class token.
pub proof fn encodings_hold_no_whitespace(value: Seq<char>)
    ensures
        without_whitespace(encoding(value)),
        value_encoding(value) matches Some(text) ==> without_whitespace(text),
{
    lemma_encoding_without_whitespace(value, 0, seq![], false);
    lemma_value_without_whitespace(value, 0, start_progress(), seq![]);
}

/// What Tailwind reads back from position `i` on: `\_` is an underscore, `_` a
/// space, and every other character stands for itself.
pub open spec fn decoding_from(text: Seq<char>, i: int) -> Seq<char>
    decreases text.len() - i,
{
    if i < 0 || i >= text.len() {
        seq![]
    } else if text[i] == '\\' && i + 1 < text.len() && text[i + 1] == '_' {
        seq!['_'] + decoding_from(text, i + 2)
    } else if text[i] == '_' {
        seq![' '] + decoding_from(text, i + 1)
    } else {
        seq![text[i]] + decoding_from(text, i + 1)
    }
}

/// `value` with its outer whitespace dropped and every inner run of whitespace
/// made one space.
pub open spec fn collapsed_from(value: Seq<char>, i: int, text: Seq<char>, pending: bool) -> Seq<char>
    decreases value.len() - i,
{
    if i < 0 || i >= value.len() {
        text
    } else if css_whitespace(value[i]) {
        collapsed_from(value, i + 1, text, text.len() > 0)
    } else {
        let separator = if pending {
            seq![' ']
        } else {
            seq![]
        };
        collapsed_from(value, i + 1, text + separator + seq![value[i]], false)
    }
}

/// Whether an unescaped reading of `text` ends exactly at its end, that is
/// `text` holds no backslash but in `\_`.
spec fn tokens(text: Seq<char>) -> bool {
    forall|i: int| 0 <= i < text.len() && #[trigger] text[i] == '\\' ==> i + 1 < text.len() && text[i + 1] == '_'
}

proof fn lemma_decoding_append(text: Seq<char>, tail: Seq<char>, i: int)
    requires
        tokens(text),
        0 <= i <= text.len(),
    ensures
        decoding_from(text + tail, i) == decoding_from(text, i) + decoding_from(tail, 0),
    decreases text.len() - i,
{
    let whole = text + tail;
    if i == text.len() {
        lemma_decoding_shift(text, tail, 0);
        assert(decoding_from(text, i) =~= seq![]);
        assert(seq![] + decoding_from(tail, 0) =~= decoding_from(tail, 0));
    } else if text[i] == '\\' {
        lemma_decoding_append(text, tail, i + 2);
        assert(decoding_from(whole, i) =~= seq!['_'] + decoding_from(whole, i + 2));
        assert(decoding_from(text, i) =~= seq!['_'] + decoding_from(text, i + 2));
        assert(seq!['_'] + (decoding_from(text, i + 2) + decoding_from(tail, 0)) =~= decoding_from(text, i)
            + decoding_from(tail, 0));
    } else {
        lemma_decoding_append(text, tail, i + 1);
        let head = if text[i] == '_' {
            seq![' ']
        } else {
            seq![text[i]]
        };
        assert(decoding_from(whole, i) =~= head + decoding_from(whole, i + 1));
        assert(decoding_from(text, i) =~= head + decoding_from(text, i + 1));
        assert(head + (decoding_from(text, i + 1) + decoding_from(tail, 0)) =~= decoding_from(text, i)
            + decoding_from(tail, 0));
    }
}

proof fn lemma_decoding_shift(text: Seq<char>, tail: Seq<char>, j: int)
    requires
        0 <= j <= tail.len(),
    ensures
        decoding_from(text + tail, text.len() + j) == decoding_from(tail, j),
    decreases tail.len() - j,
{
    let whole = text + tail;
    let i = text.len() + j;
    if j < tail.len() {
        assert(whole[i] == tail[j]);
        if j + 1 < tail.len() {
            assert(whole[i + 1] == tail[j + 1]);
            lemma_decoding_shift(text, tail, j + 2);
        }
        lemma_decoding_shift(text, tail, j + 1);
    }
}

proof fn lemma_decoding_steps(value: Seq<char>, i: int, encoded: Seq<char>, text: Seq<char>, pending: bool)
    requires
        0 <= i <= value.len(),
        !value.contains('\\'),
        tokens(encoded),
        decoding_from(encoded, 0) == text,
        encoded.len() == 0 <==> text.len() == 0,
    ensures
        decoding_from(encoding_from(value, i, encoded, pending), 0) == collapsed_from(value, i, text, pending),
    decreases value.len() - i,
{
    if i < value.len() {
        if css_whitespace(value[i]) {
            lemma_decoding_steps(value, i + 1, encoded, text, encoded.len() > 0);
        } else {
            let character = value[i];
            assert(value.contains(character));
            let separator: Seq<char> = if pending {
                seq!['_']
            } else {
                seq![]
            };
            let space: Seq<char> = if pending {
                seq![' ']
            } else {
                seq![]
            };
            let tail = separator + encoded_character(character);
            reveal_with_fuel(decoding_from, 4);
            assert(decoding_from(tail, 0) =~= space + seq![character]);
            lemma_decoding_append(encoded, tail, 0);
            let next = encoded + separator + encoded_character(character);
            assert(next =~= encoded + tail);
            assert(decoding_from(next, 0) =~= text + space + seq![character]);
            assert(tokens(next));
            lemma_decoding_steps(value, i + 1, next, text + space + seq![character], false);
        }
    }
}

/// Spaces and literal underscores stay apart: for a value without backslashes,
/// reading the encoding back gives the value with its whitespace collapsed.
pub proof fn decoding_undoes_encoding(value: Seq<char>)
    requires
        !value.contains('\\'),
    ensures
        decoding_from(encoding(value), 0) == collapsed_from(value, 0, seq![], false),
{
    lemma_decoding_steps(value, 0, seq![], seq![], false);
}

/// The parentheses and the brackets from `i` on close what is open, each kind
/// for itself, and nothing else.
pub open spec fn closes_from(value: Seq<char>, i: int, parens: nat, brackets: nat) -> bool
    decreases value.len() - i,
{
    if i < 0 || i >= value.len() {
        parens == 0 && brackets == 0
    } else if value[i] == '(' {
        closes_from(value, i + 1, parens + 1, brackets)
    } else if value[i] == ')' {
        parens > 0 && closes_from(value, i + 1, (parens - 1) as nat, brackets)
    } else if value[i] == '[' {
        closes_from(value, i + 1, parens, brackets + 1)
    } else if value[i] == ']' {
        brackets > 0 && closes_from(value, i + 1, parens, (brackets - 1) as nat)
    } else {
        closes_from(value, i + 1, parens, brackets)
    }
}

/// A value without quotes, backslashes and `url(`.
pub open spec fn plain_value(value: Seq<char>) -> bool {
    !value.contains('"') && !value.contains('\'') && !value.contains('\\') && !holds(value, "url("@)
}

/// The value holds no semicolon from `i` on.
spec fn unended(value: Seq<char>, i: int) -> bool {
    forall|k: int| i <= k < value.len() ==> #[trigger] value[k] != ';'
}

proof fn lemma_no_url(value: Seq<char>, start: Option<int>, i: int)
    requires
        !holds(value, "url("@),
        0 <= i < value.len(),
        value[i] == '(',
        start matches Some(start) ==> 0 <= start <= i,
    ensures
        !is_url_name(ident_before(value, start, i)),
{
    let name = ident_before(value, start, i);
    if is_url_name(name) {
        reveal_strlit("url(");
        let begin = start->0;
        let n = name.len() as int;
        assert(n == i - begin);
        if name != seq!['u', 'r', 'l'] {
            let tail = name.skip(n - 4);
            assert(tail[1] == name[n - 3] && tail[2] == name[n - 2] && tail[3] == name[n - 1]);
        }
        assert(name[n - 3] == value[i - 3] && name[n - 2] == value[i - 2] && name[n - 1] == value[i - 1]);
        assert(value.subrange(i - 3, i + 1) =~= "url("@);
        assert(stands_at(value, "url("@, i - 3));
    }
}

proof fn lemma_plain_value(value: Seq<char>, i: int, at: Progress, encoded: Seq<char>)
    requires
        plain_value(value),
        0 <= i <= value.len(),
        at.hex_digits == 0,
        at.ident_start matches Some(start) ==> 0 <= start <= i,
    ensures
        value_from(value, i, at, encoded) == if unended(value, i) && closes_from(value, i, at.parens, at.brackets) {
            Some(encoding_from(value, i, encoded, at.pending_space))
        } else {
            None
        },
    decreases value.len() - i,
{
    if i < value.len() {
        let character = value[i];
        assert(value.contains(character));
        assert(unended(value, i) == (character != ';' && unended(value, i + 1))) by {
            if unended(value, i) {
                assert(value[i] != ';');
            }
        }
        if css_whitespace(character) {
            let next = Progress { ident_start: None, hex_digits: 0, pending_space: encoded.len() > 0, ..at };
            lemma_plain_value(value, i + 1, next, encoded);
        } else if character != ';' {
            let text = if at.pending_space {
                encoded.push('_')
            } else {
                encoded
            };
            let next = Progress { pending_space: false, ident_start: None, hex_digits: 0, ..at };
            let separator: Seq<char> = if at.pending_space {
                seq!['_']
            } else {
                seq![]
            };
            let written = encoded + separator + encoded_character(character);
            assert(written =~= text + encoded_character(character));
            if character == '(' {
                lemma_no_url(value, at.ident_start, i);
                assert(text.push('(') =~= written);
                lemma_plain_value(value, i + 1, Progress { parens: at.parens + 1, ..next }, text.push('('));
            } else if character == ')' {
                assert(text.push(')') =~= written);
                if at.parens > 0 {
                    lemma_plain_value(
                        value,
                        i + 1,
                        Progress { parens: (at.parens - 1) as nat, ..next },
                        text.push(')'),
                    );
                }
            } else if character == '[' {
                assert(text.push('[') =~= written);
                lemma_plain_value(value, i + 1, Progress { brackets: at.brackets + 1, ..next }, text.push('['));
            } else if character == ']' {
                assert(text.push(']') =~= written);
                if at.brackets > 0 {
                    lemma_plain_value(
                        value,
                        i + 1,
                        Progress { brackets: (at.brackets - 1) as nat, ..next },
                        text.push(']'),
                    );
                }
            } else if character == '_' || ident_character(character) {
                lemma_plain_value(
                    value,
                    i + 1,
                    Progress { ident_start: kept_start(at.ident_start, i), ..next },
                    text + encoded_character(character),
                );
            } else {
                assert(text.push(character) =~= written);
                lemma_plain_value(value, i + 1, next, text.push(character));
            }
        }
    }
}

/// The two encoders agree: on a value without quotes, backslashes and `url(`,
/// [`encode_value`] gives what [`encode`] gives, exactly where the value holds
/// no semicolon and its parentheses and brackets close.
pub proof fn encoders_agree_on_plain_values(value: Seq<char>)
    requires
        plain_value(value),
    ensures
        value_encoding(value) == if !value.contains(';') && closes_from(value, 0, 0, 0) {
            Some(encoding(value))
        } else {
            None
        },
{
    lemma_plain_value(value, 0, start_progress(), seq![]);
    assert(unended(value, 0) == !value.contains(';')) by {
        if !value.contains(';') {
            assert forall|k: int| 0 <= k < value.len() implies #[trigger] value[k] != ';' by {
                assert(value.contains(value[k]));
            }
        }
    }
}

} // verus!
