//! Syntax trees as plain data.
//!
//! JavaScript and TypeScript modules are parsed by `oxc_parser`, which hands
//! their trees over in the ESTree form, as compact JSON. This module reads that
//! text into a [`Tree`], which the analyses walk. The trees of stylesheets come
//! in the same form.
use vstd::prelude::*;

verus! {

/// A value of a serialised syntax tree.
#[derive(Debug)]
pub enum Tree {
    Null,
    Flag(bool),
    /// A number; the value where it is a natural number that fits.
    Number(Option<u64>),
    Text(String),
    List(Vec<Tree>),
    /// Named fields, in their order.
    Node(Vec<(String, Tree)>),
}

/// The model of a [`Tree`].
pub enum TreeModel {
    Null,
    Flag(bool),
    Number(Option<u64>),
    Text(Seq<char>),
    List(Seq<TreeModel>),
    Node(Seq<(Seq<char>, TreeModel)>),
}

pub open spec fn tree_model(tree: Tree) -> TreeModel
    decreases tree, 0nat,
{
    match tree {
        Tree::Null => TreeModel::Null,
        Tree::Flag(flag) => TreeModel::Flag(flag),
        Tree::Number(number) => TreeModel::Number(number),
        Tree::Text(text) => TreeModel::Text(text@),
        Tree::List(items) => TreeModel::List(list_model(items@, items@.len())),
        Tree::Node(fields) => TreeModel::Node(fields_model(fields@, fields@.len())),
    }
}

/// The models of the first `n` items.
pub open spec fn list_model(items: Seq<Tree>, n: nat) -> Seq<TreeModel>
    decreases items, n,
{
    if n == 0 || n > items.len() {
        seq![]
    } else {
        list_model(items, (n - 1) as nat).push(tree_model(items[n - 1]))
    }
}

/// The models of the first `n` fields.
pub open spec fn fields_model(fields: Seq<(String, Tree)>, n: nat) -> Seq<(Seq<char>, TreeModel)>
    decreases fields, n,
{
    if n == 0 || n > fields.len() {
        seq![]
    } else {
        fields_model(fields, (n - 1) as nat).push((fields[n - 1].0@, tree_model(fields[n - 1].1)))
    }
}

impl View for Tree {
    type V = TreeModel;

    open spec fn view(&self) -> TreeModel {
        tree_model(*self)
    }
}

pub proof fn lemma_list_model(items: Seq<Tree>, n: nat)
    requires
        n <= items.len(),
    ensures
        list_model(items, n).len() == n,
        forall|i: int| 0 <= i < n ==> #[trigger] list_model(items, n)[i] == tree_model(items[i]),
    decreases n,
{
    if n > 0 {
        lemma_list_model(items, (n - 1) as nat);
    }
}

pub proof fn lemma_fields_model(fields: Seq<(String, Tree)>, n: nat)
    requires
        n <= fields.len(),
    ensures
        fields_model(fields, n).len() == n,
        forall|i: int|
            0 <= i < n ==> #[trigger] fields_model(fields, n)[i] == (fields[i].0@, tree_model(fields[i].1)),
    decreases n,
{
    if n > 0 {
        lemma_fields_model(fields, (n - 1) as nat);
    }
}

proof fn lemma_list_push(items: Seq<Tree>, item: Tree)
    ensures
        list_model(items.push(item), items.len() + 1) == list_model(items, items.len()).push(tree_model(item)),
{
    lemma_list_model(items, items.len());
    lemma_list_model(items.push(item), items.len() + 1);
    assert(list_model(items.push(item), items.len() + 1) =~= list_model(items, items.len()).push(tree_model(item)));
}

proof fn lemma_fields_push(fields: Seq<(String, Tree)>, field: (String, Tree))
    ensures
        fields_model(fields.push(field), fields.len() + 1) == fields_model(fields, fields.len()).push(
            (field.0@, tree_model(field.1)),
        ),
{
    lemma_fields_model(fields, fields.len());
    lemma_fields_model(fields.push(field), fields.len() + 1);
    assert(fields_model(fields.push(field), fields.len() + 1) =~= fields_model(fields, fields.len()).push(
        (field.0@, tree_model(field.1)),
    ));
}

// ---------------------------------------------------------------------------
// Reading the serialised form
// ---------------------------------------------------------------------------

/// `char::from_u32`: the character with this code point; there is none exactly
/// for surrogates and for values past the last code point.
pub assume_specification[ char::from_u32 ](code: u32) -> (result: Option<char>)
    ensures
        result is Some <==> (code < 0xd800 || 0xe000 <= code <= 0x10ffff),
        result matches Some(c) ==> c as u32 == code,
;

/// The value of a hex digit.
pub open spec fn hex_value(c: char) -> Option<int> {
    if '0' <= c <= '9' {
        Some(c as int - '0' as int)
    } else if 'a' <= c <= 'f' {
        Some(c as int - 'a' as int + 10)
    } else if 'A' <= c <= 'F' {
        Some(c as int - 'A' as int + 10)
    } else {
        None
    }
}

fn hex_digit(c: char) -> (result: Option<u32>)
    ensures
        result is Some <==> hex_value(c) is Some,
        result matches Some(value) ==> hex_value(c) == Some(value as int) && value < 16,
{
    if '0' <= c && c <= '9' {
        Some(c as u32 - 48)
    } else if 'a' <= c && c <= 'f' {
        Some(c as u32 - 97 + 10)
    } else if 'A' <= c && c <= 'F' {
        Some(c as u32 - 65 + 10)
    } else {
        None
    }
}

/// The four hex digits at `i`.
pub open spec fn code_unit(chars: Seq<char>, i: int) -> Option<int> {
    if i < 0 || i + 4 > chars.len() {
        None
    } else {
        match (hex_value(chars[i]), hex_value(chars[i + 1]), hex_value(chars[i + 2]), hex_value(chars[i + 3])) {
            (Some(a), Some(b), Some(c), Some(d)) => Some(a * 4096 + b * 256 + c * 16 + d),
            _ => None,
        }
    }
}

/// The character of a code unit; a surrogate becomes U+FFFD.
pub open spec fn code_unit_char(code: int) -> char {
    if code < 0xd800 || 0xe000 <= code {
        (code as u32) as char
    } else {
        '\u{fffd}'
    }
}

/// The character that the one-letter escape stands for.
pub open spec fn short_escape(c: char) -> Option<char> {
    if c == '"' || c == '\\' || c == '/' {
        Some(c)
    } else if c == 'b' {
        Some('\u{8}')
    } else if c == 'f' {
        Some('\u{c}')
    } else if c == 'n' {
        Some('\n')
    } else if c == 'r' {
        Some('\r')
    } else if c == 't' {
        Some('\t')
    } else {
        None
    }
}

/// A string whose opening quote has been read: its text, and the position
/// behind the closing quote.
pub open spec fn string_from(chars: Seq<char>, i: int, text: Seq<char>) -> Option<(Seq<char>, int)>
    decreases chars.len() - i,
{
    if i < 0 || i >= chars.len() {
        None
    } else if chars[i] == '"' {
        Some((text, i + 1))
    } else if chars[i] != '\\' {
        string_from(chars, i + 1, text.push(chars[i]))
    } else if i + 1 >= chars.len() {
        None
    } else if chars[i + 1] == 'u' {
        match code_unit(chars, i + 2) {
            Some(code) => string_from(chars, i + 6, text.push(code_unit_char(code))),
            None => None,
        }
    } else {
        match short_escape(chars[i + 1]) {
            Some(c) => string_from(chars, i + 2, text.push(c)),
            None => None,
        }
    }
}

fn read_string(chars: &Vec<char>, start: usize) -> (result: Option<(String, usize)>)
    ensures
        match string_from(chars@, start as int, seq![]) {
            Some((text, end)) => result matches Some((found, position)) && found@ == text && position == end && start
                < position <= chars@.len(),
            None => result is None,
        },
{
    let mut text = String::new();
    let mut i: usize = start;
    while i < chars.len()
        invariant
            start <= i,
            i <= chars@.len() || i == start,
            string_from(chars@, i as int, text@) == string_from(chars@, start as int, seq![]),
        decreases chars.len() - i,
    {
        let c = chars[i];
        if c == '"' {
            return Some((text, i + 1));
        }
        if c != '\\' {
            text.push(c);
            i += 1;
        } else {
            if i + 1 >= chars.len() {
                return None;
            }
            let escape = chars[i + 1];
            if escape == 'u' {
                if chars.len() - i < 6 {
                    return None;
                }
                match (
                    hex_digit(chars[i + 2]),
                    hex_digit(chars[i + 3]),
                    hex_digit(chars[i + 4]),
                    hex_digit(chars[i + 5]),
                ) {
                    (Some(a), Some(b), Some(c), Some(d)) => {
                        let code: u32 = a * 4096 + b * 256 + c * 16 + d;
                        assert(code_unit(chars@, i + 2) == Some(code as int));
                        let unit = match char::from_u32(code) {
                            Some(unit) => {
                                proof {
                                    vstd::utf8::char_u32_cast(unit, code);
                                }
                                unit
                            },
                            None => '\u{fffd}',
                        };
                        assert(unit == code_unit_char(code as int));
                        text.push(unit);
                        i += 6;
                    },
                    _ => {
                        return None;
                    },
                }
            } else {
                let unit = if escape == '"' || escape == '\\' || escape == '/' {
                    escape
                } else if escape == 'b' {
                    '\u{8}'
                } else if escape == 'f' {
                    '\u{c}'
                } else if escape == 'n' {
                    '\n'
                } else if escape == 'r' {
                    '\r'
                } else if escape == 't' {
                    '\t'
                } else {
                    return None;
                };
                text.push(unit);
                i += 2;
            }
        }
    }
    None
}

pub open spec fn number_char(c: char) -> bool {
    '0' <= c <= '9' || c == '-' || c == '+' || c == '.' || c == 'e' || c == 'E'
}

fn is_number_char(c: char) -> (result: bool)
    ensures
        result == number_char(c),
{
    ('0' <= c && c <= '9') || c == '-' || c == '+' || c == '.' || c == 'e' || c == 'E'
}

/// The position behind the number that runs at `i`.
pub open spec fn number_end(chars: Seq<char>, i: int) -> int
    decreases chars.len() - i,
{
    if 0 <= i < chars.len() && number_char(chars[i]) {
        number_end(chars, i + 1)
    } else {
        i
    }
}

/// The natural number that the digits `i..end` write behind `value`, if they
/// are digits and it fits.
pub open spec fn digits_value(chars: Seq<char>, i: int, end: int, value: int) -> Option<u64>
    decreases end - i,
{
    if i >= end {
        Some(value as u64)
    } else if '0' <= chars[i] <= '9' && value * 10 + (chars[i] as int - '0' as int) <= u64::MAX {
        digits_value(chars, i + 1, end, value * 10 + (chars[i] as int - '0' as int))
    } else {
        None
    }
}

fn read_number(chars: &Vec<char>, start: usize) -> (result: (Option<u64>, usize))
    requires
        start < chars@.len(),
        number_char(chars@[start as int]),
    ensures
        result.1 == number_end(chars@, start as int),
        start < result.1 <= chars@.len(),
        result.0 == digits_value(chars@, start as int, result.1 as int, 0),
{
    let count = chars.len();
    assert(start < count);
    let mut end: usize = start + 1;
    while end < chars.len() && is_number_char(chars[end])
        invariant
            start < end <= chars@.len(),
            number_end(chars@, end as int) == number_end(chars@, start as int),
        decreases chars.len() - end,
    {
        end += 1;
    }
    let mut value: u64 = 0;
    let mut i: usize = start;
    while i < end
        invariant
            start <= i <= end <= chars@.len(),
            start < end,
            end == number_end(chars@, start as int),
            digits_value(chars@, i as int, end as int, value as int) == digits_value(
                chars@,
                start as int,
                end as int,
                0,
            ),
        decreases end - i,
    {
        let c = chars[i];
        if !('0' <= c && c <= '9') {
            return (None, end);
        }
        let digit: u64 = (c as u32 - 48) as u64;
        if value > (u64::MAX - digit) / 10 {
            return (None, end);
        }
        value = value * 10 + digit;
        i += 1;
    }
    (Some(value), end)
}

/// The word `true`, `false` or `null` stands at `i`.
pub open spec fn word_at(chars: Seq<char>, i: int, word: Seq<char>) -> bool {
    crate::text::stands_at(chars, word, i)
}

/// The value at `i` and the position behind it.
pub open spec fn value_at(chars: Seq<char>, i: int) -> Option<(TreeModel, int)>
    decreases chars.len() - i, 0int,
{
    if i < 0 || i >= chars.len() {
        None
    } else if chars[i] == '"' {
        match string_from(chars, i + 1, seq![]) {
            Some((text, end)) => Some((TreeModel::Text(text), end)),
            None => None,
        }
    } else if chars[i] == '{' {
        fields_from(chars, i + 1, seq![])
    } else if chars[i] == '[' {
        items_from(chars, i + 1, seq![])
    } else if word_at(chars, i, "true"@) {
        Some((TreeModel::Flag(true), i + 4))
    } else if word_at(chars, i, "false"@) {
        Some((TreeModel::Flag(false), i + 5))
    } else if word_at(chars, i, "null"@) {
        Some((TreeModel::Null, i + 4))
    } else if number_char(chars[i]) {
        let end = number_end(chars, i);
        Some((TreeModel::Number(digits_value(chars, i, end, 0)), end))
    } else {
        None
    }
}

/// The rest of an object behind the fields read so far.
pub open spec fn fields_from(chars: Seq<char>, i: int, fields: Seq<(Seq<char>, TreeModel)>) -> Option<(TreeModel, int)>
    decreases chars.len() - i, 1int,
{
    if i < 0 || i >= chars.len() {
        None
    } else if chars[i] == '}' && fields.len() == 0 {
        Some((TreeModel::Node(fields), i + 1))
    } else if chars[i] != '"' {
        None
    } else {
        match string_from(chars, i + 1, seq![]) {
            None => None,
            Some((name, colon)) => if !(i < colon < chars.len()) || chars[colon] != ':' {
                None
            } else {
                match value_at(chars, colon + 1) {
                    None => None,
                    Some((value, end)) => if !(colon < end < chars.len()) {
                        None
                    } else if chars[end] == '}' {
                        Some((TreeModel::Node(fields.push((name, value))), end + 1))
                    } else if chars[end] == ',' {
                        fields_from(chars, end + 1, fields.push((name, value)))
                    } else {
                        None
                    },
                }
            },
        }
    }
}

/// The rest of an array behind the items read so far.
pub open spec fn items_from(chars: Seq<char>, i: int, items: Seq<TreeModel>) -> Option<(TreeModel, int)>
    decreases chars.len() - i, 1int,
{
    if i < 0 || i >= chars.len() {
        None
    } else if chars[i] == ']' && items.len() == 0 {
        Some((TreeModel::List(items), i + 1))
    } else {
        match value_at(chars, i) {
            None => None,
            Some((value, end)) => if !(i < end < chars.len()) {
                None
            } else if chars[end] == ']' {
                Some((TreeModel::List(items.push(value)), end + 1))
            } else if chars[end] == ',' {
                items_from(chars, end + 1, items.push(value))
            } else {
                None
            },
        }
    }
}

/// What a reader of the value at `i` returns.
pub open spec fn reads(result: Option<(Tree, usize)>, expected: Option<(TreeModel, int)>, i: int, length: int) -> bool {
    match expected {
        Some((model, end)) => result matches Some((tree, position)) && tree@ == model && position == end && i < position
            <= length,
        None => result is None,
    }
}

fn is_word(chars: &Vec<char>, i: usize, word: &str) -> (result: bool)
    ensures
        result == word_at(chars@, i as int, word@),
{
    crate::text::is_at(chars, &crate::text::to_chars(word), i)
}

fn read_value(chars: &Vec<char>, i: usize) -> (result: Option<(Tree, usize)>)
    ensures
        reads(result, value_at(chars@, i as int), i as int, chars@.len() as int),
    decreases chars@.len() - i, 0int,
{
    if i >= chars.len() {
        return None;
    }
    let c = chars[i];
    if c == '"' {
        return match read_string(chars, i + 1) {
            Some((text, end)) => Some((Tree::Text(text), end)),
            None => None,
        };
    }
    if c == '{' {
        return read_fields(chars, i + 1);
    }
    if c == '[' {
        return read_items(chars, i + 1);
    }
    proof {
        reveal_strlit("true");
        reveal_strlit("false");
        reveal_strlit("null");
    }
    if is_word(chars, i, "true") {
        return Some((Tree::Flag(true), i + 4));
    }
    if is_word(chars, i, "false") {
        return Some((Tree::Flag(false), i + 5));
    }
    if is_word(chars, i, "null") {
        return Some((Tree::Null, i + 4));
    }
    if is_number_char(c) {
        let (number, end) = read_number(chars, i);
        return Some((Tree::Number(number), end));
    }
    None
}

fn read_fields(chars: &Vec<char>, start: usize) -> (result: Option<(Tree, usize)>)
    ensures
        reads(result, fields_from(chars@, start as int, seq![]), start as int, chars@.len() as int),
    decreases chars@.len() - start, 1int,
{
    let mut fields: Vec<(String, Tree)> = Vec::new();
    let mut i: usize = start;
    assert(fields_model(fields@, 0) =~= seq![]);
    while i < chars.len()
        invariant
            start <= i,
            i <= chars@.len() || i == start,
            fields_from(chars@, i as int, fields_model(fields@, fields@.len())) == fields_from(
                chars@,
                start as int,
                seq![],
            ),
        decreases chars.len() - i,
    {
        proof {
            lemma_fields_model(fields@, fields@.len());
        }
        if chars[i] == '}' && fields.len() == 0 {
            return Some((Tree::Node(fields), i + 1));
        }
        if chars[i] != '"' {
            return None;
        }
        let (name, colon) = match read_string(chars, i + 1) {
            Some(read) => read,
            None => {
                return None;
            },
        };
        if colon >= chars.len() || chars[colon] != ':' {
            return None;
        }
        let (value, end) = match read_value(chars, colon + 1) {
            Some(read) => read,
            None => {
                return None;
            },
        };
        if end >= chars.len() {
            return None;
        }
        let ghost before = fields@;
        let ghost field = (name, value);
        fields.push((name, value));
        proof {
            lemma_fields_push(before, field);
        }
        if chars[end] == '}' {
            return Some((Tree::Node(fields), end + 1));
        }
        if chars[end] != ',' {
            return None;
        }
        i = end + 1;
    }
    None
}

fn read_items(chars: &Vec<char>, start: usize) -> (result: Option<(Tree, usize)>)
    ensures
        reads(result, items_from(chars@, start as int, seq![]), start as int, chars@.len() as int),
    decreases chars@.len() - start, 1int,
{
    let mut items: Vec<Tree> = Vec::new();
    let mut i: usize = start;
    assert(list_model(items@, 0) =~= seq![]);
    while i < chars.len()
        invariant
            start <= i,
            i <= chars@.len() || i == start,
            items_from(chars@, i as int, list_model(items@, items@.len())) == items_from(
                chars@,
                start as int,
                seq![],
            ),
        decreases chars.len() - i,
    {
        proof {
            lemma_list_model(items@, items@.len());
        }
        if chars[i] == ']' && items.len() == 0 {
            return Some((Tree::List(items), i + 1));
        }
        let (value, end) = match read_value(chars, i) {
            Some(read) => read,
            None => {
                return None;
            },
        };
        if end >= chars.len() {
            return None;
        }
        let ghost before = items@;
        let ghost item = value;
        items.push(value);
        proof {
            lemma_list_push(before, item);
        }
        if chars[end] == ']' {
            return Some((Tree::List(items), end + 1));
        }
        if chars[end] != ',' {
            return None;
        }
        i = end + 1;
    }
    None
}

/// The tree that a text serialises: one value that takes up the whole text.
pub open spec fn tree_read(text: Seq<char>) -> Option<TreeModel> {
    match value_at(text, 0) {
        Some((tree, end)) => if end == text.len() {
            Some(tree)
        } else {
            None
        },
        None => None,
    }
}

/// Reads a tree from its serialised form.
pub fn read_tree(text: &str) -> (result: Option<Tree>)
    ensures
        match tree_read(text@) {
            Some(model) => result matches Some(tree) && tree@ == model,
            None => result is None,
        },
{
    let chars = crate::text::to_chars(text);
    match read_value(&chars, 0) {
        Some((tree, end)) => if end == chars.len() {
            Some(tree)
        } else {
            None
        },
        None => None,
    }
}

} // verus!
