//! Attribute sites: how candidates are quoted and escaped into them, and how
//! a site is found again after earlier edits.
//!
//! Offsets are byte offsets. An offset that would leave the range of `usize`
//! has no place, and neither has a span that is out of order.
use crate::source::{AttributeModel, HtmlAttribute};
use crate::text::{
    copy_cut, cut, has_char, maybe, pieces, pieces_from, same, split, strip_prefix, texts, to_chars, without_prefix,
    Separator,
};
use vstd::prelude::*;
use vstd::utf8::*;

verus! {

/// How many bytes the text takes.
pub open spec fn byte_len(text: Seq<char>) -> int {
    encode_utf8(text).len() as int
}

/// The quote that a text consists of.
pub open spec fn quote_of(text: Seq<char>) -> Option<char> {
    if text.len() == 1 && (text[0] == '\'' || text[0] == '"' || text[0] == '`') {
        Some(text[0])
    } else {
        None
    }
}

/// The quote that an optional text consists of.
pub open spec fn maybe_quote(text: Option<Seq<char>>) -> Option<char> {
    match text {
        Some(text) => quote_of(text),
        None => None,
    }
}

/// The quote that a text consists of.
pub fn single_quote(text: &str) -> (result: Option<char>)
    ensures
        result == quote_of(text@),
{
    let chars = to_chars(text);
    if chars.len() == 1 && (chars[0] == '\'' || chars[0] == '"' || chars[0] == '`') {
        Some(chars[0])
    } else {
        None
    }
}

fn optional_quote(text: &Option<String>) -> (result: Option<char>)
    ensures
        result == maybe_quote(maybe(*text)),
{
    match text {
        Some(text) => single_quote(text.as_str()),
        None => None,
    }
}

/// The byte before an offset.
pub open spec fn byte_before(source: Seq<char>, offset: int) -> Option<u8> {
    let bytes = encode_utf8(source);
    if 0 < offset <= bytes.len() {
        Some(bytes[offset - 1])
    } else {
        None
    }
}

/// The quote that a byte is.
pub open spec fn enclosing_quote(byte: Option<u8>) -> Option<char> {
    match byte {
        Some(byte) => if byte == 0x22 {
            Some('"')
        } else if byte == 0x27 {
            Some('\'')
        } else {
            None
        },
        None => None,
    }
}

fn get_quote_before(source: &str, offset: usize) -> (result: Option<char>)
    ensures
        result == enclosing_quote(byte_before(source@, offset as int)),
{
    let bytes = source.as_bytes();
    if 0 < offset && offset <= bytes.len() {
        let byte = bytes[offset - 1];
        if byte == 0x22 {
            Some('"')
        } else if byte == 0x27 {
            Some('\'')
        } else {
            None
        }
    } else {
        None
    }
}

/// The quote delimiter enclosing a live attribute value: the byte before the
/// value span, or `"` for a synthetic attribute, which is inserted with double
/// quotes.
pub open spec fn value_quote(source: Seq<char>, attribute: AttributeModel) -> Option<char> {
    if attribute.synthetic {
        Some('"')
    } else {
        enclosing_quote(byte_before(source, attribute.start))
    }
}

/// The quote of the HTML attribute that holds the site.
pub open spec fn outer_quote(source: Seq<char>, attribute: AttributeModel) -> Option<char> {
    match attribute.html_quote {
        Some(quote) => quote_of(quote),
        None => if attribute.js_quote is Some {
            None
        } else {
            value_quote(source, attribute)
        },
    }
}

fn attribute_quote(source: &str, attribute: &HtmlAttribute) -> (result: Option<char>)
    ensures
        result == value_quote(source@, attribute@),
{
    if attribute.synthetic {
        Some('"')
    } else {
        get_quote_before(source, attribute.start)
    }
}

/// The quote of the HTML attribute that holds the site.
pub fn attribute_outer_quote(source: &str, attribute: &HtmlAttribute) -> (result: Option<char>)
    ensures
        result == outer_quote(source@, attribute@),
{
    match &attribute.html_quote {
        Some(quote) => single_quote(quote.as_str()),
        None => if attribute.js_quote.is_some() {
            None
        } else {
            attribute_quote(source, attribute)
        },
    }
}

/// The candidate cannot be written inside the quote. An unquoted or
/// unrecognized site cannot safely hold either HTML quote.
pub open spec fn breaks(candidate: Seq<char>, quote: Option<char>) -> bool {
    match quote {
        Some(quote) => candidate.contains(quote),
        None => candidate.contains('"') || candidate.contains('\''),
    }
}

/// Whether the candidate cannot be written inside the quote.
pub fn candidate_breaks_attribute(candidate: &str, quote: Option<char>) -> (result: bool)
    ensures
        result == breaks(candidate@, quote),
{
    match quote {
        Some(quote) => has_char(candidate, quote),
        None => has_char(candidate, '"') || has_char(candidate, '\''),
    }
}

/// The attribute is a site inside a directive expression.
pub open spec fn directive_metadata(attribute: AttributeModel) -> bool {
    attribute.js_quote is Some || attribute.html_quote is Some || attribute.raw_value is Some || attribute.quote_key
        || attribute.object_shorthand
}

/// Whether the attribute is a site inside a directive expression.
pub fn has_directive_metadata(attribute: &HtmlAttribute) -> (result: bool)
    ensures
        result == directive_metadata(attribute@),
{
    attribute.js_quote.is_some() || attribute.html_quote.is_some() || attribute.raw_value.is_some()
        || attribute.quote_key || attribute.object_shorthand
}

/// The literal's quote and authored text of a directive site that still
/// stands in the source.
pub open spec fn site_of(source: Seq<char>, attribute: AttributeModel) -> Option<(char, Seq<char>)> {
    match (maybe_quote(attribute.js_quote), maybe_quote(attribute.html_quote), attribute.raw_value) {
        (Some(js), Some(html), Some(raw)) => if html != '`' && js != html && cut(
            source,
            attribute.start,
            attribute.end,
        ) == Some(raw) {
            Some((js, raw))
        } else {
            None
        },
        _ => None,
    }
}

/// The literal's quote and authored text of a directive site that still
/// stands in the source.
pub fn directive_site(source: &str, attribute: &HtmlAttribute) -> (result: Option<(char, String)>)
    ensures
        match result {
            Some(site) => site_of(source@, attribute@) == Some((site.0, site.1@)),
            None => site_of(source@, attribute@) is None,
        },
{
    let js = match optional_quote(&attribute.js_quote) {
        Some(js) => js,
        None => {
            return None;
        },
    };
    let html = match optional_quote(&attribute.html_quote) {
        Some(html) => html,
        None => {
            return None;
        },
    };
    if html == '`' || js == html {
        return None;
    }
    match &attribute.raw_value {
        None => None,
        Some(raw) => match copy_cut(source, attribute.start, attribute.end) {
            Some(part) => if same(part.as_str(), raw.as_str()) {
                Some((js, raw.clone()))
            } else {
                None
            },
            None => None,
        },
    }
}

/// Every candidate can be written at the site.
pub open spec fn all_fit(source: Seq<char>, attribute: AttributeModel, candidates: Seq<Seq<char>>) -> bool {
    if directive_metadata(attribute) {
        site_of(source, attribute) is Some && forall|i: int|
            0 <= i < candidates.len() ==> !(#[trigger] candidates[i]).contains('&') && !breaks(
                candidates[i],
                maybe_quote(attribute.html_quote),
            )
    } else {
        forall|i: int| 0 <= i < candidates.len() ==> !breaks(#[trigger] candidates[i], value_quote(source, attribute))
    }
}

/// Whether every candidate can be written at the site.
pub fn candidates_fit_attribute(source: &str, attribute: &HtmlAttribute, candidates: &Vec<String>) -> (result: bool)
    ensures
        result == all_fit(source@, attribute@, texts(candidates@)),
{
    let directive = has_directive_metadata(attribute);
    if directive && directive_site(source, attribute).is_none() {
        return false;
    }
    let quote = if directive {
        optional_quote(&attribute.html_quote)
    } else {
        attribute_quote(source, attribute)
    };
    let mut i: usize = 0;
    while i < candidates.len()
        invariant
            i <= candidates@.len(),
            directive == directive_metadata(attribute@),
            directive ==> site_of(source@, attribute@) is Some,
            quote == if directive {
                maybe_quote(attribute@.html_quote)
            } else {
                value_quote(source@, attribute@)
            },
            forall|j: int|
                0 <= j < i ==> !breaks(#[trigger] texts(candidates@)[j], quote) && (directive ==> !texts(
                    candidates@,
                )[j].contains('&')),
        decreases candidates.len() - i,
    {
        let candidate = candidates[i].as_str();
        assert(texts(candidates@)[i as int] == candidate@);
        if (directive && has_char(candidate, '&')) || candidate_breaks_attribute(candidate, quote) {
            return false;
        }
        i += 1;
    }
    true
}

/// The character at `i` needs a backslash inside the literal.
pub open spec fn needs_escape(value: Seq<char>, quote: char, i: int) -> bool {
    value[i] == '\\' || value[i] == quote || (quote == '`' && value[i] == '$' && i + 1 < value.len() && value[i + 1]
        == '{')
}

/// The characters from `i` on, escaped.
pub open spec fn escaped_from(value: Seq<char>, quote: char, i: int) -> Seq<char>
    decreases value.len() - i,
{
    if i < 0 || i >= value.len() {
        seq![]
    } else if needs_escape(value, quote, i) {
        seq!['\\', value[i]] + escaped_from(value, quote, i + 1)
    } else {
        seq![value[i]] + escaped_from(value, quote, i + 1)
    }
}

/// `value` as the content of a JavaScript literal in `quote`.
pub open spec fn escaped(value: Seq<char>, quote: char) -> Seq<char> {
    escaped_from(value, quote, 0)
}

/// The value as the content of a JavaScript literal.
pub fn escape_js_content(value: &str, quote: char) -> (result: String)
    ensures
        result@ == escaped(value@, quote),
{
    let chars = to_chars(value);
    let mut result = String::new();
    let mut i: usize = 0;
    assert(result@ + escaped_from(value@, quote, 0) =~= escaped(value@, quote));
    while i < chars.len()
        invariant
            chars@ == value@,
            i <= chars@.len(),
            result@ + escaped_from(value@, quote, i as int) == escaped(value@, quote),
        decreases chars.len() - i,
    {
        let c = chars[i];
        let ghost before = result@;
        let ghost rest = escaped_from(value@, quote, i + 1);
        if c == '\\' || c == quote || (quote == '`' && c == '$' && chars.len() - i > 1 && chars[i + 1] == '{') {
            result.push('\\');
            result.push(c);
            assert(result@ + rest =~= before + (seq!['\\', c] + rest));
        } else {
            result.push(c);
            assert(result@ + rest =~= before + (seq![c] + rest));
        }
        i += 1;
    }
    assert(result@ + escaped_from(value@, quote, i as int) =~= result@);
    result
}

/// A backslash may stand before the character.
pub open spec fn escapable(c: char, quote: char) -> bool {
    c == '\\' || c == quote || (quote == '`' && c == '$')
}

/// What the characters from `i` on stand for.
pub open spec fn unescaped_from(value: Seq<char>, quote: char, i: int) -> Option<Seq<char>>
    decreases value.len() - i,
{
    if i < 0 || i >= value.len() {
        Some(seq![])
    } else if value[i] != '\\' {
        match unescaped_from(value, quote, i + 1) {
            Some(rest) => Some(seq![value[i]] + rest),
            None => None,
        }
    } else if i + 1 < value.len() && escapable(value[i + 1], quote) {
        match unescaped_from(value, quote, i + 2) {
            Some(rest) => Some(seq![value[i + 1]] + rest),
            None => None,
        }
    } else {
        None
    }
}

/// What the content of a JavaScript literal stands for.
pub open spec fn unescaped(value: Seq<char>, quote: char) -> Option<Seq<char>> {
    unescaped_from(value, quote, 0)
}

/// What the content of a JavaScript literal stands for.
pub fn unescape_js_content(value: &str, quote: char) -> (result: Option<String>)
    ensures
        maybe(result) == unescaped(value@, quote),
{
    let chars = to_chars(value);
    let mut result = String::new();
    let mut i: usize = 0;
    proof {
        if let Some(rest) = unescaped_from(value@, quote, 0) {
            assert(result@ + rest =~= rest);
        }
    }
    while i < chars.len()
        invariant
            chars@ == value@,
            i <= chars@.len(),
            match unescaped_from(value@, quote, i as int) {
                Some(rest) => unescaped(value@, quote) == Some(result@ + rest),
                None => unescaped(value@, quote) is None,
            },
        decreases chars.len() - i,
    {
        let ghost before = result@;
        let c = chars[i];
        if c != '\\' {
            result.push(c);
            i += 1;
            proof {
                if let Some(rest) = unescaped_from(value@, quote, i as int) {
                    assert(result@ + rest =~= before + (seq![c] + rest));
                }
            }
        } else {
            if chars.len() - i < 2 {
                return None;
            }
            let next = chars[i + 1];
            if !(next == '\\' || next == quote || (quote == '`' && next == '$')) {
                return None;
            }
            result.push(next);
            i += 2;
            proof {
                if let Some(rest) = unescaped_from(value@, quote, i as int) {
                    assert(result@ + rest =~= before + (seq![next] + rest));
                }
            }
        }
    }
    assert(result@ + Seq::<char>::empty() =~= result@);
    Some(result)
}

/// What was escaped, unescapes to the same text.
pub proof fn unescaping_undoes_escaping(value: Seq<char>, quote: char)
    requires
        quote == '\'' || quote == '"' || quote == '`',
    ensures
        unescaped(escaped(value, quote), quote) == Some(value),
{
    let content = escaped(value, quote);
    assert(content.skip(0) =~= content);
    lemma_unescaped(value, quote, 0, content, 0);
    assert(value.skip(0) =~= value);
}

proof fn lemma_unescaped(value: Seq<char>, quote: char, i: int, content: Seq<char>, k: int)
    requires
        0 <= i <= value.len(),
        0 <= k <= content.len(),
        content.skip(k) == escaped_from(value, quote, i),
        quote == '\'' || quote == '"' || quote == '`',
    ensures
        unescaped_from(content, quote, k) == Some(value.skip(i)),
    decreases value.len() - i,
{
    let tail = escaped_from(value, quote, i);
    if i == value.len() {
        assert(content.skip(k).len() == 0);
        assert(value.skip(i) =~= Seq::<char>::empty());
    } else {
        let rest = escaped_from(value, quote, i + 1);
        assert(value.skip(i) =~= seq![value[i]] + value.skip(i + 1));
        assert(tail.len() >= 1);
        assert(content[k] == content.skip(k)[0]);
        if needs_escape(value, quote, i) {
            assert(tail == seq!['\\', value[i]] + rest);
            assert(content[k + 1] == content.skip(k)[1]);
            assert(content.skip(k + 2) =~= rest) by {
                assert(content.skip(k).skip(2) =~= rest);
                assert(content.skip(k).skip(2) =~= content.skip(k + 2));
            }
            lemma_unescaped(value, quote, i + 1, content, k + 2);
        } else {
            assert(tail == seq![value[i]] + rest);
            assert(content.skip(k + 1) =~= rest) by {
                assert(content.skip(k).skip(1) =~= rest);
                assert(content.skip(k).skip(1) =~= content.skip(k + 1));
            }
            lemma_unescaped(value, quote, i + 1, content, k + 1);
        }
    }
}

/// `start` followed by the first `n` additions, each behind a space.
pub open spec fn with_additions(start: Seq<char>, additions: Seq<Seq<char>>, quote: char, n: int) -> Seq<char>
    decreases n,
{
    if n <= 0 {
        start
    } else {
        with_additions(start, additions, quote, n - 1).push(' ') + escaped(additions[n - 1], quote)
    }
}

/// What is written at a directive site.
pub open spec fn rendered(
    raw: Seq<char>,
    runtime_value: Seq<char>,
    quote: char,
    quote_key: bool,
    object_shorthand: bool,
    additions: Seq<Seq<char>>,
) -> Seq<char> {
    let content = with_additions(
        if quote_key {
            runtime_value
        } else {
            raw
        },
        additions,
        quote,
        additions.len() as int,
    );
    if !quote_key {
        content
    } else if object_shorthand {
        seq![quote] + content + seq![quote] + ": "@ + raw
    } else {
        seq![quote] + content + seq![quote]
    }
}

/// What is written at a directive site.
pub fn render_js_site(
    raw: &str,
    runtime_value: &str,
    quote: char,
    quote_key: bool,
    object_shorthand: bool,
    additions: &Vec<String>,
) -> (result: String)
    ensures
        result@ == rendered(raw@, runtime_value@, quote, quote_key, object_shorthand, texts(additions@)),
{
    let mut content = if quote_key {
        runtime_value.to_owned()
    } else {
        raw.to_owned()
    };
    let ghost start = content@;
    let mut i: usize = 0;
    while i < additions.len()
        invariant
            i <= additions@.len(),
            content@ == with_additions(start, texts(additions@), quote, i as int),
        decreases additions.len() - i,
    {
        assert(texts(additions@)[i as int] == additions@[i as int]@);
        content.push(' ');
        content.append(escape_js_content(additions[i].as_str(), quote).as_str());
        i += 1;
    }
    if !quote_key {
        return content;
    }
    let mut result = String::new();
    result.push(quote);
    assert(result@ =~= seq![quote]);
    result.append(content.as_str());
    result.push(quote);
    assert(result@ =~= seq![quote] + content@ + seq![quote]);
    if object_shorthand {
        result.append(": ");
        result.append(raw);
    }
    result
}

/// `value` followed by what the pieces from `i` on stand for, each behind a
/// space.
pub open spec fn with_pieces(value: Seq<char>, list: Seq<Seq<char>>, quote: char, i: int) -> Option<Seq<char>>
    decreases list.len() - i,
{
    if i < 0 || i >= list.len() {
        Some(value)
    } else {
        match unescaped(list[i], quote) {
            Some(piece) => with_pieces(value.push(' ') + piece, list, quote, i + 1),
            None => None,
        }
    }
}

/// The classes that a site holds once `replacement` stands there, where the
/// replacement only appends.
pub open spec fn runtime_value(attribute: AttributeModel, replacement: Seq<char>, quote: char) -> Option<Seq<char>> {
    match attribute.raw_value {
        None => None,
        Some(raw) => match without_prefix(
            replacement,
            if attribute.quote_key {
                attribute.value
            } else {
                raw
            },
        ) {
            None => None,
            Some(suffix) => if suffix.len() == 0 {
                Some(attribute.value)
            } else {
                match without_prefix(suffix, " "@) {
                    None => None,
                    Some(rest) => with_pieces(attribute.value, pieces(rest, Separator::Char(' ')), quote, 0),
                }
            },
        },
    }
}

/// The classes that a site holds once `replacement` stands there, where the
/// replacement only appends.
pub fn appended_runtime_value(attribute: &HtmlAttribute, replacement: &str, quote: char) -> (result: Option<String>)
    ensures
        maybe(result) == runtime_value(attribute@, replacement@, quote),
{
    let raw = match &attribute.raw_value {
        Some(raw) => raw.as_str(),
        None => {
            return None;
        },
    };
    let prefix = if attribute.quote_key {
        attribute.value.as_str()
    } else {
        raw
    };
    let suffix = match strip_prefix(replacement, prefix) {
        Some(suffix) => suffix,
        None => {
            return None;
        },
    };
    if suffix.as_str().is_empty() {
        return Some(attribute.value.clone());
    }
    let rest = match strip_prefix(suffix.as_str(), " ") {
        Some(rest) => rest,
        None => {
            return None;
        },
    };
    let list = split(rest.as_str(), Separator::Char(' '));
    let mut value = attribute.value.clone();
    let ghost whole = with_pieces(value@, texts(list@), quote, 0);
    let mut i: usize = 0;
    while i < list.len()
        invariant
            i <= list@.len(),
            with_pieces(value@, texts(list@), quote, i as int) == whole,
            whole == runtime_value(attribute@, replacement@, quote),
        decreases list.len() - i,
    {
        assert(texts(list@)[i as int] == list@[i as int]@);
        match unescape_js_content(list[i].as_str(), quote) {
            Some(piece) => {
                value.push(' ');
                value.append(piece.as_str());
            },
            None => {
                return None;
            },
        }
        i += 1;
    }
    Some(value)
}

/// A space and then the escaped addition, for every addition from `i` on.
spec fn glued(additions: Seq<Seq<char>>, quote: char, i: int) -> Seq<char>
    decreases additions.len() - i,
{
    if i < 0 || i >= additions.len() {
        seq![]
    } else {
        seq![' '] + escaped(additions[i], quote) + glued(additions, quote, i + 1)
    }
}

proof fn lemma_additions(start: Seq<char>, additions: Seq<Seq<char>>, quote: char, n: int)
    requires
        0 <= n <= additions.len(),
    ensures
        with_additions(start, additions, quote, n) + glued(additions, quote, n) == start + glued(additions, quote, 0),
    decreases n,
{
    if n > 0 {
        lemma_additions(start, additions, quote, n - 1);
        let before = with_additions(start, additions, quote, n - 1);
        assert(before.push(' ') + escaped(additions[n - 1], quote) + glued(additions, quote, n) =~= before + (seq![
            ' ',
        ] + escaped(additions[n - 1], quote) + glued(additions, quote, n)));
    }
}

proof fn lemma_escaped_without_spaces(value: Seq<char>, quote: char, i: int)
    requires
        0 <= i <= value.len(),
        !value.contains(' '),
        quote != ' ',
    ensures
        forall|k: int| 0 <= k < escaped_from(value, quote, i).len() ==> #[trigger] escaped_from(value, quote, i)[k] != ' ',
    decreases value.len() - i,
{
    if i < value.len() {
        lemma_escaped_without_spaces(value, quote, i + 1);
        assert(value.contains(value[i]));
        let rest = escaped_from(value, quote, i + 1);
        let head = if needs_escape(value, quote, i) {
            seq!['\\', value[i]]
        } else {
            seq![value[i]]
        };
        assert forall|k: int| 0 <= k < (head + rest).len() implies #[trigger] (head + rest)[k] != ' ' by {
            if k >= head.len() {
                assert((head + rest)[k] == rest[k - head.len()]);
            }
        }
    }
}

proof fn lemma_no_separator(text: Seq<char>, start: int, i: int, end: int)
    requires
        0 <= i <= end <= text.len(),
        forall|k: int| i <= k < end ==> #[trigger] text[k] != ' ',
    ensures
        pieces_from(text, Separator::Char(' '), start, i) == pieces_from(text, Separator::Char(' '), start, end),
    decreases end - i,
{
    if i < end {
        lemma_no_separator(text, start, i + 1, end);
    }
}

/// The escaped additions from `i` on.
spec fn escaped_list(additions: Seq<Seq<char>>, quote: char, i: int) -> Seq<Seq<char>> {
    Seq::new((additions.len() - i) as nat, |k: int| escaped(additions[i + k], quote))
}

proof fn lemma_pieces(text: Seq<char>, start: int, additions: Seq<Seq<char>>, quote: char, i: int)
    requires
        0 < start <= text.len(),
        0 <= i < additions.len(),
        text.skip(start - 1) == glued(additions, quote, i),
        quote != ' ',
        forall|k: int| 0 <= k < additions.len() ==> !(#[trigger] additions[k]).contains(' '),
    ensures
        pieces_from(text, Separator::Char(' '), start, start) == escaped_list(additions, quote, i),
    decreases additions.len() - i,
{
    let first = escaped(additions[i], quote);
    let rest = glued(additions, quote, i + 1);
    let end = start + first.len();
    assert(text.skip(start - 1) == seq![' '] + first + rest);
    assert(text.len() == end + rest.len());
    lemma_escaped_without_spaces(additions[i], quote, 0);
    assert forall|k: int| start <= k < end implies #[trigger] text[k] != ' ' by {
        assert(text[k] == text.skip(start - 1)[k - start + 1]);
        assert(text[k] == first[k - start]);
    }
    lemma_no_separator(text, start, start, end);
    assert(text.subrange(start, end) =~= first) by {
        assert forall|k: int| 0 <= k < first.len() implies text.subrange(start, end)[k] == first[k] by {
            assert(text[start + k] == text.skip(start - 1)[k + 1]);
        }
    }
    if i + 1 == additions.len() {
        assert(text.subrange(start, text.len() as int) =~= first);
        assert(escaped_list(additions, quote, i) =~= seq![first]);
    } else {
        assert(text.skip(end) =~= rest) by {
            assert forall|k: int| 0 <= k < rest.len() implies text.skip(end)[k] == rest[k] by {
                assert(text[end + k] == text.skip(start - 1)[end + k - start + 1]);
            }
        }
        assert(text[end] == text.skip(end)[0]);
        lemma_pieces(text, end + 1, additions, quote, i + 1);
        assert(escaped_list(additions, quote, i) =~= seq![first] + escaped_list(additions, quote, i + 1));
    }
}

/// `value` followed by the first `n` additions, each behind a space.
pub open spec fn with_classes(value: Seq<char>, additions: Seq<Seq<char>>, n: int) -> Seq<char>
    decreases n,
{
    if n <= 0 {
        value
    } else {
        with_classes(value, additions, n - 1).push(' ') + additions[n - 1]
    }
}

proof fn lemma_with_pieces(value: Seq<char>, additions: Seq<Seq<char>>, quote: char, i: int)
    requires
        0 <= i <= additions.len(),
        quote == '\'' || quote == '"' || quote == '`',
    ensures
        with_pieces(with_classes(value, additions, i), escaped_list(additions, quote, 0), quote, i) == Some(
            with_classes(value, additions, additions.len() as int),
        ),
    decreases additions.len() - i,
{
    if i < additions.len() {
        unescaping_undoes_escaping(additions[i], quote);
        lemma_with_pieces(value, additions, quote, i + 1);
    }
}

/// The content that is rendered at a directive site stands for the classes
/// that were there, followed by the additions: nothing is lost and nothing is
/// altered by escaping.
pub proof fn rendering_keeps_runtime_classes(attribute: AttributeModel, additions: Seq<Seq<char>>, quote: char)
    requires
        quote == '\'' || quote == '"' || quote == '`',
        attribute.raw_value is Some,
        forall|k: int| 0 <= k < additions.len() ==> !(#[trigger] additions[k]).contains(' '),
    ensures
        runtime_value(
            attribute,
            with_additions(
                if attribute.quote_key {
                    attribute.value
                } else {
                    attribute.raw_value->0
                },
                additions,
                quote,
                additions.len() as int,
            ),
            quote,
        ) == Some(with_classes(attribute.value, additions, additions.len() as int)),
{
    let n = additions.len() as int;
    let start = if attribute.quote_key {
        attribute.value
    } else {
        attribute.raw_value->0
    };
    let replacement = with_additions(start, additions, quote, n);
    let suffix = glued(additions, quote, 0);
    lemma_additions(start, additions, quote, n);
    assert(replacement + glued(additions, quote, n) =~= replacement);
    assert(replacement == start + suffix);
    assert(replacement.subrange(0, start.len() as int) =~= start);
    assert(replacement.skip(start.len() as int) =~= suffix);
    if n > 0 {
        reveal_strlit(" ");
        assert(suffix == seq![' '] + escaped(additions[0], quote) + glued(additions, quote, 1));
        assert(" "@ =~= seq![' ']);
        assert(suffix.subrange(0, 1) =~= " "@);
        let rest = suffix.skip(1);
        assert(suffix.skip(0) =~= suffix);
        lemma_pieces(suffix, 1, additions, quote, 0);
        lemma_shifted_pieces(suffix, rest, 1, 1);
        lemma_with_pieces(attribute.value, additions, quote, 0);
    }
}

/// Splitting does not depend on what stands before the first piece.
proof fn lemma_shifted_pieces(text: Seq<char>, rest: Seq<char>, start: int, i: int)
    requires
        1 <= start <= i <= text.len(),
        rest == text.skip(1),
    ensures
        pieces_from(text, Separator::Char(' '), start, i) == pieces_from(
            rest,
            Separator::Char(' '),
            start - 1,
            i - 1,
        ),
    decreases text.len() - i,
{
    if i < text.len() {
        assert(rest[i - 1] == text[i]);
        assert(text.subrange(start, i) =~= rest.subrange(start - 1, i - 1));
        if text[i] == ' ' {
            lemma_shifted_pieces(text, rest, i + 1, i + 1);
        } else {
            lemma_shifted_pieces(text, rest, start, i + 1);
        }
    } else {
        assert(text.subrange(start, text.len() as int) =~= rest.subrange(start - 1, rest.len() as int));
    }
}

} // verus!
