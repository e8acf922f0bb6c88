//! Media query condition keys, classification, and generated names.
//!
//! This module normalizes `@media` conditions into deterministic condition
//! keys, classifies simple minimum-width queries, and derives generated
//! breakpoint and custom-variant names. It performs no unit conversion and
//! never merges conditions whose equivalence it cannot prove: `48rem` and
//! `768px` stay distinct keys even when a typical browser renders them at the
//! same width.
use crate::number::{number_end, scan_css_number, show_number, shown, Numbers, NumbersModel};
use crate::text::{
    ascii_lowered, ascii_whitespace, begins, contains, from_chars, has_char, holds, is_separator, join, joined, lemma_bytes_concat, maybe, maybe_view, same,
    split_words, starts_with, strip_prefix, texts, to_ascii_lowercase, to_chars, trim, trimmed, views, without_prefix,
    words, Separator,
};
use vstd::prelude::*;
use vstd::utf8::*;

verus! {

/// The text without CSS whitespace at its ends; other whitespace code points
/// are identifier content and stay part of the token they touch.
pub open spec fn css_trimmed(text: Seq<char>) -> Seq<char> {
    trimmed(text, Separator::AsciiWhitespace)
}

fn trim_css_whitespace(text: &str) -> (result: String)
    ensures
        result@ == css_trimmed(text@),
{
    trim(text, Separator::AsciiWhitespace)
}

/// The text with runs of ASCII whitespace collapsed; other whitespace code
/// points are identifier content to the CSS tokenizer and stay as they are.
pub open spec fn collapsed(text: Seq<char>) -> Seq<char> {
    joined(words(text, Separator::AsciiWhitespace), " "@)
}

fn collapse_whitespace(text: &str) -> (result: String)
    ensures
        result@ == collapsed(text@),
{
    join(&split_words(text, Separator::AsciiWhitespace), " ")
}

/// How a feature is compared with a value.
#[derive(Clone, Copy, PartialEq, Eq, Structural)]
pub enum Comparison {
    Lt,
    Lte,
    Gt,
    Gte,
    Eq,
}

impl Comparison {
    pub open spec fn symbol_text(self) -> Seq<char> {
        match self {
            Comparison::Lt => "<"@,
            Comparison::Lte => "<="@,
            Comparison::Gt => ">"@,
            Comparison::Gte => ">="@,
            Comparison::Eq => "="@,
        }
    }

    pub open spec fn name_text(self) -> Seq<char> {
        match self {
            Comparison::Lt => "lt"@,
            Comparison::Lte => "lte"@,
            Comparison::Gt => "gt"@,
            Comparison::Gte => "gte"@,
            Comparison::Eq => "eq"@,
        }
    }

    pub open spec fn mirrored(self) -> Comparison {
        match self {
            Comparison::Lt => Comparison::Gt,
            Comparison::Lte => Comparison::Gte,
            Comparison::Gt => Comparison::Lt,
            Comparison::Gte => Comparison::Lte,
            Comparison::Eq => Comparison::Eq,
        }
    }

    pub fn symbol(self) -> (result: &'static str)
        ensures
            result@ == self.symbol_text(),
    {
        match self {
            Comparison::Lt => "<",
            Comparison::Lte => "<=",
            Comparison::Gt => ">",
            Comparison::Gte => ">=",
            Comparison::Eq => "=",
        }
    }

    pub fn name(self) -> (result: &'static str)
        ensures
            result@ == self.name_text(),
    {
        match self {
            Comparison::Lt => "lt",
            Comparison::Lte => "lte",
            Comparison::Gt => "gt",
            Comparison::Gte => "gte",
            Comparison::Eq => "eq",
        }
    }

    /// The comparison read from the feature's side: `52rem <= width` means
    /// `width >= 52rem`.
    pub fn flipped(self) -> (result: Comparison)
        ensures
            result == self.mirrored(),
    {
        match self {
            Comparison::Lt => Comparison::Gt,
            Comparison::Lte => Comparison::Gte,
            Comparison::Gt => Comparison::Lt,
            Comparison::Gte => Comparison::Lte,
            Comparison::Eq => Comparison::Eq,
        }
    }

    fn ascends(self) -> (result: bool)
        ensures
            result == self.ascending(),
    {
        match self {
            Comparison::Lt => true,
            Comparison::Lte => true,
            _ => false,
        }
    }

    fn descends(self) -> (result: bool)
        ensures
            result == self.descending(),
    {
        match self {
            Comparison::Gt => true,
            Comparison::Gte => true,
            _ => false,
        }
    }

    pub open spec fn ascending(self) -> bool {
        self is Lt || self is Lte
    }

    pub open spec fn descending(self) -> bool {
        self is Gt || self is Gte
    }
}

/// Reading a comparison from the other side twice changes nothing.
pub proof fn flipping_twice_changes_nothing(comparison: Comparison)
    ensures
        comparison.mirrored().mirrored() == comparison,
{
}

/// One parenthesized condition of a media query.
pub enum Condition {
    /// `(feature: value)`, after legacy width normalization.
    Plain { feature: String, value: String },
    /// `(feature)`.
    Boolean { feature: String },
    /// `(feature op value)`, always feature-first.
    Range { feature: String, op: Comparison, value: String },
    /// `(low lowOp feature highOp high)`, kept in authored ascending form.
    DoubleRange { low: String, low_op: Comparison, feature: String, high_op: Comparison, high: String },
}

/// The model of a [`Condition`].
pub enum ConditionModel {
    Plain { feature: Seq<char>, value: Seq<char> },
    Boolean { feature: Seq<char> },
    Range { feature: Seq<char>, op: Comparison, value: Seq<char> },
    DoubleRange {
        low: Seq<char>,
        low_op: Comparison,
        feature: Seq<char>,
        high_op: Comparison,
        high: Seq<char>,
    },
}

impl View for Condition {
    type V = ConditionModel;

    open spec fn view(&self) -> ConditionModel {
        match self {
            Condition::Plain { feature, value } => ConditionModel::Plain { feature: feature@, value: value@ },
            Condition::Boolean { feature } => ConditionModel::Boolean { feature: feature@ },
            Condition::Range { feature, op, value } => ConditionModel::Range {
                feature: feature@,
                op: *op,
                value: value@,
            },
            Condition::DoubleRange { low, low_op, feature, high_op, high } => ConditionModel::DoubleRange {
                low: low@,
                low_op: *low_op,
                feature: feature@,
                high_op: *high_op,
                high: high@,
            },
        }
    }
}

/// What stands before a media type or condition.
#[derive(Clone, Copy, PartialEq, Eq, Structural)]
pub enum Modifier {
    Not,
    Only,
}

impl Modifier {
    pub open spec fn text(self) -> Seq<char> {
        match self {
            Modifier::Not => "not"@,
            Modifier::Only => "only"@,
        }
    }

    fn keyword(self) -> (result: &'static str)
        ensures
            result@ == self.text(),
    {
        match self {
            Modifier::Not => "not",
            Modifier::Only => "only",
        }
    }
}

/// One branch of a media query list.
pub struct Branch {
    pub modifier: Option<Modifier>,
    pub media_type: Option<String>,
    pub conditions: Vec<Condition>,
}

/// The model of a [`Branch`].
pub struct BranchModel {
    pub modifier: Option<Modifier>,
    pub media_type: Option<Seq<char>>,
    pub conditions: Seq<ConditionModel>,
}

impl View for Branch {
    type V = BranchModel;

    open spec fn view(&self) -> BranchModel {
        BranchModel {
            modifier: self.modifier,
            media_type: maybe(self.media_type),
            conditions: views(self.conditions@),
        }
    }
}

/// The letter or digit that a character is written as in a name; nothing
/// where a hyphen stands for it.
pub open spec fn fragment(c: char) -> Option<Seq<char>> {
    if 'a' <= c <= 'z' || '0' <= c <= '9' {
        Some(seq![c])
    } else if c == '.' {
        Some(seq!['p'])
    } else if c == '%' {
        Some("pct"@)
    } else {
        None
    }
}

/// `value` from `i` on as an identifier fragment behind `before`; a run of
/// unsupported characters becomes one hyphen.
pub open spec fn sanitized_from(value: Seq<char>, i: int, before: Seq<char>) -> Seq<char>
    decreases value.len() - i,
{
    if i < 0 || i >= value.len() {
        before
    } else {
        match fragment(value[i]) {
            Some(text) => sanitized_from(value, i + 1, before + text),
            None => if before.len() > 0 && before.last() == '-' {
                sanitized_from(value, i + 1, before)
            } else {
                sanitized_from(value, i + 1, before.push('-'))
            },
        }
    }
}

/// A condition value as a variant-identifier fragment: `47.5rem` becomes
/// `47p5rem`, `33%` becomes `33pct`, and any other unsupported character
/// becomes a hyphen.
pub open spec fn sanitized(value: Seq<char>) -> Seq<char> {
    trimmed(sanitized_from(ascii_lowered(value), 0, seq![]), Separator::Char('-'))
}

/// A condition value as a variant-identifier fragment.
pub fn sanitize_value(value: &str) -> (result: String)
    ensures
        result@ == sanitized(value@),
{
    let chars = to_chars(to_ascii_lowercase(value).as_str());
    let ghost lowered = ascii_lowered(value@);
    let mut result = String::new();
    let mut open = false;
    let mut i: usize = 0;
    assert(result@ =~= Seq::<char>::empty());
    while i < chars.len()
        invariant
            chars@ == lowered,
            i <= chars@.len(),
            open == (result@.len() > 0 && result@.last() == '-'),
            sanitized_from(lowered, i as int, result@) == sanitized_from(lowered, 0, seq![]),
        decreases chars.len() - i,
    {
        let c = chars[i];
        let ghost before = result@;
        if ('a' <= c && c <= 'z') || ('0' <= c && c <= '9') {
            result.push(c);
            assert(result@ =~= before + seq![c]);
            open = false;
        } else if c == '.' {
            result.push('p');
            assert(result@ =~= before + seq!['p']);
            open = false;
        } else if c == '%' {
            result.append("pct");
            proof {
                reveal_strlit("pct");
                assert(result@.last() == 't');
            }
            open = false;
        } else if !open {
            result.push('-');
            open = true;
        }
        i += 1;
    }
    trim(result.as_str(), Separator::Char('-'))
}

/// How the condition is written in a key.
pub open spec fn condition_key(condition: ConditionModel) -> Seq<char> {
    match condition {
        ConditionModel::Plain { feature, value } => "("@ + feature + ": "@ + value + ")"@,
        ConditionModel::Boolean { feature } => "("@ + feature + ")"@,
        ConditionModel::Range { feature, op, value } => "("@ + feature + " "@ + op.symbol_text() + " "@ + value + ")"@,
        ConditionModel::DoubleRange { low, low_op, feature, high_op, high } => "("@ + low + " "@
            + low_op.symbol_text() + " "@ + feature + " "@ + high_op.symbol_text() + " "@ + high + ")"@,
    }
}

/// How the condition is written in a name.
pub open spec fn condition_name(condition: ConditionModel) -> Seq<char> {
    match condition {
        ConditionModel::Plain { feature, value } => feature + "-"@ + sanitized(value),
        ConditionModel::Boolean { feature } => feature,
        ConditionModel::Range { feature, op, value } => feature + "-"@ + op.name_text() + "-"@ + sanitized(value),
        ConditionModel::DoubleRange { low, low_op, feature, high_op, high } => feature + "-"@
            + low_op.mirrored().name_text() + "-"@ + sanitized(low) + "-"@ + high_op.name_text() + "-"@ + sanitized(
            high,
        ),
    }
}

impl Condition {
    /// How the condition is written in a key.
    pub fn render(&self) -> (result: String)
        ensures
            result@ == condition_key(self@),
    {
        let mut text = "(".to_owned();
        match self {
            Condition::Plain { feature, value } => {
                text.append(feature.as_str());
                text.append(": ");
                text.append(value.as_str());
            },
            Condition::Boolean { feature } => {
                text.append(feature.as_str());
            },
            Condition::Range { feature, op, value } => {
                text.append(feature.as_str());
                text.append(" ");
                text.append(op.symbol());
                text.append(" ");
                text.append(value.as_str());
            },
            Condition::DoubleRange { low, low_op, feature, high_op, high } => {
                text.append(low.as_str());
                text.append(" ");
                text.append(low_op.symbol());
                text.append(" ");
                text.append(feature.as_str());
                text.append(" ");
                text.append(high_op.symbol());
                text.append(" ");
                text.append(high.as_str());
            },
        }
        text.append(")");
        text
    }

    /// How the condition is written in a name.
    pub fn name_tokens(&self) -> (result: String)
        ensures
            result@ == condition_name(self@),
    {
        match self {
            Condition::Plain { feature, value } => {
                let mut text = feature.clone();
                text.append("-");
                text.append(sanitize_value(value.as_str()).as_str());
                text
            },
            Condition::Boolean { feature } => feature.clone(),
            Condition::Range { feature, op, value } => {
                let mut text = feature.clone();
                text.append("-");
                text.append(op.name());
                text.append("-");
                text.append(sanitize_value(value.as_str()).as_str());
                text
            },
            Condition::DoubleRange { low, low_op, feature, high_op, high } => {
                let mut text = feature.clone();
                text.append("-");
                text.append(low_op.flipped().name());
                text.append("-");
                text.append(sanitize_value(low.as_str()).as_str());
                text.append("-");
                text.append(high_op.name());
                text.append("-");
                text.append(sanitize_value(high.as_str()).as_str());
                text
            },
        }
    }
}

/// The modifier and media type of a branch.
pub open spec fn branch_head(branch: BranchModel) -> Seq<Seq<char>> {
    let modifier = match branch.modifier {
        Some(modifier) => seq![modifier.text()],
        None => seq![],
    };
    match branch.media_type {
        Some(media_type) => modifier.push(media_type),
        None => modifier,
    }
}

/// The parts of a branch's key up to its first `n` conditions.
pub open spec fn key_parts(branch: BranchModel, n: int) -> Seq<Seq<char>>
    decreases n,
{
    if n <= 0 {
        branch_head(branch)
    } else {
        let before = key_parts(branch, n - 1);
        let joined = if n > 1 || branch.media_type is Some {
            before.push("and"@)
        } else {
            before
        };
        joined.push(condition_key(branch.conditions[n - 1]))
    }
}

/// The parts of a branch's name up to its first `n` conditions.
pub open spec fn name_parts(branch: BranchModel, n: int) -> Seq<Seq<char>>
    decreases n,
{
    if n <= 0 {
        branch_head(branch)
    } else {
        let before = name_parts(branch, n - 1);
        let joined = if n > 1 {
            before.push("and"@)
        } else {
            before
        };
        joined.push(condition_name(branch.conditions[n - 1]))
    }
}

/// How the branch is written in a key.
pub open spec fn branch_key(branch: BranchModel) -> Seq<char> {
    joined(key_parts(branch, branch.conditions.len() as int), " "@)
}

/// How the branch is written in a name.
pub open spec fn branch_name(branch: BranchModel) -> Seq<char> {
    joined(name_parts(branch, branch.conditions.len() as int), "-"@)
}

fn push_text(list: &mut Vec<String>, text: String)
    ensures
        texts(final(list)@) == texts(old(list)@).push(text@),
{
    let ghost before = list@;
    let ghost model = text@;
    list.push(text);
    assert(texts(list@) =~= texts(before).push(model));
}

impl Branch {
    fn head(&self) -> (result: Vec<String>)
        ensures
            texts(result@) == branch_head(self@),
    {
        let mut parts: Vec<String> = Vec::new();
        if let Some(modifier) = self.modifier {
            parts.push(modifier.keyword().to_owned());
        }
        if let Some(media_type) = &self.media_type {
            parts.push(media_type.clone());
        }
        assert(texts(parts@) =~= branch_head(self@));
        parts
    }

    /// How the branch is written in a key.
    pub fn render(&self) -> (result: String)
        ensures
            result@ == branch_key(self@),
    {
        let mut parts = self.head();
        let mut i: usize = 0;
        while i < self.conditions.len()
            invariant
                i <= self.conditions@.len(),
                texts(parts@) == key_parts(self@, i as int),
            decreases self.conditions.len() - i,
        {
            assert(self@.conditions[i as int] == self.conditions@[i as int]@);
            if i > 0 || self.media_type.is_some() {
                push_text(&mut parts, "and".to_owned());
            }
            push_text(&mut parts, self.conditions[i].render());
            i += 1;
        }
        assert(self@.conditions.len() == self.conditions@.len());
        join(&parts, " ")
    }

    /// How the branch is written in a name.
    pub fn name_tokens(&self) -> (result: String)
        ensures
            result@ == branch_name(self@),
    {
        let mut parts = self.head();
        let mut i: usize = 0;
        while i < self.conditions.len()
            invariant
                i <= self.conditions@.len(),
                texts(parts@) == name_parts(self@, i as int),
            decreases self.conditions.len() - i,
        {
            assert(self@.conditions[i as int] == self.conditions@[i as int]@);
            if i > 0 {
                push_text(&mut parts, "and".to_owned());
            }
            push_text(&mut parts, self.conditions[i].name_tokens());
            i += 1;
        }
        assert(self@.conditions.len() == self.conditions@.len());
        join(&parts, "-")
    }
}

/// A part of a branch.
pub enum Token {
    Word(String),
    /// The content between one balanced pair of top-level parentheses.
    Group(String),
}

/// The model of a [`Token`].
pub enum TokenModel {
    Word(Seq<char>),
    Group(Seq<char>),
}

impl View for Token {
    type V = TokenModel;

    open spec fn view(&self) -> TokenModel {
        match self {
            Token::Word(text) => TokenModel::Word(text@),
            Token::Group(text) => TokenModel::Group(text@),
        }
    }
}

/// Behind the parenthesis that closes the `depth` groups open at `i`.
pub open spec fn group_end(text: Seq<char>, i: int, depth: int) -> Option<int>
    decreases text.len() - i,
{
    if depth <= 0 {
        Some(i)
    } else if i < 0 || i >= text.len() {
        None
    } else if text[i] == '(' {
        group_end(text, i + 1, depth + 1)
    } else if text[i] == ')' {
        group_end(text, i + 1, depth - 1)
    } else {
        group_end(text, i + 1, depth)
    }
}

/// The character belongs to a word.
pub open spec fn in_word(c: char) -> bool {
    !ascii_whitespace(c) && c != '(' && c != ')'
}

/// Where the word at `i` ends.
pub open spec fn word_end(text: Seq<char>, i: int) -> int
    decreases text.len() - i,
{
    if i < 0 || i >= text.len() || !in_word(text[i]) {
        i
    } else {
        word_end(text, i + 1)
    }
}

/// `first` in front of the tokens behind it.
pub open spec fn in_front(first: TokenModel, rest: Option<Seq<TokenModel>>) -> Option<Seq<TokenModel>> {
    match rest {
        Some(rest) => Some(seq![first] + rest),
        None => None,
    }
}

/// The tokens from `i` on. A word running straight into `(` is a CSS function
/// token, as in `not(color)`; splitting it into a keyword and a condition
/// would turn an always-false general-enclosed query into a live condition.
pub open spec fn tokens_from(text: Seq<char>, i: int) -> Option<Seq<TokenModel>>
    decreases text.len() - i,
{
    if i < 0 || i >= text.len() {
        Some(seq![])
    } else if ascii_whitespace(text[i]) {
        tokens_from(text, i + 1)
    } else if text[i] == '(' {
        match group_end(text, i + 1, 1) {
            Some(end) => if i < end <= text.len() {
                in_front(TokenModel::Group(text.subrange(i + 1, end - 1)), tokens_from(text, end))
            } else {
                None
            },
            None => None,
        }
    } else if text[i] == ')' {
        None
    } else {
        let end = word_end(text, i);
        if end <= i || end > text.len() || (end < text.len() && text[end] == '(') {
            None
        } else {
            in_front(TokenModel::Word(text.subrange(i, end)), tokens_from(text, end))
        }
    }
}

fn find_group_end(text: &Vec<char>, start: usize) -> (result: Option<usize>)
    requires
        1 <= start <= text@.len(),
    ensures
        match result {
            Some(end) => group_end(text@, start as int, 1) == Some(end as int) && start < end <= text@.len(),
            None => group_end(text@, start as int, 1) is None,
        },
{
    let mut depth: usize = 1;
    let mut i: usize = start;
    while i < text.len() && depth > 0
        invariant
            1 <= start <= i <= text@.len(),
            depth <= i - start + 1,
            depth == 0 ==> start < i,
            group_end(text@, i as int, depth as int) == group_end(text@, start as int, 1),
        decreases text.len() - i,
    {
        if text[i] == '(' {
            depth += 1;
        } else if text[i] == ')' {
            depth -= 1;
        }
        i += 1;
    }
    if depth == 0 {
        Some(i)
    } else {
        None
    }
}

fn find_word_end(text: &Vec<char>, start: usize) -> (result: usize)
    requires
        start <= text@.len(),
    ensures
        result == word_end(text@, start as int),
        start <= result <= text@.len(),
        start < text@.len() && in_word(text@[start as int]) ==> start < result,
{
    let mut i: usize = start;
    while i < text.len() && !is_separator(Separator::AsciiWhitespace, text[i]) && text[i] != '(' && text[i] != ')'
        invariant
            start <= i <= text@.len(),
            word_end(text@, i as int) == word_end(text@, start as int),
        decreases text.len() - i,
    {
        i += 1;
    }
    i
}

/// The tokens of a branch.
pub fn tokenize(branch: &str) -> (result: Option<Vec<Token>>)
    ensures
        match result {
            Some(tokens) => tokens_from(branch@, 0) == Some(views(tokens@)),
            None => tokens_from(branch@, 0) is None,
        },
{
    let text = to_chars(branch);
    let mut tokens: Vec<Token> = Vec::new();
    let mut i: usize = 0;
    proof {
        assert(views(tokens@) =~= Seq::<TokenModel>::empty());
        if let Some(rest) = tokens_from(branch@, 0) {
            assert(views(tokens@) + rest =~= rest);
        }
    }
    while i < text.len()
        invariant
            text@ == branch@,
            i <= text@.len(),
            match tokens_from(branch@, i as int) {
                Some(rest) => tokens_from(branch@, 0) == Some(views(tokens@) + rest),
                None => tokens_from(branch@, 0) is None,
            },
        decreases text.len() - i,
    {
        let c = text[i];
        let ghost before = views(tokens@);
        if is_separator(Separator::AsciiWhitespace, c) {
            i += 1;
        } else if c == '(' {
            match find_group_end(&text, i + 1) {
                Some(end) => {
                    let content = from_chars(&text, i + 1, end - 1);
                    let ghost token = TokenModel::Group(content@);
                    tokens.push(Token::Group(content));
                    i = end;
                    proof {
                        assert(views(tokens@) =~= before.push(token));
                        if let Some(rest) = tokens_from(branch@, i as int) {
                            assert(views(tokens@) + rest =~= before + (seq![token] + rest));
                        }
                    }
                },
                None => {
                    return None;
                },
            }
        } else if c == ')' {
            return None;
        } else {
            let end = find_word_end(&text, i);
            if end < text.len() && text[end] == '(' {
                return None;
            }
            let word = from_chars(&text, i, end);
            let ghost token = TokenModel::Word(word@);
            tokens.push(Token::Word(word));
            i = end;
            proof {
                assert(views(tokens@) =~= before.push(token));
                if let Some(rest) = tokens_from(branch@, i as int) {
                    assert(views(tokens@) + rest =~= before + (seq![token] + rest));
                }
            }
        }
    }
    assert(views(tokens@) + Seq::<TokenModel>::empty() =~= views(tokens@));
    Some(tokens)
}

/// The parts of `text` between top-level separators, the first of them begun
/// at `start`; nothing where the parentheses are unbalanced.
pub open spec fn parts_from(text: Seq<char>, separator: char, start: int, i: int, depth: int) -> Option<Seq<Seq<char>>>
    decreases text.len() - i,
{
    if i < 0 || i >= text.len() {
        if depth == 0 {
            Some(seq![text.subrange(start, text.len() as int)])
        } else {
            None
        }
    } else if text[i] == '(' {
        parts_from(text, separator, start, i + 1, depth + 1)
    } else if text[i] == ')' {
        if depth <= 0 {
            None
        } else {
            parts_from(text, separator, start, i + 1, depth - 1)
        }
    } else if text[i] == separator && depth == 0 {
        match parts_from(text, separator, i + 1, i + 1, 0) {
            Some(rest) => Some(seq![text.subrange(start, i)] + rest),
            None => None,
        }
    } else {
        parts_from(text, separator, start, i + 1, depth)
    }
}

/// `text` split at its top-level separators; nothing where the parentheses
/// are unbalanced.
pub fn split_top_level(text: &str, separator: char) -> (result: Option<Vec<String>>)
    ensures
        match result {
            Some(parts) => parts_from(text@, separator, 0, 0, 0) == Some(texts(parts@)),
            None => parts_from(text@, separator, 0, 0, 0) is None,
        },
{
    let chars = to_chars(text);
    let mut parts: Vec<String> = Vec::new();
    let mut depth: usize = 0;
    let mut start: usize = 0;
    let mut i: usize = 0;
    proof {
        assert(texts(parts@) =~= Seq::<Seq<char>>::empty());
        if let Some(rest) = parts_from(text@, separator, 0, 0, 0) {
            assert(texts(parts@) + rest =~= rest);
        }
    }
    while i < chars.len()
        invariant
            chars@ == text@,
            start <= i <= chars@.len(),
            depth <= i,
            match parts_from(text@, separator, start as int, i as int, depth as int) {
                Some(rest) => parts_from(text@, separator, 0, 0, 0) == Some(texts(parts@) + rest),
                None => parts_from(text@, separator, 0, 0, 0) is None,
            },
        decreases chars.len() - i,
    {
        let c = chars[i];
        if c == '(' {
            depth += 1;
        } else if c == ')' {
            if depth == 0 {
                return None;
            }
            depth -= 1;
        } else if c == separator && depth == 0 {
            let ghost before = texts(parts@);
            let part = from_chars(&chars, start, i);
            let ghost model = part@;
            push_text(&mut parts, part);
            start = i + 1;
            proof {
                if let Some(rest) = parts_from(text@, separator, start as int, i + 1, 0) {
                    assert(texts(parts@) + rest =~= before + (seq![model] + rest));
                }
            }
        }
        i += 1;
    }
    if depth != 0 {
        return None;
    }
    let ghost before = texts(parts@);
    let part = from_chars(&chars, start, i);
    let ghost model = part@;
    push_text(&mut parts, part);
    assert(texts(parts@) =~= before + seq![model]);
    Some(parts)
}

/// `text` cut at its first top-level separator at or behind `i`.
pub open spec fn once_from(text: Seq<char>, separator: char, i: int, depth: int) -> Option<(Seq<char>, Seq<char>)>
    decreases text.len() - i,
{
    if i < 0 || i >= text.len() {
        None
    } else if text[i] == '(' {
        once_from(text, separator, i + 1, depth + 1)
    } else if text[i] == ')' {
        if depth <= 0 {
            None
        } else {
            once_from(text, separator, i + 1, depth - 1)
        }
    } else if text[i] == separator && depth == 0 {
        Some((text.take(i), text.skip(i + 1)))
    } else {
        once_from(text, separator, i + 1, depth)
    }
}

/// `text` cut at its first top-level separator.
pub open spec fn split_once(text: Seq<char>, separator: char) -> Option<(Seq<char>, Seq<char>)> {
    once_from(text, separator, 0, 0)
}

/// The text cut at its first top-level separator.
pub fn split_top_level_once(text: &str, separator: char) -> (result: Option<(String, String)>)
    ensures
        match result {
            Some(parts) => split_once(text@, separator) == Some((parts.0@, parts.1@)),
            None => split_once(text@, separator) is None,
        },
{
    let chars = to_chars(text);
    let mut depth: usize = 0;
    let mut i: usize = 0;
    while i < chars.len()
        invariant
            chars@ == text@,
            i <= chars@.len(),
            depth <= i,
            once_from(text@, separator, i as int, depth as int) == split_once(text@, separator),
        decreases chars.len() - i,
    {
        let c = chars[i];
        if c == '(' {
            depth += 1;
        } else if c == ')' {
            if depth == 0 {
                return None;
            }
            depth -= 1;
        } else if c == separator && depth == 0 {
            let left = from_chars(&chars, 0, i);
            let right = from_chars(&chars, i + 1, chars.len());
            assert(left@ =~= text@.take(i as int));
            assert(right@ =~= text@.skip(i + 1));
            return Some((left, right));
        }
        i += 1;
    }
    None
}

/// The comparison that `text` at `i` begins, with where it ends. `==` is
/// none.
pub open spec fn operator_at(text: Seq<char>, i: int) -> Option<(Comparison, int)> {
    let wide = i + 1 < text.len() && text[i + 1] == '=';
    if text[i] == '<' {
        Some(if wide {
            (Comparison::Lte, i + 2)
        } else {
            (Comparison::Lt, i + 1)
        })
    } else if text[i] == '>' {
        Some(if wide {
            (Comparison::Gte, i + 2)
        } else {
            (Comparison::Gt, i + 1)
        })
    } else if wide {
        None
    } else {
        Some((Comparison::Eq, i + 1))
    }
}

/// Operands, each with the comparison behind it, and the trailing operand.
pub struct ChainModel {
    pub pairs: Seq<(Seq<char>, Comparison)>,
    pub trailing: Seq<char>,
}

/// The chain of comparisons from `i` on, its first operand begun at `start`.
pub open spec fn chain_from(text: Seq<char>, start: int, i: int, depth: int) -> Option<ChainModel>
    decreases text.len() - i,
{
    if i < 0 || i >= text.len() {
        Some(ChainModel { pairs: seq![], trailing: text.subrange(start, text.len() as int) })
    } else if text[i] == '(' {
        chain_from(text, start, i + 1, depth + 1)
    } else if text[i] == ')' {
        if depth <= 0 {
            None
        } else {
            chain_from(text, start, i + 1, depth - 1)
        }
    } else if (text[i] == '<' || text[i] == '>' || text[i] == '=') && depth == 0 {
        match operator_at(text, i) {
            Some(op) => match chain_from(text, op.1, op.1, 0) {
                Some(rest) => Some(
                    ChainModel { pairs: seq![(text.subrange(start, i), op.0)] + rest.pairs, trailing: rest.trailing },
                ),
                None => None,
            },
            None => None,
        }
    } else {
        chain_from(text, start, i + 1, depth)
    }
}

/// `a <= b < c` as operands and comparisons at depth zero; nothing for longer
/// chains.
pub open spec fn comparisons(text: Seq<char>) -> Option<ChainModel> {
    match chain_from(text, 0, 0, 0) {
        Some(chain) => if chain.pairs.len() > 2 {
            None
        } else {
            Some(chain)
        },
        None => None,
    }
}

/// Operands, each with the comparison behind it, and the trailing operand.
struct Chain {
    pairs: Vec<(String, Comparison)>,
    trailing: String,
}

spec fn pair_views(pairs: Seq<(String, Comparison)>) -> Seq<(Seq<char>, Comparison)> {
    pairs.map_values(|pair: (String, Comparison)| (pair.0@, pair.1))
}

impl View for Chain {
    type V = ChainModel;

    closed spec fn view(&self) -> ChainModel {
        ChainModel { pairs: pair_views(self.pairs@), trailing: self.trailing@ }
    }
}

fn read_operator(text: &Vec<char>, i: usize) -> (result: Option<(Comparison, usize)>)
    requires
        i < text@.len(),
    ensures
        match result {
            Some(op) => operator_at(text@, i as int) == Some((op.0, op.1 as int)) && i < op.1 <= text@.len(),
            None => operator_at(text@, i as int) is None,
        },
{
    let wide = text.len() - i > 1 && text[i + 1] == '=';
    if text[i] == '<' {
        if wide {
            Some((Comparison::Lte, i + 2))
        } else {
            Some((Comparison::Lt, i + 1))
        }
    } else if text[i] == '>' {
        if wide {
            Some((Comparison::Gte, i + 2))
        } else {
            Some((Comparison::Gt, i + 1))
        }
    } else if wide {
        None
    } else {
        Some((Comparison::Eq, i + 1))
    }
}

/// `a <= b < c` as operands and comparisons at depth zero.
fn split_comparisons(text: &str) -> (result: Option<Chain>)
    ensures
        match result {
            Some(chain) => comparisons(text@) == Some(chain@),
            None => comparisons(text@) is None,
        },
{
    let chars = to_chars(text);
    let mut pairs: Vec<(String, Comparison)> = Vec::new();
    let mut depth: usize = 0;
    let mut start: usize = 0;
    let mut i: usize = 0;
    let ghost whole = chain_from(text@, 0, 0, 0);
    proof {
        assert(pair_views(pairs@) =~= Seq::<(Seq<char>, Comparison)>::empty());
        if let Some(rest) = whole {
            assert(pair_views(pairs@) + rest.pairs =~= rest.pairs);
        }
    }
    while i < chars.len()
        invariant
            chars@ == text@,
            whole == chain_from(text@, 0, 0, 0),
            start <= i <= chars@.len(),
            depth <= i,
            match chain_from(text@, start as int, i as int, depth as int) {
                Some(rest) => whole == Some(
                    ChainModel { pairs: pair_views(pairs@) + rest.pairs, trailing: rest.trailing },
                ),
                None => whole is None,
            },
        decreases chars.len() - i,
    {
        let c = chars[i];
        if c == '(' {
            depth += 1;
            i += 1;
        } else if c == ')' {
            if depth == 0 {
                return None;
            }
            depth -= 1;
            i += 1;
        } else if (c == '<' || c == '>' || c == '=') && depth == 0 {
            match read_operator(&chars, i) {
                Some((op, end)) => {
                    let ghost before = pair_views(pairs@);
                    let operand = from_chars(&chars, start, i);
                    let ghost model = (operand@, op);
                    pairs.push((operand, op));
                    start = end;
                    i = end;
                    proof {
                        assert(pair_views(pairs@) =~= before.push(model));
                        if let Some(rest) = chain_from(text@, start as int, i as int, 0) {
                            assert(pair_views(pairs@) + rest.pairs =~= before + (seq![model] + rest.pairs));
                        }
                    }
                },
                None => {
                    return None;
                },
            }
        } else {
            i += 1;
        }
    }
    assert(pair_views(pairs@) + Seq::<(Seq<char>, Comparison)>::empty() =~= pair_views(pairs@));
    assert(pair_views(pairs@).len() == pairs@.len());
    if pairs.len() > 2 {
        return None;
    }
    let trailing = from_chars(&chars, start, i);
    Some(Chain { pairs, trailing })
}

pub open spec fn lowercase(c: char) -> bool {
    'a' <= c <= 'z'
}

/// The text is the name of a media feature. A single leading hyphen admits
/// vendor-prefixed names such as `-webkit-min-device-pixel-ratio`.
pub open spec fn feature_ident(text: Seq<char>) -> bool {
    match without_prefix(text, "-"@) {
        Some(name) => plain_ident(name),
        None => plain_ident(text),
    }
}

/// The text is a name without a vendor prefix.
pub open spec fn plain_ident(name: Seq<char>) -> bool {
    name.len() > 0 && lowercase(name[0]) && forall|i: int| 0 <= i < name.len() ==> #[trigger] ident_char(name[i])
}

/// The character may stand in the name of a media feature.
pub open spec fn ident_char(c: char) -> bool {
    lowercase(c) || '0' <= c <= '9' || c == '-'
}

/// Whether the text is the name of a media feature.
pub fn is_feature_ident(text: &str) -> (result: bool)
    ensures
        result == feature_ident(text@),
{
    match strip_prefix(text, "-") {
        Some(name) => is_plain_ident(name.as_str()),
        None => is_plain_ident(text),
    }
}

fn is_plain_ident(name: &str) -> (result: bool)
    ensures
        result == plain_ident(name@),
{
    let chars = to_chars(name);
    if chars.len() == 0 || !('a' <= chars[0] && chars[0] <= 'z') {
        return false;
    }
    let mut i: usize = 0;
    while i < chars.len()
        invariant
            chars@ == name@,
            i <= chars@.len(),
            forall|j: int| 0 <= j < i ==> #[trigger] ident_char(name@[j]),
        decreases chars.len() - i,
    {
        let c = chars[i];
        if !(('a' <= c && c <= 'z') || ('0' <= c && c <= '9') || c == '-') {
            assert(!ident_char(name@[i as int]));
            return false;
        }
        i += 1;
    }
    true
}

/// The number and unit of a dimension: a complete CSS number followed by an
/// alphabetic unit, which folds to lowercase because CSS units are
/// case-insensitive.
pub open spec fn dimension(value: Seq<char>) -> Option<(Seq<char>, Seq<char>)> {
    match number_end(value) {
        Some(end) => if 0 <= end < value.len() && alphabetic(value.skip(end)) {
            Some((value.take(end), ascii_lowered(value.skip(end))))
        } else {
            None
        },
        None => None,
    }
}

pub open spec fn ascii_letter(c: char) -> bool {
    'a' <= c <= 'z' || 'A' <= c <= 'Z'
}

/// Every character is an ASCII letter.
pub open spec fn alphabetic(text: Seq<char>) -> bool {
    forall|i: int| 0 <= i < text.len() ==> #[trigger] ascii_letter(text[i])
}

fn is_alphabetic(text: &str) -> (result: bool)
    ensures
        result == alphabetic(text@),
{
    let chars = to_chars(text);
    let mut i: usize = 0;
    while i < chars.len()
        invariant
            chars@ == text@,
            i <= chars@.len(),
            forall|j: int| 0 <= j < i ==> #[trigger] ascii_letter(text@[j]),
        decreases chars.len() - i,
    {
        let c = chars[i];
        if !(('a' <= c && c <= 'z') || ('A' <= c && c <= 'Z')) {
            assert(!ascii_letter(text@[i as int]));
            return false;
        }
        i += 1;
    }
    true
}

/// The number and unit of a dimension.
pub fn parse_css_dimension(value: &str) -> (result: Option<(String, String)>)
    ensures
        match result {
            Some(parts) => dimension(value@) == Some((parts.0@, parts.1@)),
            None => dimension(value@) is None,
        },
{
    let chars = to_chars(value);
    match scan_css_number(&chars) {
        Some(end) => {
            let unit = from_chars(&chars, end, chars.len());
            let number = from_chars(&chars, 0, end);
            assert(unit@ =~= value@.skip(end as int));
            assert(number@ =~= value@.take(end as int));
            if end < chars.len() && is_alphabetic(unit.as_str()) {
                Some((number, to_ascii_lowercase(unit.as_str())))
            } else {
                None
            }
        },
        None => None,
    }
}

/// The text is a CSS number with nothing following it.
pub open spec fn whole_number(text: Seq<char>) -> bool {
    number_end(text) == Some(text.len() as int)
}

fn is_whole_number(text: &str) -> (result: bool)
    ensures
        result == whole_number(text@),
{
    let chars = to_chars(text);
    match scan_css_number(&chars) {
        Some(end) => end == chars.len(),
        None => false,
    }
}

/// The one spelling of a finite number with nothing following it.
pub open spec fn shown_whole(numbers: NumbersModel, text: Seq<char>) -> Option<Seq<char>> {
    if whole_number(text) {
        shown(numbers, text)
    } else {
        None
    }
}

fn show_whole(numbers: &Numbers, text: &str) -> (result: Option<String>)
    ensures
        maybe(result) == shown_whole(numbers@, text@),
{
    if is_whole_number(text) {
        show_number(numbers, text)
    } else {
        None
    }
}

/// The canonical form of a `<number> / <number>` ratio value, where the text
/// is a plain finite ratio.
pub open spec fn ratio(numbers: NumbersModel, text: Seq<char>) -> Option<Seq<char>> {
    match split_once(text, '/') {
        Some(sides) => match (
            shown_whole(numbers, css_trimmed(sides.0)),
            shown_whole(numbers, css_trimmed(sides.1)),
        ) {
            (Some(left), Some(right)) => Some(left + "/"@ + right),
            _ => None,
        },
        None => None,
    }
}

/// The canonical form of a ratio value.
pub fn canonical_ratio(numbers: &Numbers, text: &str) -> (result: Option<String>)
    ensures
        maybe(result) == ratio(numbers@, text@),
{
    match split_top_level_once(text, '/') {
        Some((left, right)) => {
            let left = show_whole(numbers, trim_css_whitespace(left.as_str()).as_str());
            let right = show_whole(numbers, trim_css_whitespace(right.as_str()).as_str());
            match (left, right) {
                (Some(left), Some(right)) => {
                    let mut result = left;
                    result.append("/");
                    result.append(right.as_str());
                    Some(result)
                },
                _ => None,
            }
        },
        None => None,
    }
}

/// The character has no case to preserve: it belongs to a plain keyword, a
/// dimension or a ratio.
pub open spec fn caseless(c: char) -> bool {
    ascii_letter(c) || '0' <= c <= '9' || c == ' ' || c == '.' || c == '%' || c == '+' || c == '-' || c == '/'
}

/// Every character is caseless.
pub open spec fn all_caseless(text: Seq<char>) -> bool {
    forall|i: int| 0 <= i < text.len() ==> #[trigger] caseless(text[i])
}

fn is_all_caseless(text: &str) -> (result: bool)
    ensures
        result == all_caseless(text@),
{
    let chars = to_chars(text);
    let mut i: usize = 0;
    while i < chars.len()
        invariant
            chars@ == text@,
            i <= chars@.len(),
            forall|j: int| 0 <= j < i ==> #[trigger] caseless(text@[j]),
        decreases chars.len() - i,
    {
        let c = chars[i];
        if !(('a' <= c && c <= 'z') || ('A' <= c && c <= 'Z') || ('0' <= c && c <= '9') || c == ' ' || c == '.' || c
            == '%' || c == '+' || c == '-' || c == '/') {
            assert(!caseless(text@[i as int]));
            return false;
        }
        i += 1;
    }
    true
}

/// The spelling of a finite dimension, number or ratio.
pub open spec fn canonical(numbers: NumbersModel, text: Seq<char>) -> Option<Seq<char>> {
    let sized = match dimension(text) {
        Some(parts) => match shown(numbers, parts.0) {
            Some(number) => Some(number + parts.1),
            None => None,
        },
        None => None,
    };
    match (sized, shown_whole(numbers, text)) {
        (Some(sized), _) => Some(sized),
        (None, Some(number)) => Some(number),
        (None, None) => ratio(numbers, text),
    }
}

/// Collapses ASCII whitespace in a media-feature value and folds case only
/// when every code point is provably case-insensitive: plain keywords,
/// dimensions, and ratios. Values carrying functions or other tokens, such
/// as `env(MyInset)`, keep their authored case. Dimension values also
/// canonicalize provably equivalent spellings: `+52rem`, `052rem`, and
/// `5.2e1rem` all render as `52rem`, so one semantic condition receives one
/// key. No unit conversion is attempted, and a number that overflows, such as
/// `1e999px`, keeps its authored spelling.
pub open spec fn normalized(numbers: NumbersModel, value: Seq<char>) -> Seq<char> {
    let text = collapsed(value);
    match canonical(numbers, text) {
        Some(spelling) => spelling,
        None => if all_caseless(text) {
            ascii_lowered(text)
        } else {
            text
        },
    }
}

fn write_canonical(numbers: &Numbers, text: &str) -> (result: Option<String>)
    ensures
        maybe(result) == canonical(numbers@, text@),
{
    if let Some((number, unit)) = parse_css_dimension(text) {
        if let Some(number) = show_number(numbers, number.as_str()) {
            let mut result = number;
            result.append(unit.as_str());
            return Some(result);
        }
    }
    match show_whole(numbers, text) {
        Some(number) => Some(number),
        None => canonical_ratio(numbers, text),
    }
}

/// The one spelling of a media-feature value.
pub fn normalize_value(numbers: &Numbers, value: &str) -> (result: String)
    ensures
        result@ == normalized(numbers@, value@),
{
    let text = collapse_whitespace(value);
    match write_canonical(numbers, text.as_str()) {
        Some(spelling) => spelling,
        None => if is_all_caseless(text.as_str()) {
            to_ascii_lowercase(text.as_str())
        } else {
            text
        },
    }
}

/// The identifier that a text names, without whitespace and in lower case.
pub open spec fn ident_of(text: Seq<char>) -> Seq<char> {
    ascii_lowered(css_trimmed(text))
}

fn read_ident(text: &str) -> (result: String)
    ensures
        result@ == ident_of(text@),
{
    to_ascii_lowercase(trim_css_whitespace(text).as_str())
}

/// `(feature: value)`. The legacy width features are ranges.
pub open spec fn plain_condition(numbers: NumbersModel, feature: Seq<char>, value: Seq<char>) -> Option<
    ConditionModel,
> {
    let feature = ident_of(feature);
    let value = normalized(numbers, value);
    if !feature_ident(feature) || value.len() == 0 {
        None
    } else if feature == "min-width"@ {
        Some(ConditionModel::Range { feature: "width"@, op: Comparison::Gte, value })
    } else if feature == "max-width"@ {
        Some(ConditionModel::Range { feature: "width"@, op: Comparison::Lte, value })
    } else {
        Some(ConditionModel::Plain { feature, value })
    }
}

/// `(feature op value)` or `(value op feature)`.
pub open spec fn range_condition(
    numbers: NumbersModel,
    left: Seq<char>,
    op: Comparison,
    right: Seq<char>,
) -> Option<ConditionModel> {
    if feature_ident(ident_of(left)) && css_trimmed(right).len() > 0 {
        Some(ConditionModel::Range { feature: ident_of(left), op, value: normalized(numbers, right) })
    } else if feature_ident(ident_of(right)) && css_trimmed(left).len() > 0 {
        Some(
            ConditionModel::Range { feature: ident_of(right), op: op.mirrored(), value: normalized(numbers, left) },
        )
    } else {
        None
    }
}

/// `(low op feature op high)`. A descending chain such as
/// `(60rem > width >= 48rem)` is provably the ascending
/// `(48rem <= width < 60rem)`.
pub open spec fn double_condition(
    numbers: NumbersModel,
    low: Seq<char>,
    low_op: Comparison,
    feature: Seq<char>,
    high_op: Comparison,
    high: Seq<char>,
) -> Option<ConditionModel> {
    let feature = ident_of(feature);
    let low = normalized(numbers, low);
    let high = normalized(numbers, high);
    if !feature_ident(feature) || low.len() == 0 || high.len() == 0 {
        None
    } else if low_op.ascending() && high_op.ascending() {
        Some(ConditionModel::DoubleRange { low, low_op, feature, high_op, high })
    } else if low_op.descending() && high_op.descending() {
        Some(
            ConditionModel::DoubleRange {
                low: high,
                low_op: high_op.mirrored(),
                feature,
                high_op: low_op.mirrored(),
                high: low,
            },
        )
    } else {
        None
    }
}

/// The condition between one pair of parentheses. Custom-media references
/// depend on a definition the generated variant cannot carry, and nested
/// grouping is not representable.
pub open spec fn condition_of(numbers: NumbersModel, content: Seq<char>) -> Option<ConditionModel> {
    let text = collapsed(content);
    if text.len() == 0 || begins(text, "--"@) || begins(text, "("@) {
        None
    } else {
        match split_once(text, ':') {
            Some(sides) => plain_condition(numbers, sides.0, sides.1),
            None => match comparisons(text) {
                Some(chain) => if chain.pairs.len() == 0 {
                    if feature_ident(ident_of(chain.trailing)) {
                        Some(ConditionModel::Boolean { feature: ident_of(chain.trailing) })
                    } else {
                        None
                    }
                } else if chain.pairs.len() == 1 {
                    range_condition(numbers, chain.pairs[0].0, chain.pairs[0].1, chain.trailing)
                } else {
                    double_condition(
                        numbers,
                        chain.pairs[0].0,
                        chain.pairs[0].1,
                        chain.pairs[1].0,
                        chain.pairs[1].1,
                        chain.trailing,
                    )
                },
                None => None,
            },
        }
    }
}

fn read_plain(numbers: &Numbers, feature: &str, value: &str) -> (result: Option<Condition>)
    ensures
        maybe_view(result) == plain_condition(numbers@, feature@, value@),
{
    let feature = read_ident(feature);
    let value = normalize_value(numbers, value);
    if !is_feature_ident(feature.as_str()) || value.as_str().is_empty() {
        None
    } else if same(feature.as_str(), "min-width") {
        Some(Condition::Range { feature: "width".to_owned(), op: Comparison::Gte, value })
    } else if same(feature.as_str(), "max-width") {
        Some(Condition::Range { feature: "width".to_owned(), op: Comparison::Lte, value })
    } else {
        Some(Condition::Plain { feature, value })
    }
}

fn read_range(numbers: &Numbers, left: &str, op: Comparison, right: &str) -> (result: Option<Condition>)
    ensures
        maybe_view(result) == range_condition(numbers@, left@, op, right@),
{
    let left_ident = read_ident(left);
    let right_ident = read_ident(right);
    if is_feature_ident(left_ident.as_str()) && !trim_css_whitespace(right).as_str().is_empty() {
        Some(Condition::Range { feature: left_ident, op, value: normalize_value(numbers, right) })
    } else if is_feature_ident(right_ident.as_str()) && !trim_css_whitespace(left).as_str().is_empty() {
        Some(Condition::Range { feature: right_ident, op: op.flipped(), value: normalize_value(numbers, left) })
    } else {
        None
    }
}

fn read_double(
    numbers: &Numbers,
    low: &str,
    low_op: Comparison,
    feature: &str,
    high_op: Comparison,
    high: &str,
) -> (result: Option<Condition>)
    ensures
        maybe_view(result) == double_condition(numbers@, low@, low_op, feature@, high_op, high@),
{
    let feature = read_ident(feature);
    let low = normalize_value(numbers, low);
    let high = normalize_value(numbers, high);
    if !is_feature_ident(feature.as_str()) || low.as_str().is_empty() || high.as_str().is_empty() {
        return None;
    }
    if low_op.ascends() && high_op.ascends() {
        Some(Condition::DoubleRange { low, low_op, feature, high_op, high })
    } else if low_op.descends() && high_op.descends() {
        Some(
            Condition::DoubleRange {
                low: high,
                low_op: high_op.flipped(),
                feature,
                high_op: low_op.flipped(),
                high: low,
            },
        )
    } else {
        None
    }
}

/// The condition between one pair of parentheses.
pub fn parse_condition(numbers: &Numbers, content: &str) -> (result: Option<Condition>)
    ensures
        maybe_view(result) == condition_of(numbers@, content@),
{
    let text = collapse_whitespace(content);
    if text.as_str().is_empty() || starts_with(text.as_str(), "--") || starts_with(text.as_str(), "(") {
        return None;
    }
    if let Some((feature, value)) = split_top_level_once(text.as_str(), ':') {
        return read_plain(numbers, feature.as_str(), value.as_str());
    }
    let chain = match split_comparisons(text.as_str()) {
        Some(chain) => chain,
        None => {
            return None;
        },
    };
    assert(chain@.pairs.len() == chain.pairs@.len());
    if chain.pairs.len() == 0 {
        let feature = read_ident(chain.trailing.as_str());
        if is_feature_ident(feature.as_str()) {
            Some(Condition::Boolean { feature })
        } else {
            None
        }
    } else if chain.pairs.len() == 1 {
        assert(chain@.pairs[0] == (chain.pairs@[0].0@, chain.pairs@[0].1));
        read_range(numbers, chain.pairs[0].0.as_str(), chain.pairs[0].1, chain.trailing.as_str())
    } else {
        assert(chain@.pairs[0] == (chain.pairs@[0].0@, chain.pairs@[0].1));
        assert(chain@.pairs[1] == (chain.pairs@[1].0@, chain.pairs@[1].1));
        read_double(
            numbers,
            chain.pairs[0].0.as_str(),
            chain.pairs[0].1,
            chain.pairs[1].0.as_str(),
            chain.pairs[1].1,
            chain.trailing.as_str(),
        )
    }
}

/// The token is a word that equals `keyword` but for ASCII case.
pub open spec fn keyword_at(tokens: Seq<TokenModel>, i: int, keyword: Seq<char>) -> bool {
    0 <= i < tokens.len() && (tokens[i] matches TokenModel::Word(word) && ascii_lowered(word) == keyword)
}

/// The modifier of the branch.
pub open spec fn modifier_of(tokens: Seq<TokenModel>) -> Option<Modifier> {
    if keyword_at(tokens, 0, "not"@) {
        Some(Modifier::Not)
    } else if keyword_at(tokens, 0, "only"@) {
        Some(Modifier::Only)
    } else {
        None
    }
}

/// A word that cannot be a media type. A media type is any CSS identifier
/// except the reserved keywords; an unknown type such as `tv` is preserved
/// verbatim, keeping its authored match-nothing behavior.
pub open spec fn reserved(word: Seq<char>) -> bool {
    word == "not"@ || word == "and"@ || word == "only"@ || word == "or"@ || word == "layer"@
}

/// The conditions from the token `i` on, joined by `and`.
pub open spec fn conditions_from(numbers: NumbersModel, tokens: Seq<TokenModel>, i: int) -> Option<Seq<ConditionModel>>
    decreases tokens.len() - i,
{
    if i < 0 || i >= tokens.len() {
        Some(seq![])
    } else {
        match tokens[i] {
            TokenModel::Group(content) => match condition_of(numbers, content) {
                Some(condition) => if i + 1 == tokens.len() {
                    Some(seq![condition])
                } else if keyword_at(tokens, i + 1, "and"@) && i + 2 < tokens.len() {
                    match conditions_from(numbers, tokens, i + 2) {
                        Some(rest) => Some(seq![condition] + rest),
                        None => None,
                    }
                } else {
                    None
                },
                None => None,
            },
            TokenModel::Word(_) => None,
        }
    }
}

/// The branch's media type, if any, and where its conditions begin.
pub open spec fn type_of(tokens: Seq<TokenModel>, i: int) -> Option<(Option<Seq<char>>, int)> {
    if i < tokens.len() && tokens[i] is Word {
        let word = ascii_lowered(tokens[i]->Word_0);
        if reserved(word) || !feature_ident(word) {
            None
        } else if i + 1 == tokens.len() {
            Some((Some(word), i + 1))
        } else if keyword_at(tokens, i + 1, "and"@) && i + 2 < tokens.len() {
            Some((Some(word), i + 2))
        } else {
            None
        }
    } else {
        Some((None, i))
    }
}

/// The branch that the tokens make. `only` requires a media type, and
/// `not (a) and (b)` is ambiguous without grouping: only the single-condition
/// form is accepted.
pub open spec fn branch_from(numbers: NumbersModel, tokens: Seq<TokenModel>) -> Option<BranchModel> {
    let modifier = modifier_of(tokens);
    let start: int = if modifier is Some {
        1
    } else {
        0
    };
    match type_of(tokens, start) {
        None => None,
        Some(typed) => if typed.0 is None && modifier == Some(Modifier::Only) {
            None
        } else {
            match conditions_from(numbers, tokens, typed.1) {
                None => None,
                Some(conditions) => if typed.0 is None && conditions.len() == 0 {
                    None
                } else if modifier == Some(Modifier::Not) && typed.0 is None && conditions.len() != 1 {
                    None
                } else {
                    Some(BranchModel { modifier, media_type: typed.0, conditions })
                },
            }
        },
    }
}

/// The branch that `text` writes.
pub open spec fn branch_of(numbers: NumbersModel, text: Seq<char>) -> Option<BranchModel> {
    match tokens_from(text, 0) {
        Some(tokens) => branch_from(numbers, tokens),
        None => None,
    }
}

fn is_keyword_at(tokens: &Vec<Token>, i: usize, keyword: &str) -> (result: bool)
    ensures
        result == keyword_at(views(tokens@), i as int, keyword@),
{
    assert(views(tokens@).len() == tokens@.len());
    if i >= tokens.len() {
        return false;
    }
    assert(views(tokens@)[i as int] == tokens@[i as int]@);
    match &tokens[i] {
        Token::Word(word) => same(to_ascii_lowercase(word.as_str()).as_str(), keyword),
        Token::Group(_) => false,
    }
}

fn read_type(tokens: &Vec<Token>, i: usize) -> (result: Option<(Option<String>, usize)>)
    requires
        i <= tokens@.len(),
    ensures
        match result {
            Some(typed) => type_of(views(tokens@), i as int) == Some((maybe(typed.0), typed.1 as int)) && typed.1
                <= tokens@.len(),
            None => type_of(views(tokens@), i as int) is None,
        },
{
    assert(views(tokens@).len() == tokens@.len());
    if i < tokens.len() {
        assert(views(tokens@)[i as int] == tokens@[i as int]@);
        if let Token::Word(word) = &tokens[i] {
            let lowered = to_ascii_lowercase(word.as_str());
            if same(lowered.as_str(), "not") || same(lowered.as_str(), "and") || same(lowered.as_str(), "only") || same(
                lowered.as_str(),
                "or",
            ) || same(lowered.as_str(), "layer") || !is_feature_ident(lowered.as_str()) {
                return None;
            }
            if tokens.len() - i == 1 {
                return Some((Some(lowered), i + 1));
            }
            if is_keyword_at(tokens, i + 1, "and") && tokens.len() - i > 2 {
                return Some((Some(lowered), i + 2));
            }
            return None;
        }
    }
    Some((None, i))
}

fn read_conditions(numbers: &Numbers, tokens: &Vec<Token>, start: usize) -> (result: Option<Vec<Condition>>)
    requires
        start <= tokens@.len(),
    ensures
        match result {
            Some(conditions) => conditions_from(numbers@, views(tokens@), start as int) == Some(views(conditions@)),
            None => conditions_from(numbers@, views(tokens@), start as int) is None,
        },
{
    let ghost whole = conditions_from(numbers@, views(tokens@), start as int);
    let mut conditions: Vec<Condition> = Vec::new();
    let mut i: usize = start;
    proof {
        assert(views(conditions@) =~= Seq::<ConditionModel>::empty());
        if let Some(rest) = whole {
            assert(views(conditions@) + rest =~= rest);
        }
        assert(views(tokens@).len() == tokens@.len());
    }
    while i < tokens.len()
        invariant
            start <= i <= tokens@.len(),
            views(tokens@).len() == tokens@.len(),
            whole == conditions_from(numbers@, views(tokens@), start as int),
            match conditions_from(numbers@, views(tokens@), i as int) {
                Some(rest) => whole == Some(views(conditions@) + rest),
                None => whole is None,
            },
        decreases tokens.len() - i,
    {
        assert(views(tokens@)[i as int] == tokens@[i as int]@);
        let content = match &tokens[i] {
            Token::Group(content) => content,
            Token::Word(_) => {
                return None;
            },
        };
        let condition = match parse_condition(numbers, content.as_str()) {
            Some(condition) => condition,
            None => {
                return None;
            },
        };
        let ghost before = views(conditions@);
        let ghost model = condition@;
        let next: usize = if tokens.len() - i == 1 {
            i + 1
        } else if is_keyword_at(tokens, i + 1, "and") && tokens.len() - i > 2 {
            i + 2
        } else {
            return None;
        };
        conditions.push(condition);
        proof {
            assert(views(conditions@) =~= before.push(model));
            if let Some(rest) = conditions_from(numbers@, views(tokens@), next as int) {
                assert(views(conditions@) + rest =~= before + (seq![model] + rest));
            }
            assert(seq![model] + Seq::<ConditionModel>::empty() =~= seq![model]);
        }
        i = next;
    }
    assert(views(conditions@) + Seq::<ConditionModel>::empty() =~= views(conditions@));
    Some(conditions)
}

/// The branch that a text writes.
pub fn parse_branch(numbers: &Numbers, text: &str) -> (result: Option<Branch>)
    ensures
        maybe_view(result) == branch_of(numbers@, text@),
{
    let tokens = match tokenize(text) {
        Some(tokens) => tokens,
        None => {
            return None;
        },
    };
    assert(views(tokens@).len() == tokens@.len());
    let mut modifier: Option<Modifier> = None;
    let mut start: usize = 0;
    if is_keyword_at(&tokens, 0, "not") {
        modifier = Some(Modifier::Not);
        start = 1;
    } else if is_keyword_at(&tokens, 0, "only") {
        modifier = Some(Modifier::Only);
        start = 1;
    }
    let (media_type, next) = match read_type(&tokens, start) {
        Some(typed) => typed,
        None => {
            return None;
        },
    };
    let only = match modifier {
        Some(Modifier::Only) => true,
        _ => false,
    };
    let negated = match modifier {
        Some(Modifier::Not) => true,
        _ => false,
    };
    if media_type.is_none() && only {
        return None;
    }
    let conditions = match read_conditions(numbers, &tokens, next) {
        Some(conditions) => conditions,
        None => {
            return None;
        },
    };
    assert(views(conditions@).len() == conditions@.len());
    if media_type.is_none() && conditions.len() == 0 {
        return None;
    }
    if negated && media_type.is_none() && conditions.len() != 1 {
        return None;
    }
    Some(Branch { modifier, media_type, conditions })
}

/// The lower bound of a simple minimum-width query.
pub struct SimpleMinWidth {
    pub value: String,
    /// The one spelling of the number.
    pub number: String,
    pub unit: String,
}

/// The model of a [`SimpleMinWidth`].
pub struct WidthModel {
    pub value: Seq<char>,
    pub number: Seq<char>,
    pub unit: Seq<char>,
}

impl View for SimpleMinWidth {
    type V = WidthModel;

    open spec fn view(&self) -> WidthModel {
        WidthModel { value: self.value@, number: self.number@, unit: self.unit@ }
    }
}

/// The spelling is that of a number below zero.
pub open spec fn negative(number: Seq<char>) -> bool {
    begins(number, "-"@) && number != "-0"@
}

/// The lower bound where the whole branch is one simple minimum-width query:
/// no modifier, media type, upper bound or additional feature.
pub open spec fn simple_width(numbers: NumbersModel, branch: BranchModel) -> Option<WidthModel> {
    if branch.modifier is Some || branch.media_type is Some || branch.conditions.len() != 1 {
        None
    } else {
        match branch.conditions[0] {
            ConditionModel::Range { feature, op, value } => if op is Gte && feature == "width"@ {
                match dimension(value) {
                    Some(parts) => match shown(numbers, parts.0) {
                        Some(number) => if negative(number) {
                            None
                        } else {
                            Some(WidthModel { value, number, unit: parts.1 })
                        },
                        None => None,
                    },
                    None => None,
                }
            } else {
                None
            },
            _ => None,
        }
    }
}

impl Branch {
    /// The lower bound where the whole branch is one simple minimum-width
    /// query.
    pub fn simple_min_width(&self, numbers: &Numbers) -> (result: Option<SimpleMinWidth>)
        ensures
            maybe_view(result) == simple_width(numbers@, self@),
    {
        assert(self@.conditions.len() == self.conditions@.len());
        if self.modifier.is_some() || self.media_type.is_some() || self.conditions.len() != 1 {
            return None;
        }
        assert(self@.conditions[0] == self.conditions@[0]@);
        match &self.conditions[0] {
            Condition::Range { feature, op, value } => {
                let least = match op {
                    Comparison::Gte => true,
                    _ => false,
                };
                if !least || !same(feature.as_str(), "width") {
                    return None;
                }
                let (number, unit) = match parse_css_dimension(value.as_str()) {
                    Some(parts) => parts,
                    None => {
                        return None;
                    },
                };
                match show_number(numbers, number.as_str()) {
                    Some(number) => if starts_with(number.as_str(), "-") && !same(number.as_str(), "-0") {
                        None
                    } else {
                        Some(SimpleMinWidth { value: value.clone(), number, unit })
                    },
                    None => None,
                }
            },
            _ => None,
        }
    }
}

/// A parsed, normalized media condition.
pub struct MediaCondition {
    /// Canonical normalized condition used for deduplication and naming.
    pub key: String,
    /// The lower-bound value when the whole condition is one simple
    /// minimum-width query: `(min-width: 52rem)` or `(width >= 52rem)` with
    /// no modifier, media type, upper bound, list, or additional feature.
    pub simple_min_width: Option<SimpleMinWidth>,
    /// Preferred readable `@custom-variant` name derived from the condition.
    pub preferred_custom_name: String,
}

/// The model of a [`MediaCondition`].
pub struct MediaModel {
    pub key: Seq<char>,
    pub simple_min_width: Option<WidthModel>,
    pub preferred_custom_name: Seq<char>,
}

impl View for MediaCondition {
    type V = MediaModel;

    open spec fn view(&self) -> MediaModel {
        MediaModel {
            key: self.key@,
            simple_min_width: maybe_view(self.simple_min_width),
            preferred_custom_name: self.preferred_custom_name@,
        }
    }
}

/// A name that is a valid Tailwind variant identifier: one that would start
/// with something other than a lowercase letter gains a stable prefix.
pub open spec fn variant_name(name: Seq<char>) -> Seq<char> {
    let name = trimmed(name, Separator::Char('-'));
    if name.len() > 0 && lowercase(name[0]) {
        name
    } else {
        "mq-"@ + name
    }
}

/// A name that is a valid Tailwind variant identifier.
pub fn valid_variant_name(name: &str) -> (result: String)
    ensures
        result@ == variant_name(name@),
{
    let name = trim(name, Separator::Char('-'));
    let chars = to_chars(name.as_str());
    if chars.len() > 0 && 'a' <= chars[0] && chars[0] <= 'z' {
        name
    } else {
        let mut result = "mq-".to_owned();
        result.append(name.as_str());
        result
    }
}

/// The first `n` branches; nothing where one of them cannot be represented.
pub open spec fn branches_of(numbers: NumbersModel, parts: Seq<Seq<char>>, n: int) -> Option<Seq<BranchModel>>
    decreases n,
{
    if n <= 0 {
        Some(seq![])
    } else {
        match (branches_of(numbers, parts, n - 1), branch_of(numbers, parts[n - 1])) {
            (Some(before), Some(branch)) => Some(before.push(branch)),
            _ => None,
        }
    }
}

pub open spec fn branch_keys(branches: Seq<BranchModel>) -> Seq<Seq<char>> {
    branches.map_values(|branch: BranchModel| branch_key(branch))
}

pub open spec fn branch_names(branches: Seq<BranchModel>) -> Seq<Seq<char>> {
    branches.map_values(|branch: BranchModel| branch_name(branch))
}

/// The query holds something that a generated definition cannot carry.
pub open spec fn unsafe_query(query: Seq<char>) -> bool {
    query.contains('{') || query.contains('}') || query.contains(';') || query.contains('"') || query.contains('\'')
        || query.contains('\\') || query.contains('[') || query.contains(']') || holds(query, "/*"@)
}

/// The normalized condition of branches.
pub open spec fn media_of(numbers: NumbersModel, branches: Seq<BranchModel>) -> MediaModel {
    MediaModel {
        key: joined(branch_keys(branches), ", "@),
        simple_min_width: if branches.len() == 1 {
            simple_width(numbers, branches[0])
        } else {
            None
        },
        preferred_custom_name: variant_name(joined(branch_names(branches), "-or-"@)),
    }
}

/// The branches that the text after `@media` writes.
pub open spec fn query_branches(numbers: NumbersModel, query: Seq<char>) -> Option<Seq<BranchModel>> {
    let query = css_trimmed(query);
    if query.len() == 0 || unsafe_query(query) {
        None
    } else {
        match parts_from(query, ',', 0, 0, 0) {
            Some(parts) => branches_of(numbers, parts, parts.len() as int),
            None => None,
        }
    }
}

/// The normalized condition that the text after `@media` writes. There is
/// none when the condition cannot be represented safely: unknown syntax,
/// nested grouping, custom-media references, or characters that a generated
/// definition cannot carry.
pub open spec fn media_condition(numbers: NumbersModel, query: Seq<char>) -> Option<MediaModel> {
    match query_branches(numbers, query) {
        Some(branches) => Some(media_of(numbers, branches)),
        None => None,
    }
}

fn is_unsafe_query(query: &str) -> (result: bool)
    ensures
        result == unsafe_query(query@),
{
    has_char(query, '{') || has_char(query, '}') || has_char(query, ';') || has_char(query, '"') || has_char(
        query,
        '\'',
    ) || has_char(query, '\\') || has_char(query, '[') || has_char(query, ']') || contains(query, "/*")
}

proof fn lemma_branch_missing(numbers: NumbersModel, parts: Seq<Seq<char>>, n: int, m: int)
    requires
        branches_of(numbers, parts, n) is None,
        n <= m,
    ensures
        branches_of(numbers, parts, m) is None,
    decreases m - n,
{
    if n < m {
        lemma_branch_missing(numbers, parts, n, m - 1);
    }
}

/// Parses and normalizes a media query condition, the spellings of numbers
/// taken from `numbers`.
pub fn parse_media_condition_with(numbers: &Numbers, query: &str) -> (result: Option<MediaCondition>)
    ensures
        maybe_view(result) == media_condition(numbers@, query@),
{
    // Only ASCII whitespace is insignificant in CSS; other whitespace code
    // points are identifier content and must survive untouched.
    let text = trim_css_whitespace(query);
    if text.as_str().is_empty() || is_unsafe_query(text.as_str()) {
        return None;
    }
    let parts = match split_top_level(text.as_str(), ',') {
        Some(parts) => parts,
        None => {
            return None;
        },
    };
    let mut keys: Vec<String> = Vec::new();
    let mut names: Vec<String> = Vec::new();
    let mut simple: Option<SimpleMinWidth> = None;
    let ghost mut branches: Seq<BranchModel> = seq![];
    let mut i: usize = 0;
    assert(texts(parts@).len() == parts@.len());
    assert(texts(keys@) =~= branch_keys(branches));
    assert(texts(names@) =~= branch_names(branches));
    while i < parts.len()
        invariant
            i <= parts@.len(),
            text@ == css_trimmed(query@),
            text@.len() > 0,
            !unsafe_query(text@),
            parts_from(text@, ',', 0, 0, 0) == Some(texts(parts@)),
            texts(parts@).len() == parts@.len(),
            branches_of(numbers@, texts(parts@), i as int) == Some(branches),
            branches.len() == i,
            texts(keys@) == branch_keys(branches),
            texts(names@) == branch_names(branches),
            i == 1 ==> maybe_view(simple) == simple_width(numbers@, branches[0]),
        decreases parts.len() - i,
    {
        assert(texts(parts@)[i as int] == parts@[i as int]@);
        match parse_branch(numbers, parts[i].as_str()) {
            Some(branch) => {
                push_text(&mut keys, branch.render());
                push_text(&mut names, branch.name_tokens());
                simple = branch.simple_min_width(numbers);
                proof {
                    let before = branches;
                    branches = branches.push(branch@);
                    assert(branch_keys(branches) =~= branch_keys(before).push(branch_key(branch@)));
                    assert(branch_names(branches) =~= branch_names(before).push(branch_name(branch@)));
                }
            },
            None => {
                proof {
                    lemma_branch_missing(numbers@, texts(parts@), i + 1, parts@.len() as int);
                }
                return None;
            },
        }
        i += 1;
    }
    let simple_min_width = if parts.len() == 1 {
        simple
    } else {
        None
    };
    Some(
        MediaCondition {
            key: join(&keys, ", "),
            simple_min_width,
            preferred_custom_name: valid_variant_name(join(&names, "-or-").as_str()),
        },
    )
}

/// Parses and normalizes a media query condition (the text after `@media`).
pub fn parse_media_condition(query: &str) -> (result: Option<MediaCondition>)
    ensures
        maybe_view(result) == media_condition(NumbersModel::Computed, query@),
{
    parse_media_condition_with(&Numbers::Computed, query)
}

/// The generated theme-variable stem for a simple minimum-width value:
/// `52rem` becomes `min-52rem`, `47.5rem` becomes `min-47p5rem`. The full
/// theme variable is `--breakpoint-<stem>` and the variant is `<stem>:`.
pub fn breakpoint_name(value: &str) -> (result: String)
    ensures
        result@ == "min-"@ + sanitized(value@),
{
    let mut result = "min-".to_owned();
    result.append(sanitize_value(value).as_str());
    result
}

/// The longest generated name emitted without a digest suffix, in bytes.
pub const MAX_NAME_LENGTH: usize = 48;

/// One step of the hash: a byte is mixed in.
pub open spec fn mixed(hash: u64, byte: u8) -> u64 {
    (((hash ^ (byte as u64)) * 0x0000_0100_0000_01b3) % 0x1_0000_0000_0000_0000) as u64
}

/// The 64-bit FNV-1a hash of the first `n` bytes. It is stable across
/// platforms and runs; collision handling needs no more.
pub open spec fn fnv_hash(bytes: Seq<u8>, n: int) -> u64
    decreases n,
{
    if n <= 0 {
        0xcbf2_9ce4_8422_2325
    } else {
        mixed(fnv_hash(bytes, n - 1), bytes[n - 1])
    }
}

/// The hash of a text.
pub open spec fn text_hash(text: Seq<char>) -> u64 {
    fnv_hash(encode_utf8(text), encode_utf8(text).len() as int)
}

/// The hash of a text.
pub fn hash_text(text: &str) -> (result: u64)
    ensures
        result == text_hash(text@),
{
    let bytes = text.as_bytes();
    let mut hash: u64 = 0xcbf2_9ce4_8422_2325;
    let mut i: usize = 0;
    while i < bytes.len()
        invariant
            i <= bytes@.len(),
            hash == fnv_hash(bytes@, i as int),
        decreases bytes.len() - i,
    {
        let mixed_in: u64 = hash ^ (bytes[i] as u64);
        hash = mixed_in.wrapping_mul(0x0000_0100_0000_01b3);
        i += 1;
    }
    hash
}

/// The hexadecimal digit of a value below sixteen.
pub open spec fn hex_digit(value: int) -> char {
    if value < 10 {
        (('0' as int) + value) as char
    } else {
        (('a' as int) + (value - 10)) as char
    }
}

fn write_hex_digit(value: u8) -> (result: char)
    requires
        value < 16,
    ensures
        result == hex_digit(value as int),
{
    if value < 10 {
        (48 + value) as char
    } else {
        (87 + value) as char
    }
}

/// The last `n` hexadecimal digits of a value.
pub open spec fn hex(value: int, n: nat) -> Seq<char>
    decreases n,
{
    if n == 0 {
        seq![]
    } else {
        hex(value / 16, (n - 1) as nat).push(hex_digit(value % 16))
    }
}

/// The last `n` hexadecimal digits of a value.
pub fn write_hex(value: u64, n: usize) -> (result: String)
    ensures
        result@ == hex(value as int, n as nat),
    decreases n,
{
    if n == 0 {
        let empty = String::new();
        assert(empty@ =~= Seq::<char>::empty());
        empty
    } else {
        let mut result = write_hex(value / 16, n - 1);
        let digit: u8 = (value % 16) as u8;
        result.push(write_hex_digit(digit));
        result
    }
}

/// A short stable digest of a condition key: the low 32 bits of its hash.
pub open spec fn digest(key: Seq<char>) -> Seq<char> {
    hex(text_hash(key) as int, 8)
}

/// A short stable digest of a condition key, used for collision suffixes.
pub fn condition_digest(key: &str) -> (result: String)
    ensures
        result@ == digest(key@),
{
    write_hex(hash_text(key), 8)
}

proof fn lemma_hex_length(value: int, n: nat)
    ensures
        hex(value, n).len() == n,
        forall|i: int|
            0 <= i < n ==> ('0' <= #[trigger] hex(value, n)[i] <= '9' || 'a' <= hex(value, n)[i] <= 'f'),
    decreases n,
{
    if n > 0 {
        lemma_hex_length(value / 16, (n - 1) as nat);
        assert(0 <= value % 16 < 16);
    }
}

/// A digest has eight characters, each a lowercase hexadecimal digit.
pub proof fn digests_are_eight_hex_digits(key: Seq<char>)
    ensures
        digest(key).len() == 8,
        forall|i: int| 0 <= i < 8 ==> ('0' <= #[trigger] digest(key)[i] <= '9' || 'a' <= digest(key)[i] <= 'f'),
{
    lemma_hex_length(text_hash(key) as int, 8);
}

/// How many characters of `text`, counted on from `n`, fit into `limit`
/// bytes.
pub open spec fn fitting(text: Seq<char>, limit: int, n: int) -> int
    decreases text.len() - n,
{
    if n < 0 || n >= text.len() || encode_utf8(text.take(n + 1)).len() > limit {
        n
    } else {
        fitting(text, limit, n + 1)
    }
}

/// `text` without the hyphens at its end.
pub open spec fn without_hyphens(text: Seq<char>) -> Seq<char>
    decreases text.len(),
{
    if text.len() > 0 && text.last() == '-' {
        without_hyphens(text.drop_last())
    } else {
        text
    }
}

/// `name` with the digest suffix that a colliding or over-long name receives;
/// the readable prefix stays inside the length limit.
pub open spec fn suffixed(name: Seq<char>, key: Seq<char>) -> Seq<char> {
    without_hyphens(name.take(fitting(name, MAX_NAME_LENGTH - 9, 0))) + "-"@ + digest(key)
}

/// A preferred name within the length limit.
pub open spec fn limited(name: Seq<char>, key: Seq<char>) -> Seq<char> {
    if encode_utf8(name).len() <= MAX_NAME_LENGTH {
        name
    } else {
        suffixed(name, key)
    }
}

proof fn lemma_taken_bytes(text: Seq<char>, n: int)
    requires
        0 <= n < text.len(),
    ensures
        encode_utf8(text.take(n + 1)) == encode_utf8(text.take(n)) + encode_scalar(text[n] as u32),
{
    let last = seq![text[n]];
    assert(text.take(n + 1) =~= text.take(n) + last);
    lemma_bytes_concat(text.take(n), last);
    assert(last.drop_first() =~= Seq::<char>::empty());
    assert(encode_utf8(last.drop_first()) =~= Seq::<u8>::empty());
    assert(encode_utf8(last) =~= encode_scalar(text[n] as u32));
}

fn count_bytes(c: char) -> (result: usize)
    ensures
        result == encode_scalar(c as u32).len(),
        1 <= result <= 4,
{
    let code = c as u32;
    if code <= 0x7f {
        1
    } else if code <= 0x7ff {
        2
    } else if code <= 0xffff {
        3
    } else {
        4
    }
}

/// How many characters of a text fit into `limit` bytes.
fn count_fitting(text: &Vec<char>, limit: usize) -> (result: usize)
    requires
        limit <= MAX_NAME_LENGTH,
    ensures
        result == fitting(text@, limit as int, 0),
        result <= text@.len(),
{
    let mut n: usize = 0;
    let mut used: usize = 0;
    assert(text@.take(0) =~= Seq::<char>::empty());
    assert(encode_utf8(text@.take(0)) =~= Seq::<u8>::empty());
    while n < text.len()
        invariant
            n <= text@.len(),
            used == encode_utf8(text@.take(n as int)).len(),
            used <= limit <= MAX_NAME_LENGTH,
            fitting(text@, limit as int, n as int) == fitting(text@, limit as int, 0),
        decreases text.len() - n,
    {
        proof {
            lemma_taken_bytes(text@, n as int);
        }
        let next = used + count_bytes(text[n]);
        if next > limit {
            return n;
        }
        used = next;
        n += 1;
    }
    n
}

fn drop_hyphens(text: &Vec<char>, end: usize) -> (result: String)
    requires
        end <= text@.len(),
    ensures
        result@ == without_hyphens(text@.take(end as int)),
{
    let mut n: usize = end;
    while n > 0 && text[n - 1] == '-'
        invariant
            n <= end <= text@.len(),
            without_hyphens(text@.take(n as int)) == without_hyphens(text@.take(end as int)),
        decreases n,
    {
        assert(text@.take(n as int).drop_last() =~= text@.take(n - 1));
        n -= 1;
    }
    let result = from_chars(text, 0, n);
    assert(result@ =~= text@.take(n as int));
    result
}

/// The name with the digest suffix that a colliding or over-long name
/// receives.
pub fn digest_suffixed_name(name: &str, key: &str) -> (result: String)
    ensures
        result@ == suffixed(name@, key@),
{
    let chars = to_chars(name);
    let end = count_fitting(&chars, MAX_NAME_LENGTH - 9);
    let mut result = drop_hyphens(&chars, end);
    result.append("-");
    result.append(condition_digest(key).as_str());
    result
}

/// Enforces the length limit on a preferred name.
pub fn limit_name(name: &str, key: &str) -> (result: String)
    ensures
        result@ == limited(name@, key@),
{
    if name.as_bytes().len() <= MAX_NAME_LENGTH {
        return name.to_owned();
    }
    digest_suffixed_name(name, key)
}

proof fn lemma_fitting(text: Seq<char>, limit: int, n: int)
    requires
        0 <= n <= text.len(),
        encode_utf8(text.take(n)).len() <= limit,
    ensures
        n <= fitting(text, limit, n) <= text.len(),
        encode_utf8(text.take(fitting(text, limit, n))).len() <= limit,
    decreases text.len() - n,
{
    if n < text.len() && encode_utf8(text.take(n + 1)).len() <= limit {
        lemma_fitting(text, limit, n + 1);
    }
}

proof fn lemma_without_hyphens(text: Seq<char>)
    ensures
        encode_utf8(without_hyphens(text)).len() <= encode_utf8(text).len(),
    decreases text.len(),
{
    if text.len() > 0 && text.last() == '-' {
        lemma_without_hyphens(text.drop_last());
        lemma_taken_bytes(text, text.len() - 1);
        assert(text.take(text.len() - 1) =~= text.drop_last());
        assert(text.take(text.len() as int) =~= text);
    }
}

proof fn lemma_ascii_bytes(text: Seq<char>)
    requires
        forall|i: int| 0 <= i < text.len() ==> (#[trigger] text[i] as u32) <= 0x7f,
    ensures
        encode_utf8(text).len() == text.len(),
    decreases text.len(),
{
    if text.len() == 0 {
        assert(encode_utf8(text) =~= Seq::<u8>::empty());
    } else {
        lemma_taken_bytes(text, text.len() - 1);
        assert(text.take(text.len() - 1) =~= text.drop_last());
        assert(text.take(text.len() as int) =~= text);
        lemma_ascii_bytes(text.drop_last());
    }
}

/// No limited name is longer than the limit.
pub proof fn limited_names_stay_short(name: Seq<char>, key: Seq<char>)
    ensures
        encode_utf8(limited(name, key)).len() <= MAX_NAME_LENGTH,
{
    if encode_utf8(name).len() > MAX_NAME_LENGTH {
        let limit = MAX_NAME_LENGTH - 9;
        assert(name.take(0) =~= Seq::<char>::empty());
        assert(encode_utf8(name.take(0)) =~= Seq::<u8>::empty());
        lemma_fitting(name, limit, 0);
        let prefix = name.take(fitting(name, limit, 0));
        lemma_without_hyphens(prefix);
        let head = without_hyphens(prefix);
        reveal_strlit("-");
        digests_are_eight_hex_digits(key);
        lemma_ascii_bytes(digest(key));
        lemma_ascii_bytes("-"@);
        lemma_bytes_concat(head, "-"@);
        lemma_bytes_concat(head + "-"@, digest(key));
    }
}

} // verus!
