//! Source maps: decoding them, and finding the authored rule of a generated
//! one.
use crate::css::{
    collect_qualified_rule_spans, parse_css, read_css, rule_spans, Halt, HaltModel, Parse, ParseModel, RuleSpans,
    StylesheetSyntax,
};
use crate::errors::{ErrorKind, ErrorModel, MigrationError};
use crate::json::{json_quoted, quote_json};
use crate::position::{
    byte_offset, chars_before, line_column, line_column_to_offset, offset_to_line_column, positions_round_trip,
};
use crate::request::{MappingModel, SourceMapping};
use crate::rules::{RuleModel, RulePlan};
use crate::syntax::{get_items, items};
use crate::text::{contains, copy_cut, cut, decimal, holds, push_decimal, same, views};
use crate::tree::lemma_list_model;
use oxc_sourcemap::SourceMap;
use vstd::prelude::*;
use vstd::utf8::*;

verus! {

// ---------------------------------------------------------------------------
// Decoding
// ---------------------------------------------------------------------------

/// A token of a source map: generated line and column, original line and
/// column, and the source.
pub type Token = (u32, u32, u32, u32, Option<String>);

/// The model of a [`Token`].
pub type TokenModel = (u32, u32, u32, u32, Option<Seq<char>>);

pub open spec fn token_models(list: Seq<Token>) -> Seq<TokenModel> {
    list.map_values(|token: Token| (token.0, token.1, token.2, token.3, crate::text::maybe(token.4)))
}

pub open spec fn token_result(result: Result<Vec<Token>, String>) -> Result<Seq<TokenModel>, Seq<char>> {
    match result {
        Ok(list) => Ok(token_models(list@)),
        Err(error) => Err(error@),
    }
}

/// What [`read_source_map`] returns.
pub uninterp spec fn map_tokens(json: Seq<char>) -> Result<Seq<TokenModel>, Seq<char>>;

/// `oxc_sourcemap::SourceMap::from_json_string` and the tokens of
/// `SourceMap::get_tokens`, each with its `SourceMap::get_source`. The claim is
/// only that the tokens, or the error's text, depend on the text alone.
#[verifier::external_body]
fn read_source_map(json: &str) -> (result: Result<Vec<Token>, String>)
    ensures
        token_result(result) == map_tokens(json@),
{
    let map = SourceMap::from_json_string(json).map_err(|error| error.to_string())?;
    let source = |id| map.get_source(id).map(|path| path.to_owned());
    Ok(map.get_tokens().map(|token| (
        token.get_dst_line(),
        token.get_dst_col(),
        token.get_src_line(),
        token.get_src_col(),
        token.get_source_id().and_then(source),
    )).collect())
}

/// A token as JSON.
pub open spec fn token_json(token: TokenModel, source: Seq<char>) -> Seq<char> {
    "{\"generatedLine\":"@ + decimal(token.0 as nat) + ",\"generatedColumn\":"@ + decimal(token.1 as nat)
        + ",\"source\":"@ + json_quoted(source) + ",\"originalLine\":"@ + decimal(token.2 as nat)
        + ",\"originalColumn\":"@ + decimal(token.3 as nat) + "}"@
}

/// The first `n` tokens that have a source, as the items of a JSON list.
pub open spec fn tokens_json(tokens: Seq<TokenModel>, n: int) -> Seq<char>
    decreases n,
{
    if n <= 0 {
        seq![]
    } else {
        let before = tokens_json(tokens, n - 1);
        match tokens[n - 1].4 {
            Some(source) => before + if before.len() > 0 {
                ","@
            } else {
                ""@
            } + token_json(tokens[n - 1], source),
            None => before,
        }
    }
}

/// The mappings of a source map, as JSON.
pub open spec fn mappings_json(tokens: Result<Seq<TokenModel>, Seq<char>>) -> Result<Seq<char>, ErrorModel> {
    match tokens {
        Ok(tokens) => Ok("["@ + tokens_json(tokens, tokens.len() as int) + "]"@),
        Err(error) => Err(
            ErrorModel { kind: ErrorKind::SourceMap, message: "Failed to decode source map: "@ + error },
        ),
    }
}

fn push_token(text: &mut String, token: &Token, source: &str)
    ensures
        final(text)@ == old(text)@ + token_json(
            (token.0, token.1, token.2, token.3, crate::text::maybe(token.4)),
            source@,
        ),
{
    let ghost start = text@;
    text.append("{\"generatedLine\":");
    push_decimal(text, token.0 as u64);
    text.append(",\"generatedColumn\":");
    push_decimal(text, token.1 as u64);
    text.append(",\"source\":");
    text.append(quote_json(source).as_str());
    text.append(",\"originalLine\":");
    push_decimal(text, token.2 as u64);
    text.append(",\"originalColumn\":");
    push_decimal(text, token.3 as u64);
    text.append("}");
    assert(text@ =~= start + token_json(
        (token.0, token.1, token.2, token.3, crate::text::maybe(token.4)),
        source@,
    ));
}

/// Writes the mappings of a decoded source map as JSON: the tokens without a
/// source are left out.
pub fn render_mappings(tokens: Result<Vec<Token>, String>) -> (result: Result<String, MigrationError>)
    ensures
        match mappings_json(token_result(tokens)) {
            Ok(model) => result matches Ok(text) && text@ == model,
            Err(model) => result matches Err(error) && error@ == model,
        },
{
    let list = match tokens {
        Ok(list) => list,
        Err(error) => {
            let mut message = "Failed to decode source map: ".to_owned();
            message.append(error.as_str());
            return Err(MigrationError::new(ErrorKind::SourceMap, message));
        },
    };
    let ghost models = token_models(list@);
    let mut text = String::new();
    assert(text@ =~= Seq::empty());
    let mut n: usize = 0;
    while n < list.len()
        invariant
            n <= list@.len(),
            models == token_models(list@),
            text@ == tokens_json(models, n as int),
        decreases list.len() - n,
    {
        let token = &list[n];
        assert(models[n as int] == (token.0, token.1, token.2, token.3, crate::text::maybe(token.4)));
        if let Some(source) = &token.4 {
            let ghost before = text@;
            if !text.as_str().is_empty() {
                text.append(",");
            } else {
                assert(""@ =~= Seq::empty()) by {
                    reveal_strlit("");
                }
                assert(before + ""@ =~= before);
            }
            push_token(&mut text, token, source.as_str());
        }
        n += 1;
    }
    let mut json = "[".to_owned();
    json.append(text.as_str());
    json.append("]");
    Ok(json)
}

/// The mappings of a source map, as JSON.
pub fn decode_source_map(source_map: &str) -> (result: Result<String, MigrationError>)
    ensures
        match mappings_json(map_tokens(source_map@)) {
            Ok(model) => result matches Ok(text) && text@ == model,
            Err(model) => result matches Err(error) && error@ == model,
        },
{
    render_mappings(read_source_map(source_map))
}

// ---------------------------------------------------------------------------
// Positions
// ---------------------------------------------------------------------------

/// The line and column at a byte offset that lies on a character boundary.
pub open spec fn place_of(source: Seq<char>, offset: int) -> Option<(int, int)> {
    if offset <= encode_utf8(source).len() && is_char_boundary(encode_utf8(source), offset) {
        Some(line_column(source, chars_before(source, offset)))
    } else {
        None
    }
}

/// The byte offset of a line and column.
pub open spec fn offset_of(source: Seq<char>, place: (int, int)) -> Option<int> {
    if exists|n: int| 0 <= n <= source.len() && #[trigger] line_column(source, n) == place {
        Some(byte_offset(source, choose|n: int| 0 <= n <= source.len() && #[trigger] line_column(source, n) == place))
    } else {
        None
    }
}

fn find_offset(source: &str, line: usize, column: usize) -> (result: Option<usize>)
    ensures
        match offset_of(source@, (line as int, column as int)) {
            Some(model) => result matches Some(offset) && offset == model,
            None => result is None,
        },
{
    let result = line_column_to_offset(source, line, column);
    proof {
        if let Some(offset) = result {
            let place = (line as int, column as int);
            let a = choose|n: int|
                0 <= n <= source@.len() && #[trigger] line_column(source@, n) == place && offset == byte_offset(
                    source@,
                    n,
                );
            let b = choose|n: int| 0 <= n <= source@.len() && #[trigger] line_column(source@, n) == place;
            positions_round_trip(source@, a, b);
        }
    }
    result
}

/// The last mapping of a generated position among the first `n`.
pub open spec fn mapping_at(mappings: Seq<MappingModel>, place: (int, int), n: int) -> Option<MappingModel>
    decreases n,
{
    if n <= 0 {
        None
    } else if mappings[n - 1].generated.0 == place.0 && mappings[n - 1].generated.1 == place.1 {
        Some(mappings[n - 1])
    } else {
        mapping_at(mappings, place, n - 1)
    }
}

/// The authored offset of a generated one.
pub open spec fn authored_offset(
    authored: Seq<char>,
    path: Seq<char>,
    mappings: Seq<MappingModel>,
    analysis: Seq<char>,
    offset: int,
) -> Option<int> {
    match place_of(analysis, offset) {
        None => None,
        Some(place) => match mapping_at(mappings, place, mappings.len() as int) {
            None => None,
            Some(mapping) => if mapping.source_path != path {
                None
            } else {
                offset_of(authored, (mapping.original.0 as int, mapping.original.1 as int))
            },
        },
    }
}

fn find_mapping<'a>(mappings: &'a Vec<SourceMapping>, place: (usize, usize)) -> (result: Option<&'a SourceMapping>)
    ensures
        match mapping_at(views(mappings@), (place.0 as int, place.1 as int), mappings@.len() as int) {
            Some(model) => result matches Some(mapping) && mapping@ == model,
            None => result is None,
        },
{
    let ghost goal = (place.0 as int, place.1 as int);
    let mut n: usize = mappings.len();
    while n > 0
        invariant
            n <= mappings@.len(),
            goal == (place.0 as int, place.1 as int),
            mapping_at(views(mappings@), goal, n as int) == mapping_at(
                views(mappings@),
                goal,
                mappings@.len() as int,
            ),
        decreases n,
    {
        let mapping = &mappings[n - 1];
        assert(views(mappings@)[n - 1] == mapping@);
        if mapping.generated_line == place.0 && mapping.generated_column == place.1 {
            return Some(mapping);
        }
        n -= 1;
    }
    None
}

fn find_authored_offset(
    authored: &str,
    path: &str,
    mappings: &Vec<SourceMapping>,
    analysis: &str,
    offset: usize,
) -> (result: Option<usize>)
    ensures
        match authored_offset(authored@, path@, views(mappings@), analysis@, offset as int) {
            Some(model) => result matches Some(found) && found == model,
            None => result is None,
        },
{
    match offset_to_line_column(analysis, offset) {
        None => None,
        Some(place) => match find_mapping(mappings, place) {
            None => None,
            Some(mapping) => if !same(mapping.source_path.as_str(), path) {
                None
            } else {
                find_offset(authored, mapping.original_line, mapping.original_column)
            },
        },
    }
}

/// The authored offsets of the generated ones from `i` on; there are none
/// where one is unknown.
pub open spec fn authored_offsets(
    authored: Seq<char>,
    path: Seq<char>,
    mappings: Seq<MappingModel>,
    analysis: Seq<char>,
    offsets: Seq<usize>,
    n: int,
) -> Option<Seq<int>>
    decreases n,
{
    if n <= 0 {
        Some(seq![])
    } else {
        match (
            authored_offsets(authored, path, mappings, analysis, offsets, n - 1),
            authored_offset(authored, path, mappings, analysis, offsets[n - 1] as int),
        ) {
            (Some(before), Some(offset)) => Some(before.push(offset)),
            _ => None,
        }
    }
}

pub open spec fn ints(list: Seq<usize>) -> Seq<int> {
    list.map_values(|value: usize| value as int)
}

proof fn lemma_offsets_missing(
    authored: Seq<char>,
    path: Seq<char>,
    mappings: Seq<MappingModel>,
    analysis: Seq<char>,
    offsets: Seq<usize>,
    k: int,
    n: int,
)
    requires
        0 <= k <= n,
        authored_offsets(authored, path, mappings, analysis, offsets, k) is None,
    ensures
        authored_offsets(authored, path, mappings, analysis, offsets, n) is None,
    decreases n - k,
{
    if k < n {
        lemma_offsets_missing(authored, path, mappings, analysis, offsets, k, n - 1);
    }
}

fn find_authored_offsets(
    authored: &str,
    path: &str,
    mappings: &Vec<SourceMapping>,
    analysis: &str,
    offsets: &Vec<usize>,
) -> (result: Option<Vec<usize>>)
    ensures
        match authored_offsets(authored@, path@, views(mappings@), analysis@, offsets@, offsets@.len() as int) {
            Some(model) => result matches Some(list) && ints(list@) == model,
            None => result is None,
        },
{
    let mut found: Vec<usize> = Vec::new();
    assert(ints(found@) =~= Seq::empty());
    let mut n: usize = 0;
    while n < offsets.len()
        invariant
            n <= offsets@.len(),
            authored_offsets(authored@, path@, views(mappings@), analysis@, offsets@, n as int) == Some(ints(found@)),
        decreases offsets.len() - n,
    {
        match find_authored_offset(authored, path, mappings, analysis, offsets[n]) {
            None => {
                proof {
                    lemma_offsets_missing(
                        authored@,
                        path@,
                        views(mappings@),
                        analysis@,
                        offsets@,
                        n + 1,
                        offsets@.len() as int,
                    );
                }
                return None;
            },
            Some(offset) => {
                let ghost before = found@;
                found.push(offset);
                assert(ints(found@) =~= ints(before).push(offset as int));
            },
        }
        n += 1;
    }
    Some(found)
}

// ---------------------------------------------------------------------------
// Authored rules
// ---------------------------------------------------------------------------

/// Every offset lies inside the span.
pub open spec fn spans_all(span: (usize, usize), offsets: Seq<int>) -> bool {
    forall|i: int| 0 <= i < offsets.len() ==> span.0 <= #[trigger] offsets[i] < span.1
}

/// The shortest rule among the first `n` that every offset lies in; the first
/// of equally short ones.
pub open spec fn shortest(rules: Seq<RuleSpans>, offsets: Seq<int>, n: int) -> Option<(usize, usize)>
    decreases n,
{
    if n <= 0 {
        None
    } else {
        let before = shortest(rules, offsets, n - 1);
        let span = rules[n - 1].0;
        if !spans_all(span, offsets) {
            before
        } else {
            match before {
                Some(best) => if span.1 - span.0 < best.1 - best.0 {
                    Some(span)
                } else {
                    before
                },
                None => Some(span),
            }
        }
    }
}

fn do_span_all(span: (usize, usize), offsets: &Vec<usize>) -> (result: bool)
    ensures
        result == spans_all(span, ints(offsets@)),
{
    let mut i: usize = 0;
    while i < offsets.len()
        invariant
            i <= offsets@.len(),
            forall|j: int| 0 <= j < i ==> span.0 <= #[trigger] ints(offsets@)[j] < span.1,
        decreases offsets.len() - i,
    {
        assert(ints(offsets@)[i as int] == offsets@[i as int]);
        if offsets[i] < span.0 || offsets[i] >= span.1 {
            return false;
        }
        i += 1;
    }
    true
}

fn find_shortest(rules: &Vec<RuleSpans>, offsets: &Vec<usize>) -> (result: Option<(usize, usize)>)
    requires
        offsets@.len() > 0,
    ensures
        result == shortest(rules@, ints(offsets@), rules@.len() as int),
{
    let ghost list = ints(offsets@);
    let mut best: Option<(usize, usize)> = None;
    let mut n: usize = 0;
    while n < rules.len()
        invariant
            n <= rules@.len(),
            list == ints(offsets@),
            list.len() > 0,
            best == shortest(rules@, list, n as int),
            best matches Some(span) ==> span.0 < span.1,
        decreases rules.len() - n,
    {
        let span = rules[n].0;
        if do_span_all(span, offsets) {
            assert(span.0 <= list[0] < span.1);
            match best {
                Some(known) => {
                    if span.1 - span.0 < known.1 - known.0 {
                        best = Some(span);
                    }
                },
                None => {
                    best = Some(span);
                },
            }
        }
        n += 1;
    }
    best
}

/// A span behind `base` bytes; there is none past the range of offsets.
pub open spec fn based(base: int, span: (usize, usize)) -> Option<(usize, usize)> {
    if base + span.0 <= usize::MAX && base + span.1 <= usize::MAX {
        Some(((base + span.0) as usize, (base + span.1) as usize))
    } else {
        None
    }
}

fn add_base(base: usize, span: (usize, usize)) -> (result: Option<(usize, usize)>)
    ensures
        result == based(base as int, span),
{
    match (base.checked_add(span.0), base.checked_add(span.1)) {
        (Some(start), Some(end)) => Some((start, end)),
        _ => None,
    }
}

/// What the authored rules are looked up in.
pub struct AuthoredModel {
    pub source: Seq<char>,
    pub path: Seq<char>,
    pub mappings: Seq<MappingModel>,
    pub analysis: Seq<char>,
    pub rules: Seq<RuleSpans>,
    pub base: int,
}

/// A rule with the authored span that its offsets point at.
pub open spec fn located(at: AuthoredModel, rule: RuleModel) -> RuleModel {
    let offsets = rule.provenance_offsets;
    match authored_offsets(at.source, at.path, at.mappings, at.analysis, offsets, offsets.len() as int) {
        Some(found) => if found.len() == 0 {
            rule
        } else {
            RuleModel {
                authored_span: match shortest(at.rules, found, at.rules.len() as int) {
                    Some(span) => based(at.base, span),
                    None => None,
                },
                ..rule
            }
        },
        None => rule,
    }
}

/// Two authored spans that share bytes, or are the same.
pub open spec fn collide(a: Option<(usize, usize)>, b: Option<(usize, usize)>) -> bool {
    a is Some && b is Some && (a == b || ((a->0).0 < (b->0).1 && (b->0).0 < (a->0).1))
}

/// The rule's authored span collides with that of another rule.
pub open spec fn ambiguous(rules: Seq<RuleModel>, i: int) -> bool {
    exists|j: int| 0 <= j < rules.len() && j != i && collide(rules[i].authored_span, (#[trigger] rules[j]).authored_span)
}

/// A rule without its authored span.
pub open spec fn unlocated(rule: RuleModel) -> RuleModel {
    RuleModel { authored_span: None, ..rule }
}

/// The rules without the authored spans that collide.
pub open spec fn unambiguous(rules: Seq<RuleModel>) -> Seq<RuleModel> {
    Seq::new(
        rules.len(),
        |i: int| if ambiguous(rules, i) {
            unlocated(rules[i])
        } else {
            rules[i]
        },
    )
}

/// What starts an interpolation in a selector.
pub open spec fn interpolation(syntax: StylesheetSyntax) -> Option<Seq<char>> {
    match syntax {
        StylesheetSyntax::Scss => Some("#{"@),
        StylesheetSyntax::Sass => Some("#{"@),
        StylesheetSyntax::Less => Some("@{"@),
        StylesheetSyntax::Css => None,
    }
}

/// The selector in the authored text holds an interpolation.
pub open spec fn interpolated_selector(source: Seq<char>, rule: RuleSpans, mark: Seq<char>) -> bool {
    match cut(source, (rule.1).0 as int, (rule.1).1 as int) {
        Some(selector) => holds(selector, mark),
        None => false,
    }
}

/// The rule's authored span is that of a rule with an interpolated selector.
pub open spec fn interpolated(at: AuthoredModel, mark: Seq<char>, rule: RuleModel) -> bool {
    rule.authored_span is Some && exists|i: int|
        0 <= i < at.rules.len() && based(at.base, (#[trigger] at.rules[i]).0) == rule.authored_span
            && interpolated_selector(at.source, at.rules[i], mark)
}

/// A rule without the authored span of a rule with an interpolated selector.
pub open spec fn plain_only(at: AuthoredModel, syntax: StylesheetSyntax, rule: RuleModel) -> RuleModel {
    match interpolation(syntax) {
        Some(mark) => if interpolated(at, mark, rule) {
            unlocated(rule)
        } else {
            rule
        },
        None => rule,
    }
}

/// The rules with their authored spans.
pub open spec fn mapped_rules(at: AuthoredModel, syntax: StylesheetSyntax, rules: Seq<RuleModel>) -> Seq<RuleModel> {
    unambiguous(rules.map_values(|rule: RuleModel| located(at, rule))).map_values(
        |rule: RuleModel| plain_only(at, syntax, rule),
    )
}

/// What the authored rules are looked up in.
struct Authored<'a> {
    source: &'a str,
    path: &'a str,
    mappings: &'a Vec<SourceMapping>,
    analysis: &'a str,
    rules: &'a Vec<RuleSpans>,
    base: usize,
}

impl<'a> View for Authored<'a> {
    type V = AuthoredModel;

    closed spec fn view(&self) -> AuthoredModel {
        AuthoredModel {
            source: self.source@,
            path: self.path@,
            mappings: views(self.mappings@),
            analysis: self.analysis@,
            rules: self.rules@,
            base: self.base as int,
        }
    }
}

fn set_span(rules: &mut Vec<RulePlan>, i: usize, span: Option<(usize, usize)>)
    requires
        i < old(rules)@.len(),
    ensures
        final(rules)@.len() == old(rules)@.len(),
        views(final(rules)@) == views(old(rules)@).update(
            i as int,
            RuleModel { authored_span: span, ..views(old(rules)@)[i as int] },
        ),
{
    let ghost before = views(rules@);
    assert(before[i as int] == rules@[i as int]@);
    rules[i].authored_span = span;
    assert(views(rules@) =~= before.update(i as int, RuleModel { authored_span: span, ..before[i as int] }));
}

fn locate_rules<'a>(at: &Authored<'a>, rules: &mut Vec<RulePlan>)
    ensures
        final(rules)@.len() == old(rules)@.len(),
        views(final(rules)@) == views(old(rules)@).map_values(|rule: RuleModel| located(at@, rule)),
{
    let ghost start = views(rules@);
    let mut i: usize = 0;
    while i < rules.len()
        invariant
            i <= rules@.len() == start.len(),
            rules@.len() == old(rules)@.len(),
            forall|k: int| 0 <= k < i ==> #[trigger] views(rules@)[k] == located(at@, start[k]),
            forall|k: int| i <= k < start.len() ==> #[trigger] views(rules@)[k] == start[k],
        decreases rules.len() - i,
    {
        assert(views(rules@)[i as int] == rules@[i as int]@);
        let found = find_authored_offsets(
            at.source,
            at.path,
            at.mappings,
            at.analysis,
            &rules[i].provenance_offsets,
        );
        if let Some(offsets) = found {
            assert(ints(offsets@).len() == offsets@.len());
            if offsets.len() > 0 {
                let span = match find_shortest(at.rules, &offsets) {
                    Some(span) => add_base(at.base, span),
                    None => None,
                };
                set_span(rules, i, span);
            }
        }
        i += 1;
    }
    assert(views(rules@) =~= start.map_values(|rule: RuleModel| located(at@, rule)));
}

fn do_collide(a: Option<(usize, usize)>, b: Option<(usize, usize)>) -> (result: bool)
    ensures
        result == collide(a, b),
{
    match (a, b) {
        (Some(a), Some(b)) => (a.0 == b.0 && a.1 == b.1) || (a.0 < b.1 && b.0 < a.1),
        _ => false,
    }
}

fn is_ambiguous(rules: &Vec<RulePlan>, i: usize) -> (result: bool)
    requires
        i < rules@.len(),
    ensures
        result == ambiguous(views(rules@), i as int),
{
    let ghost models = views(rules@);
    assert(models[i as int] == rules@[i as int]@);
    let mut j: usize = 0;
    while j < rules.len()
        invariant
            j <= rules@.len(),
            i < rules@.len(),
            models == views(rules@),
            models[i as int] == rules@[i as int]@,
            forall|k: int|
                0 <= k < j && k != i ==> !collide(models[i as int].authored_span, (#[trigger] models[k]).authored_span),
        decreases rules.len() - j,
    {
        assert(models[j as int] == rules@[j as int]@);
        if j != i && do_collide(rules[i].authored_span, rules[j].authored_span) {
            return true;
        }
        j += 1;
    }
    false
}

fn drop_ambiguous(rules: &mut Vec<RulePlan>)
    ensures
        final(rules)@.len() == old(rules)@.len(),
        views(final(rules)@) == unambiguous(views(old(rules)@)),
{
    let ghost start = views(rules@);
    let mut marks: Vec<bool> = Vec::new();
    let mut i: usize = 0;
    while i < rules.len()
        invariant
            i <= rules@.len(),
            start == views(rules@),
            rules@.len() == old(rules)@.len(),
            marks@.len() == i,
            forall|k: int| 0 <= k < i ==> #[trigger] marks@[k] == ambiguous(start, k),
        decreases rules.len() - i,
    {
        marks.push(is_ambiguous(rules, i));
        i += 1;
    }
    let mut j: usize = 0;
    while j < rules.len()
        invariant
            j <= rules@.len() == start.len(),
            rules@.len() == old(rules)@.len(),
            marks@.len() == start.len(),
            forall|k: int| 0 <= k < start.len() ==> #[trigger] marks@[k] == ambiguous(start, k),
            forall|k: int|
                0 <= k < j ==> #[trigger] views(rules@)[k] == if ambiguous(start, k) {
                    unlocated(start[k])
                } else {
                    start[k]
                },
            forall|k: int| j <= k < start.len() ==> #[trigger] views(rules@)[k] == start[k],
        decreases rules.len() - j,
    {
        assert(views(rules@)[j as int] == start[j as int]);
        if marks[j] {
            set_span(rules, j, None);
        }
        j += 1;
    }
    assert(views(rules@) =~= unambiguous(start));
}

fn is_interpolated<'a>(at: &Authored<'a>, mark: &str, rule: &RulePlan) -> (result: bool)
    ensures
        result == interpolated(at@, mark@, rule@),
{
    let span = match rule.authored_span {
        Some(span) => span,
        None => {
            return false;
        },
    };
    let mut i: usize = 0;
    while i < at.rules.len()
        invariant
            i <= at.rules@.len(),
            rule.authored_span == Some(span),
            forall|j: int|
                0 <= j < i ==> !(based(at@.base, (#[trigger] at@.rules[j]).0) == Some(span)
                    && interpolated_selector(at@.source, at@.rules[j], mark@)),
        decreases at.rules.len() - i,
    {
        let spans = at.rules[i];
        assert(at@.rules[i as int] == spans);
        let here = match add_base(at.base, spans.0) {
            Some(found) => found.0 == span.0 && found.1 == span.1,
            None => false,
        };
        if here {
            let selector = copy_cut(at.source, (spans.1).0, (spans.1).1);
            let marked = match &selector {
                Some(selector) => contains(selector.as_str(), mark),
                None => false,
            };
            if marked {
                assert(based(at@.base, at@.rules[i as int].0) == rule@.authored_span);
                return true;
            }
        }
        i += 1;
    }
    false
}

fn drop_interpolated<'a>(at: &Authored<'a>, syntax: StylesheetSyntax, rules: &mut Vec<RulePlan>)
    ensures
        final(rules)@.len() == old(rules)@.len(),
        views(final(rules)@) == views(old(rules)@).map_values(|rule: RuleModel| plain_only(at@, syntax, rule)),
{
    let ghost start = views(rules@);
    let mark = match syntax {
        StylesheetSyntax::Scss | StylesheetSyntax::Sass => "#{",
        StylesheetSyntax::Less => "@{",
        StylesheetSyntax::Css => {
            assert(start =~= start.map_values(|rule: RuleModel| plain_only(at@, syntax, rule)));
            return;
        },
    };
    let mut i: usize = 0;
    while i < rules.len()
        invariant
            i <= rules@.len() == start.len(),
            rules@.len() == old(rules)@.len(),
            interpolation(syntax) == Some(mark@),
            forall|k: int| 0 <= k < i ==> #[trigger] views(rules@)[k] == plain_only(at@, syntax, start[k]),
            forall|k: int| i <= k < start.len() ==> #[trigger] views(rules@)[k] == start[k],
        decreases rules.len() - i,
    {
        assert(views(rules@)[i as int] == rules@[i as int]@);
        if is_interpolated(at, mark, &rules[i]) {
            set_span(rules, i, None);
        }
        i += 1;
    }
    assert(views(rules@) =~= start.map_values(|rule: RuleModel| plain_only(at@, syntax, rule)));
}

/// The rules of a generated stylesheet with their authored spans.
pub open spec fn rules_mapped(
    parses: Seq<ParseModel>,
    source: Seq<char>,
    syntax: StylesheetSyntax,
    path: Seq<char>,
    mappings: Seq<MappingModel>,
    analysis: Seq<char>,
    rules: Seq<RuleModel>,
    base: int,
) -> Result<Seq<RuleModel>, HaltModel> {
    match read_css(parses, source, syntax, ErrorKind::AuthoredStylesheetParse, "Failed to parse "@ + path + ": "@) {
        Err(halt) => Err(halt),
        Ok(tree) => {
            let statements = items(tree, "statements"@);
            Ok(
                mapped_rules(
                    AuthoredModel {
                        source,
                        path,
                        mappings,
                        analysis,
                        rules: rule_spans(statements, statements.len()),
                        base,
                    },
                    syntax,
                    rules,
                ),
            )
        },
    }
}

/// Finds the authored rule of every generated rule: the shortest rule of the
/// authored source that all the rule's offsets map into. A rule keeps none
/// that other rules share, or whose selector is interpolated.
pub fn map_rule_spans(
    parses: &Vec<Parse>,
    authored_source: &str,
    syntax: StylesheetSyntax,
    source_path: &str,
    source_mappings: &Vec<SourceMapping>,
    analysis_source: &str,
    rules: &mut Vec<RulePlan>,
    authored_base: usize,
) -> (result: Result<(), Halt>)
    ensures
        match rules_mapped(
            views(parses@),
            authored_source@,
            syntax,
            source_path@,
            views(source_mappings@),
            analysis_source@,
            views(old(rules)@),
            authored_base as int,
        ) {
            Ok(model) => result is Ok && views(final(rules)@) == model,
            Err(model) => result matches Err(halt) && halt@ == model && final(rules)@ == old(rules)@,
        },
{
    let mut blame = "Failed to parse ".to_owned();
    blame.append(source_path);
    blame.append(": ");
    let tree = match parse_css(parses, authored_source, syntax, ErrorKind::AuthoredStylesheetParse, blame.as_str()) {
        Ok(tree) => tree,
        Err(halt) => {
            return Err(halt);
        },
    };
    let mut spans: Vec<RuleSpans> = Vec::new();
    match get_items(tree, "statements") {
        Some(statements) => {
            proof {
                lemma_list_model(statements@, statements@.len());
            }
            collect_qualified_rule_spans(statements, &mut spans);
        },
        None => {},
    }
    let ghost statements = items(tree@, "statements"@);
    assert(spans@ =~= rule_spans(statements, statements.len()));
    let at = Authored {
        source: authored_source,
        path: source_path,
        mappings: source_mappings,
        analysis: analysis_source,
        rules: &spans,
        base: authored_base,
    };
    locate_rules(&at, rules);
    drop_ambiguous(rules);
    drop_interpolated(&at, syntax, rules);
    Ok(())
}

// ---------------------------------------------------------------------------
// Laws
// ---------------------------------------------------------------------------

/// No two rules share an authored byte: the authored spans that mapping leaves
/// never collide, so deleting one rule never touches another.
pub proof fn mapped_spans_never_collide(at: AuthoredModel, syntax: StylesheetSyntax, rules: Seq<RuleModel>, i: int, j: int)
    requires
        0 <= i < rules.len(),
        0 <= j < rules.len(),
        i != j,
    ensures
        !collide(mapped_rules(at, syntax, rules)[i].authored_span, mapped_rules(at, syntax, rules)[j].authored_span),
{
    let found = rules.map_values(|rule: RuleModel| located(at, rule));
    let kept = unambiguous(found);
    if collide(kept[i].authored_span, kept[j].authored_span) {
        assert(!ambiguous(found, i));
        assert(collide(found[i].authored_span, found[j].authored_span));
        assert(false);
    }
}

} // verus!
