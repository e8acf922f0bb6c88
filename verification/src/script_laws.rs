//! What scripts keep and gain when utilities are written into them.
use crate::js_rewrite::{
    after_expression, finished, fits_single_quotes, held_or_none, member_clash, member_template, missing_from,
    module_member, no_reading, pair_clash, site_value, source_text, static_clash, static_template_of, template_from,
    with_container, with_member_match, with_member_matches, with_module_attribute, with_rewritten, with_template,
    ReadingModel, SceneModel, Site, StepModel, TemplateModel, UsageModel,
};
use crate::json::{hex_char, json_escaped, json_escapes, json_quoted};
use crate::jsx_extract::attribute_name;
use crate::plan::{clash_from, first_clash, held, MatchModel};
use crate::selector::KeyModel;
use crate::syntax::{field, flag, items, of_kind, referenced, span_of, static_member, string_value, text_field};
use crate::text::{is_word, joined, lemma_words_are_words, separates, splitting_undoes_joining, words, Separator};
use crate::text_laws::{blank, parted, words_are_read_from_left_to_right};
use crate::tree::TreeModel;
use vstd::prelude::*;

verus! {

// ---------------------------------------------------------------------------
// Reading what was written
// ---------------------------------------------------------------------------

/// The value of a hexadecimal digit.
pub open spec fn hex_value(c: char) -> int {
    if '0' <= c <= '9' {
        c as int - '0' as int
    } else {
        c as int - 'a' as int + 10
    }
}

/// What a JSON string stands for from `i` on, read up to its closing quote.
pub open spec fn json_read_from(text: Seq<char>, i: int) -> Seq<char>
    decreases text.len() - i,
{
    if i < 0 || i >= text.len() || text[i] == '"' {
        seq![]
    } else if text[i] != '\\' {
        seq![text[i]] + json_read_from(text, i + 1)
    } else if i + 1 >= text.len() {
        seq![]
    } else if text[i + 1] == 'u' {
        if i + 5 < text.len() {
            seq![(16 * hex_value(text[i + 4]) + hex_value(text[i + 5])) as char] + json_read_from(text, i + 6)
        } else {
            seq![]
        }
    } else {
        seq![
            if text[i + 1] == 'b' {
                '\u{8}'
            } else if text[i + 1] == 't' {
                '\t'
            } else if text[i + 1] == 'n' {
                '\n'
            } else if text[i + 1] == 'f' {
                '\u{c}'
            } else if text[i + 1] == 'r' {
                '\r'
            } else {
                text[i + 1]
            },
        ] + json_read_from(text, i + 2)
    }
}

/// What a JSON string literal stands for.
pub open spec fn json_read(literal: Seq<char>) -> Seq<char> {
    json_read_from(literal, 1)
}

proof fn lemma_escapes_first(text: Seq<char>)
    requires
        text.len() > 0,
    ensures
        json_escapes(text) == json_escaped(text[0]) + json_escapes(text.drop_first()),
    decreases text.len(),
{
    if text.len() == 1 {
        assert(json_escapes(text.drop_last()) =~= Seq::<char>::empty());
        assert(json_escapes(text.drop_first()) =~= Seq::<char>::empty());
        assert(json_escapes(text) =~= json_escaped(text[0]) + json_escapes(text.drop_first()));
    } else {
        lemma_escapes_first(text.drop_last());
        assert(text.drop_last().drop_first() =~= text.drop_first().drop_last());
        assert(json_escapes(text) =~= json_escaped(text[0]) + json_escapes(text.drop_first()));
    }
}

proof fn lemma_hex(c: char)
    requires
        (c as u32) <= 0x1f,
    ensures
        (16 * hex_value(hex_char(c as int / 16)) + hex_value(hex_char(c as int % 16))) as char == c,
{
    let high = c as int / 16;
    let low = c as int % 16;
    assert(0 <= high <= 1);
    assert(0 <= low < 16);
    assert(hex_value(hex_char(high)) == high);
    assert(hex_value(hex_char(low)) == low);
    assert(16 * high + low == c as int);
}

proof fn lemma_json_read(text: Seq<char>, literal: Seq<char>, i: int)
    requires
        0 <= i <= literal.len(),
        literal.skip(i) == json_escapes(text) + seq!['"'],
    ensures
        json_read_from(literal, i) == text,
    decreases text.len(),
{
    let rest = literal.skip(i);
    if text.len() == 0 {
        assert(json_escapes(text) =~= Seq::<char>::empty());
        assert(rest[0] == literal[i]);
        assert(json_read_from(literal, i) =~= text);
    } else {
        let c = text[0];
        let part = json_escaped(c);
        let tail = text.drop_first();
        lemma_escapes_first(text);
        assert(rest =~= part + (json_escapes(tail) + seq!['"']));
        let n = part.len() as int;
        assert(literal.skip(i + n) =~= json_escapes(tail) + seq!['"']) by {
            assert(literal.skip(i + n) =~= rest.skip(n));
        }
        assert forall|k: int| 0 <= k < n implies literal[i + k] == #[trigger] part[k] by {
            assert(rest[k] == literal[i + k]);
        }
        lemma_json_read(tail, literal, i + n);
        assert(literal[i] == part[0]);
        if n == 6 {
            assert(literal[i + 1] == part[1]);
            assert(literal[i + 4] == part[4]);
            assert(literal[i + 5] == part[5]);
            lemma_hex(c);
        } else if n == 2 {
            assert(literal[i + 1] == part[1]);
        }
        assert(json_read_from(literal, i) =~= seq![c] + tail);
        assert(text =~= seq![c] + tail);
    }
}

/// A JSON string literal stands for the text that was quoted.
pub proof fn quoted_texts_read_back(text: Seq<char>)
    ensures
        json_read(json_quoted(text)) == text,
{
    let literal = json_quoted(text);
    assert(literal.skip(1) =~= json_escapes(text) + seq!['"']);
    lemma_json_read(text, literal, 1);
}

/// The class list that a script reads where this was written. A JSX attribute
/// between quotes has no escapes; one in braces is an expression.
pub open spec fn read_list(site: Site, written: Seq<char>) -> Seq<char> {
    let inner = written.subrange(1, written.len() - 1);
    match site {
        Site::Attribute => if written[0] == '{' {
            json_read(inner)
        } else {
            inner
        },
        Site::Expression { single_quoted } => if written[0] == '\'' {
            inner
        } else {
            json_read(written)
        },
    }
}

/// A class list is read as it was meant, wherever it is written.
pub proof fn written_lists_read_back(site: Site, value: Seq<char>)
    ensures
        read_list(site, site_value(site, value)) == value,
{
    quoted_texts_read_back(value);
    let written = site_value(site, value);
    let inner = written.subrange(1, written.len() - 1);
    match site {
        Site::Attribute => {
            if !value.contains('"') || !value.contains('\'') {
                assert(inner =~= value);
            } else {
                assert(inner =~= json_quoted(value));
            }
        },
        Site::Expression { single_quoted } => {
            if single_quoted && fits_single_quotes(value) {
                assert(inner =~= value);
            }
        },
    }
}

// ---------------------------------------------------------------------------
// References
// ---------------------------------------------------------------------------

/// The expression is `styles.name` on an import of the CSS Module.
pub open spec fn is_reference(at: SceneModel, tree: TreeModel, name: Seq<char>) -> bool {
    let object = field(tree, "object"@);
    let property = field(tree, "property"@);
    &&& of_kind(tree, "MemberExpression"@)
    &&& !flag(tree, "computed"@)
    &&& of_kind(property, "Identifier"@)
    &&& text_field(property, "name"@) == Some(name)
    &&& of_kind(object, "Identifier"@)
    &&& exists|b: int|
        0 <= b < at.bindings.len() && referenced(at.symbols, object) == Some((#[trigger] at.bindings[b]).0)
}

pub proof fn lemma_reference(at: SceneModel, tree: TreeModel)
    ensures
        forall|name: Seq<char>| module_member(at, tree) == Some(name) <==> #[trigger] is_reference(at, tree, name),
        module_member(at, tree) is None ==> forall|name: Seq<char>| !#[trigger] is_reference(at, tree, name),
{
    assert forall|name: Seq<char>| module_member(at, tree) == Some(name) <==> #[trigger] is_reference(
        at,
        tree,
        name,
    ) by {
        if module_member(at, tree) == Some(name) {
            let symbol = referenced(at.symbols, field(tree, "object"@))->0;
            let b = choose|b: int| 0 <= b < at.bindings.len() && (#[trigger] at.bindings[b]).0 == symbol;
            assert(referenced(at.symbols, field(tree, "object"@)) == Some(at.bindings[b].0));
        }
    }
}

/// The candidates of a class are words of a class list.
pub open spec fn are_words(list: Seq<Seq<char>>) -> bool {
    forall|i: int| 0 <= i < list.len() ==> is_word(#[trigger] list[i], Separator::Whitespace)
}

/// Behind the matches that were there stand those of the candidates at the
/// span, in order, and no others.
pub open spec fn reports(
    before: Seq<MatchModel>,
    after: Seq<MatchModel>,
    name: Seq<char>,
    candidates: Seq<Seq<char>>,
    span: (usize, usize),
) -> bool {
    &&& after.len() == before.len() + candidates.len()
    &&& after.take(before.len() as int) == before
    &&& forall|i: int|
        0 <= i < candidates.len() ==> {
            let found = #[trigger] after[before.len() + i];
            &&& found.key == KeyModel::Class(name)
            &&& found.candidate == candidates[i]
            &&& found.start == span.0
            &&& found.end == span.1
        }
}

proof fn lemma_member_match(
    member: Seq<char>,
    candidates: Seq<Seq<char>>,
    span: (usize, usize),
    n: int,
    out: UsageModel,
)
    requires
        0 <= n <= candidates.len(),
    ensures
        with_member_match(member, candidates, span, n, out).edits == out.edits,
        reports(
            out.matches,
            with_member_match(member, candidates, span, n, out).matches,
            member,
            candidates.take(n),
            span,
        ),
    decreases n,
{
    let after = with_member_match(member, candidates, span, n, out);
    let list = candidates.take(n);
    let m = out.matches.len() as int;
    if n > 0 {
        lemma_member_match(member, candidates, span, n - 1, out);
        let before = with_member_match(member, candidates, span, n - 1, out);
        let rest = candidates.take(n - 1);
        assert(after.matches.take(m) =~= before.matches.take(m));
        assert forall|i: int| 0 <= i < list.len() implies {
            let found = #[trigger] after.matches[m + i];
            &&& found.key == KeyModel::Class(member)
            &&& found.candidate == list[i]
            &&& found.start == span.0
            &&& found.end == span.1
        } by {
            if i < n - 1 {
                assert(after.matches[m + i] == before.matches[m + i]);
                assert(rest[i] == list[i]);
            }
        }
    } else {
        assert(after.matches.take(m) =~= out.matches);
    }
}

proof fn lemma_rewritten(at: SceneModel, members: Seq<Seq<char>>, n: int, out: UsageModel)
    ensures
        with_rewritten(at, members, n, out).edits == out.edits,
        with_rewritten(at, members, n, out).matches == out.matches,
    decreases n,
{
    if n > 0 {
        lemma_rewritten(at, members, n - 1, out);
    }
}

/// A reference to a class that no other rule needs is replaced by all its
/// candidates, and by nothing else: the class list that the script then reads
/// consists of them, in order. Each of them is reported for the class, there.
pub proof fn references_become_all_their_candidates(
    at: SceneModel,
    member: TreeModel,
    name: Seq<char>,
    candidates: Seq<Seq<char>>,
    span: (usize, usize),
    site: Site,
    out: UsageModel,
)
    requires
        is_reference(at, member, name),
        held(at.entries, KeyModel::Class(name)) == Some(candidates),
        are_words(candidates),
        !at.preserved.contains(name),
    ensures
        member_template(at, member) is Some,
        ({
            let after = with_template(at, member_template(at, member)->0, span, site, out);
            &&& after.edits.len() == out.edits.len() + 1
            &&& after.edits.drop_last() == out.edits
            &&& after.edits.last().start == span.0
            &&& after.edits.last().end == span.1
            &&& words(read_list(site, after.edits.last().replacement), Separator::Whitespace) == candidates
            &&& reports(out.matches, after.matches, name, candidates, span)
        }),
{
    lemma_reference(at, member);
    let template = member_template(at, member)->0;
    lemma_one_member(at, template, name, candidates, span, site, out);
    let value = joined(candidates, " "@);
    assert(missing_from(template.preserved_candidates, template.static_classes) =~= Seq::<Seq<char>>::empty());
    written_lists_read_back(site, value);
    splitting_undoes_joining(candidates, Separator::Whitespace);
    let after = with_template(at, template, span, site, out);
    assert(after.edits.drop_last() =~= out.edits);
}

proof fn lemma_one_member(
    at: SceneModel,
    template: TemplateModel,
    name: Seq<char>,
    candidates: Seq<Seq<char>>,
    span: (usize, usize),
    site: Site,
    out: UsageModel,
)
    requires
        template.members == seq![name],
        template.static_classes == Seq::<Seq<char>>::empty(),
        held(at.entries, KeyModel::Class(name)) == Some(candidates),
    ensures
        with_template(at, template, span, site, out).edits == with_container(template, span, site, out).edits,
        reports(out.matches, with_template(at, template, span, site, out).matches, name, candidates, span),
{
    let members = template.members;
    assert(held_or_none(at.entries, members[0]) == candidates);
    assert(with_member_matches(at, members, span, 0, out) == out);
    lemma_member_match(name, candidates, span, candidates.len() as int, out);
    assert(candidates.take(candidates.len() as int) =~= candidates);
    let matched = with_member_matches(at, members, span, 1, out);
    assert(matched == with_member_match(name, candidates, span, candidates.len() as int, out));
    assert(pair_clash(at, candidates, members, 1) is Clean);
    assert(member_clash(at, members, 1) is None);
    assert(member_clash(at, members, 0) is None);
    let clash = static_clash(at, members, template.static_classes, 0);
    let warned = match clash {
        Some(clash) => UsageModel {
            warnings: matched.warnings.push(
                crate::plan::conflict_warning(at.path, span.0 as int, span.1 as int, clash.0, clash.1),
            ),
            ..matched
        },
        None => matched,
    };
    lemma_rewritten(at, members, 1, with_container(template, span, site, warned));
}

/// A reference to a class that other rules still need stays, and all candidates
/// of the class stand behind it.
pub proof fn needed_references_stay_before_their_candidates(
    at: SceneModel,
    member: TreeModel,
    name: Seq<char>,
    candidates: Seq<Seq<char>>,
    span: (usize, usize),
    site: Site,
    out: UsageModel,
)
    requires
        is_reference(at, member, name),
        held(at.entries, KeyModel::Class(name)) == Some(candidates),
        are_words(candidates),
        candidates.len() > 0,
        at.preserved.contains(name),
    ensures
        member_template(at, member) is Some,
        ({
            let after = with_template(at, member_template(at, member)->0, span, site, out);
            let written = after.edits.last().replacement;
            &&& after.edits.len() == out.edits.len() + 1
            &&& after.edits.drop_last() == out.edits
            &&& after.edits.last().start == span.0
            &&& after.edits.last().end == span.1
            &&& exists|literal: Seq<char>|
                words(json_read(literal), Separator::Whitespace) == candidates && written == #[trigger] appended(
                    site,
                    source_text(at.source, span_of(member)),
                    literal,
                )
            &&& reports(out.matches, after.matches, name, candidates, span)
        }),
{
    reveal_strlit("{`${");
    reveal_strlit("`${");
    reveal_strlit("}${");
    reveal_strlit("}`}");
    reveal_strlit("}`");
    reveal_strlit(" ");
    lemma_reference(at, member);
    let template = member_template(at, member)->0;
    lemma_one_member(at, template, name, candidates, span, site, out);
    let after = with_template(at, template, span, site, out);
    lemma_all_missing(candidates);
    let value = " "@ + joined(candidates, " "@);
    let literal = json_quoted(value);
    quoted_texts_read_back(value);
    splitting_undoes_joining(candidates, Separator::Whitespace);
    assert(" "@ =~= seq![' ']);
    assert(blank(" "@, Separator::Whitespace));
    words_are_read_from_left_to_right(" "@, joined(candidates, " "@), Separator::Whitespace);
    assert(Seq::<Seq<char>>::empty() + candidates =~= candidates);
    assert(after.edits.drop_last() =~= out.edits);
    let expression = source_text(at.source, span_of(member));
    assert(after.edits.last().replacement =~= appended(site, expression, literal));
}

/// The template in which an expression stands before a literal.
pub open spec fn appended(site: Site, expression: Seq<char>, literal: Seq<char>) -> Seq<char> {
    let template = seq!['`', '$', '{'] + expression + seq!['}', '$', '{'] + literal + seq!['}', '`'];
    if site == Site::Attribute {
        seq!['{'] + template + seq!['}']
    } else {
        template
    }
}

proof fn lemma_all_missing(list: Seq<Seq<char>>)
    ensures
        missing_from(list, Seq::<Seq<char>>::empty()) == list,
    decreases list.len(),
{
    if list.len() > 0 {
        lemma_all_missing(list.drop_last());
        assert(!Seq::<Seq<char>>::empty().contains(list.last()));
        assert(list.drop_last().push(list.last()) =~= list);
    } else {
        assert(missing_from(list, Seq::<Seq<char>>::empty()) =~= list);
    }
}

/// A `className` that is one reference is rewritten as such.
pub proof fn class_names_of_one_reference_are_rewritten(
    at: SceneModel,
    item: TreeModel,
    name: Seq<char>,
    candidates: Seq<Seq<char>>,
    out: UsageModel,
)
    requires
        attribute_name(item) == Some("className"@),
        of_kind(field(item, "value"@), "JSXExpressionContainer"@),
        is_reference(at, field(field(item, "value"@), "expression"@), name),
        held(at.entries, KeyModel::Class(name)) == Some(candidates),
        are_words(candidates),
        !at.preserved.contains(name),
    ensures
        ({
            let after = with_module_attribute(at, item, out);
            let span = span_of(field(item, "value"@));
            &&& after.edits.len() == out.edits.len() + 1
            &&& after.edits.drop_last() == out.edits
            &&& after.edits.last().start == span.0
            &&& after.edits.last().end == span.1
            &&& words(read_list(Site::Attribute, after.edits.last().replacement), Separator::Whitespace) == candidates
            &&& reports(out.matches, after.matches, name, candidates, span)
        }),
{
    references_become_all_their_candidates(
        at,
        field(field(item, "value"@), "expression"@),
        name,
        candidates,
        span_of(field(item, "value"@)),
        Site::Attribute,
        out,
    );
}

// ---------------------------------------------------------------------------
// Conflicts
// ---------------------------------------------------------------------------

proof fn lemma_clash_from(
    pairs: Seq<(Seq<char>, Seq<char>)>,
    generated: Seq<char>,
    existing: Seq<Seq<char>>,
    i: int,
)
    requires
        0 <= i <= existing.len(),
    ensures
        match clash_from(pairs, generated, existing, i) {
            Some(other) => existing.contains(other) && pairs.contains((generated, other)),
            None => forall|k: int| i <= k < existing.len() ==> !pairs.contains((generated, #[trigger] existing[k])),
        },
    decreases existing.len() - i,
{
    if i < existing.len() && !pairs.contains((generated, existing[i])) {
        lemma_clash_from(pairs, generated, existing, i + 1);
    }
}

proof fn lemma_first_clash(
    pairs: Seq<(Seq<char>, Seq<char>)>,
    generated: Seq<Seq<char>>,
    existing: Seq<Seq<char>>,
    i: int,
)
    requires
        0 <= i <= generated.len(),
    ensures
        match first_clash(pairs, generated, existing, i) {
            Some(found) => generated.contains(found.0) && existing.contains(found.1) && pairs.contains(found),
            None => forall|j: int, k: int|
                i <= j < generated.len() && 0 <= k < existing.len() ==> !pairs.contains(
                    (#[trigger] generated[j], #[trigger] existing[k]),
                ),
        },
    decreases generated.len() - i,
{
    if i < generated.len() {
        lemma_clash_from(pairs, generated[i], existing, 0);
        if clash_from(pairs, generated[i], existing, 0) is None {
            lemma_first_clash(pairs, generated, existing, i + 1);
        } else {
            assert(generated.contains(generated[i]));
        }
    }
}

/// The first pair of utilities that is named is one that is known to conflict,
/// of a generated one and one that is there, and there is one wherever such a
/// pair is known.
pub proof fn clashes_are_known_conflicts(
    pairs: Seq<(Seq<char>, Seq<char>)>,
    generated: Seq<Seq<char>>,
    existing: Seq<Seq<char>>,
)
    ensures
        match first_clash(pairs, generated, existing, 0) {
            Some(found) => generated.contains(found.0) && existing.contains(found.1) && pairs.contains(found),
            None => forall|a: Seq<char>, b: Seq<char>|
                generated.contains(a) && existing.contains(b) ==> !#[trigger] pairs.contains((a, b)),
        },
{
    lemma_first_clash(pairs, generated, existing, 0);
    if first_clash(pairs, generated, existing, 0) is None {
        assert forall|a: Seq<char>, b: Seq<char>| generated.contains(a) && existing.contains(b) implies !#[trigger] pairs.contains(
            (a, b),
        ) by {
            let j = choose|j: int| 0 <= j < generated.len() && generated[j] == a;
            let k = choose|k: int| 0 <= k < existing.len() && existing[k] == b;
            assert(!pairs.contains((generated[j], existing[k])));
        }
    }
}

/// Candidates of the two members are known to conflict.
pub open spec fn members_conflict(at: SceneModel, a: Seq<char>, b: Seq<char>) -> bool {
    exists|x: Seq<char>, y: Seq<char>|
        held_or_none(at.entries, a).contains(x) && held_or_none(at.entries, b).contains(y) && #[trigger] at.pairs.contains(
            (x, y),
        )
}

proof fn lemma_no_pair_clash(at: SceneModel, members: Seq<Seq<char>>, i: int, k: int)
    requires
        0 <= i < k <= members.len(),
        forall|j: int| 0 <= j < members.len() ==> held(at.entries, KeyModel::Class(#[trigger] members[j])) is Some,
        forall|j: int| i < j < members.len() ==> !members_conflict(at, members[i], #[trigger] members[j]),
    ensures
        pair_clash(at, held_or_none(at.entries, members[i]), members, k) is Clean,
    decreases members.len() - k,
{
    if k < members.len() {
        let left = held_or_none(at.entries, members[i]);
        let right = held_or_none(at.entries, members[k]);
        assert(held(at.entries, KeyModel::Class(members[k])) is Some);
        clashes_are_known_conflicts(at.pairs, left, right);
        if let Some(found) = first_clash(at.pairs, left, right, 0) {
            assert(at.pairs.contains((found.0, found.1)));
            assert(members_conflict(at, members[i], members[k]));
        }
        lemma_no_pair_clash(at, members, i, k + 1);
    }
}

proof fn lemma_no_clash(at: SceneModel, members: Seq<Seq<char>>, i: int)
    requires
        0 <= i <= members.len(),
        forall|j: int| 0 <= j < members.len() ==> held(at.entries, KeyModel::Class(#[trigger] members[j])) is Some,
        forall|j: int, k: int|
            0 <= j < k < members.len() ==> !members_conflict(at, #[trigger] members[j], #[trigger] members[k]),
    ensures
        member_clash(at, members, i) is None,
    decreases members.len() - i,
{
    if i < members.len() {
        assert(held(at.entries, KeyModel::Class(members[i])) is Some);
        lemma_no_pair_clash(at, members, i, i + 1);
        lemma_no_clash(at, members, i + 1);
    }
}

// ---------------------------------------------------------------------------
// Templates
// ---------------------------------------------------------------------------

/// The text of a template's static part.
pub open spec fn cooked(quasi: TreeModel) -> Option<Seq<char>> {
    text_field(field(quasi, "value"@), "cooked"@)
}

/// The text begins with whitespace, or there is none and nothing follows.
pub open spec fn opens_apart(text: Seq<char>, last: bool) -> bool {
    if text.len() == 0 {
        last
    } else {
        separates(Separator::Whitespace, text[0])
    }
}

/// The text ends with whitespace, or there is none and nothing stands before.
pub open spec fn closes_apart(text: Seq<char>, first: bool) -> bool {
    if text.len() == 0 {
        first
    } else {
        separates(Separator::Whitespace, text.last())
    }
}

/// Whitespace stands round every expression of the template.
pub open spec fn spaced(quasis: Seq<TreeModel>, count: int) -> bool {
    &&& quasis.len() == count + 1
    &&& forall|i: int| 0 <= i < quasis.len() ==> cooked(#[trigger] quasis[i]) is Some
    &&& forall|i: int|
        0 <= i < count ==> closes_apart(cooked(#[trigger] quasis[i])->0, i == 0) && opens_apart(
            cooked(quasis[i + 1])->0,
            i + 1 == count,
        )
}

/// The expression stands for these classes: it refers to a class that no other
/// rule needs and that has these candidates, or it is a text with them.
pub open spec fn stands_for(at: SceneModel, expression: TreeModel, list: Seq<Seq<char>>) -> bool {
    ||| exists|name: Seq<char>| #[trigger]
        is_reference(at, expression, name) && held(at.entries, KeyModel::Class(name)) == Some(list)
            && !at.preserved.contains(name)
    ||| at.batch_mode && !static_member(expression) && (string_value(expression) matches Some(text) && words(
        text,
        Separator::Whitespace,
    ) == list)
}

/// The classes of the template up to its part `n`, in the order of the text.
pub open spec fn classes_up_to(quasis: Seq<TreeModel>, lists: Seq<Seq<Seq<char>>>, n: int) -> Seq<Seq<char>>
    decreases n,
{
    if n < 0 {
        seq![]
    } else if n == 0 {
        words(cooked(quasis[0])->0, Separator::Whitespace)
    } else {
        classes_up_to(quasis, lists, n - 1) + lists[n - 1] + words(cooked(quasis[n])->0, Separator::Whitespace)
    }
}

/// What is known of a template that is read up to its part `i`.
spec fn read_up_to(
    at: SceneModel,
    quasis: Seq<TreeModel>,
    lists: Seq<Seq<Seq<char>>>,
    i: int,
    reading: ReadingModel,
) -> bool {
    let known = if i == 0 {
        seq![]
    } else {
        classes_up_to(quasis, lists, i - 1) + lists[i - 1]
    };
    &&& !reading.partial
    &&& words(reading.value, Separator::Whitespace) == known
    &&& i == 0 ==> reading.value.len() == 0
    &&& forall|m: int|
        0 <= m < reading.members.len() ==> member_listed(at, #[trigger] reading.members[m], known)
}

/// The member has candidates, and all of them are in the list.
pub open spec fn member_listed(at: SceneModel, member: Seq<char>, list: Seq<Seq<char>>) -> bool {
    held(at.entries, KeyModel::Class(member)) matches Some(candidates) && forall|k: int|
        0 <= k < candidates.len() ==> list.contains(#[trigger] candidates[k])
}

proof fn lemma_listed_longer(at: SceneModel, member: Seq<char>, list: Seq<Seq<char>>, more: Seq<Seq<char>>)
    requires
        member_listed(at, member, list),
    ensures
        member_listed(at, member, list + more),
{
    let candidates = held(at.entries, KeyModel::Class(member))->0;
    assert forall|k: int| 0 <= k < candidates.len() implies (list + more).contains(#[trigger] candidates[k]) by {
        assert(list.contains(candidates[k]));
        let j = choose|j: int| 0 <= j < list.len() && list[j] == candidates[k];
        assert((list + more)[j] == candidates[k]);
    }
}

proof fn lemma_read_expression(
    at: SceneModel,
    quasis: Seq<TreeModel>,
    expressions: Seq<TreeModel>,
    lists: Seq<Seq<Seq<char>>>,
    i: int,
    reading: ReadingModel,
)
    requires
        spaced(quasis, expressions.len() as int),
        lists.len() == expressions.len(),
        0 <= i < expressions.len(),
        stands_for(at, expressions[i], lists[i]),
        are_words(lists[i]),
        read_up_to(at, quasis, lists, i, reading),
    ensures
        ({
            let text = cooked(quasis[i])->0;
            let read = ReadingModel {
                value: reading.value + text,
                original: reading.original + text,
                ..reading
            };
            after_expression(at, expressions[i], read) matches StepModel::Read(next) && read_up_to(
                at,
                quasis,
                lists,
                i + 1,
                next,
            )
        }),
{
    let separator = Separator::Whitespace;
    let text = cooked(quasis[i])->0;
    let read = ReadingModel { value: reading.value + text, original: reading.original + text, ..reading };
    if i > 0 {
        assert(cooked(quasis[i - 1]) is Some);
        assert(opens_apart(cooked(quasis[i - 1 + 1])->0, false));
    }
    assert(closes_apart(text, i == 0));
    assert(parted(reading.value, text, separator));
    words_are_read_from_left_to_right(reading.value, text, separator);
    let here = classes_up_to(quasis, lists, i);
    let known = if i == 0 {
        seq![]
    } else {
        classes_up_to(quasis, lists, i - 1) + lists[i - 1]
    };
    assert(words(read.value, separator) == known + words(text, separator));
    if i == 0 {
        assert(known + words(text, separator) =~= words(text, separator));
    }
    assert(words(read.value, separator) == here);
    assert(read.value.len() > 0 ==> text.len() > 0 ==> read.value.last() == text.last());
    let expression = expressions[i];
    let list = lists[i];
    lemma_reference(at, expression);
    let next = (after_expression(at, expression, read))->Read_0;
    if exists|name: Seq<char>| #[trigger]
        is_reference(at, expression, name) && held(at.entries, KeyModel::Class(name)) == Some(list)
            && !at.preserved.contains(name) {
        let name = choose|name: Seq<char>| #[trigger]
            is_reference(at, expression, name) && held(at.entries, KeyModel::Class(name)) == Some(list)
                && !at.preserved.contains(name);
        let replacement = joined(list, " "@);
        assert(module_member(at, expression) == Some(name));
        assert(next.value == read.value + replacement);
        assert(parted(read.value, replacement, separator));
        words_are_read_from_left_to_right(read.value, replacement, separator);
        splitting_undoes_joining(list, separator);
        assert(next.members == reading.members.push(name));
        assert forall|m: int| 0 <= m < next.members.len() implies member_listed(
            at,
            #[trigger] next.members[m],
            here + list,
        ) by {
            if m < reading.members.len() {
                assert(next.members[m] == reading.members[m]);
                lemma_listed_longer(at, reading.members[m], known, words(text, separator));
                lemma_listed_longer(at, reading.members[m], known + words(text, separator), list);
            } else {
                assert forall|k: int| 0 <= k < list.len() implies (here + list).contains(#[trigger] list[k]) by {
                    assert((here + list)[here.len() + k] == list[k]);
                }
            }
        }
    } else {
        let own = string_value(expression)->0;
        assert(next.value == read.value + own);
        assert(parted(read.value, own, separator));
        words_are_read_from_left_to_right(read.value, own, separator);
        assert forall|m: int| 0 <= m < next.members.len() implies member_listed(
            at,
            #[trigger] next.members[m],
            here + list,
        ) by {
            assert(next.members[m] == reading.members[m]);
            lemma_listed_longer(at, reading.members[m], known, words(text, separator));
            lemma_listed_longer(at, reading.members[m], known + words(text, separator), list);
        }
    }
}

proof fn lemma_read_template(
    at: SceneModel,
    template: TreeModel,
    quasis: Seq<TreeModel>,
    expressions: Seq<TreeModel>,
    lists: Seq<Seq<Seq<char>>>,
    i: int,
    reading: ReadingModel,
)
    requires
        spaced(quasis, expressions.len() as int),
        lists.len() == expressions.len(),
        0 <= i <= expressions.len(),
        forall|k: int|
            0 <= k < expressions.len() ==> stands_for(at, #[trigger] expressions[k], lists[k]) && are_words(lists[k]),
        read_up_to(at, quasis, lists, i, reading),
    ensures
        ({
            let found = template_from(at, template, quasis, expressions, i, reading);
            let all = classes_up_to(quasis, lists, expressions.len() as int);
            &&& found is Some
            &&& (found->0).append_at is None
            &&& (found->0).preserved_expression is None
            &&& (found->0).partial_edits.len() == 0
            &&& words((found->0).value, Separator::Whitespace) == all
            &&& forall|m: int|
                0 <= m < (found->0).members.len() ==> member_listed(at, #[trigger] (found->0).members[m], all)
        }),
    decreases expressions.len() - i,
{
    let separator = Separator::Whitespace;
    let count = expressions.len() as int;
    assert(cooked(quasis[i]) is Some);
    let text = cooked(quasis[i])->0;
    let read = ReadingModel { value: reading.value + text, original: reading.original + text, ..reading };
    if i < count {
        assert(stands_for(at, expressions[i], lists[i]));
        lemma_read_expression(at, quasis, expressions, lists, i, reading);
        let next = (after_expression(at, expressions[i], read))->Read_0;
        lemma_read_template(at, template, quasis, expressions, lists, i + 1, next);
    } else {
        let known = if i == 0 {
            seq![]
        } else {
            classes_up_to(quasis, lists, i - 1) + lists[i - 1]
        };
        let all = classes_up_to(quasis, lists, count);
        if i > 0 {
            assert(cooked(quasis[i - 1]) is Some);
            assert(opens_apart(cooked(quasis[i - 1 + 1])->0, true));
        }
        assert(parted(reading.value, text, separator));
        words_are_read_from_left_to_right(reading.value, text, separator);
        if i == 0 {
            assert(known + words(text, separator) =~= words(text, separator));
        }
        assert(words(read.value, separator) == all);
        let found = finished(template, read);
        assert(template_from(at, template, quasis, expressions, i + 1, read) == Some(found));
        assert(template_from(at, template, quasis, expressions, i, reading) == Some(found));
        lemma_words_are_words(read.value, separator);
        splitting_undoes_joining(all, separator);
        assert forall|m: int| 0 <= m < found.members.len() implies member_listed(
            at,
            #[trigger] found.members[m],
            all,
        ) by {
            lemma_listed_longer(at, reading.members[m], known, words(text, separator));
        }
    }
}

/// Every match behind the first `m` names a text of the list.
pub open spec fn matches_stand_in(matches: Seq<MatchModel>, m: int, list: Seq<Seq<char>>) -> bool {
    forall|i: int| m <= i < matches.len() ==> list.contains((#[trigger] matches[i]).candidate)
}

proof fn lemma_matches_stand(
    at: SceneModel,
    members: Seq<Seq<char>>,
    span: (usize, usize),
    n: int,
    out: UsageModel,
    list: Seq<Seq<char>>,
)
    requires
        0 <= n <= members.len(),
        forall|m: int| 0 <= m < members.len() ==> member_listed(at, #[trigger] members[m], list),
    ensures
        with_member_matches(at, members, span, n, out).edits == out.edits,
        with_member_matches(at, members, span, n, out).matches.len() >= out.matches.len(),
        matches_stand_in(
            with_member_matches(at, members, span, n, out).matches,
            out.matches.len() as int,
            list,
        ),
    decreases n,
{
    if n > 0 {
        lemma_matches_stand(at, members, span, n - 1, out, list);
        let before = with_member_matches(at, members, span, n - 1, out);
        let after = with_member_matches(at, members, span, n, out);
        let candidates = held_or_none(at.entries, members[n - 1]);
        assert(member_listed(at, members[n - 1], list));
        lemma_member_match(members[n - 1], candidates, span, candidates.len() as int, before);
        let taken = candidates.take(candidates.len() as int);
        assert(taken =~= candidates);
        let b = before.matches.len() as int;
        assert forall|i: int| out.matches.len() <= i < after.matches.len() implies list.contains(
            (#[trigger] after.matches[i]).candidate,
        ) by {
            if i < b {
                assert(after.matches.take(b)[i] == after.matches[i]);
                assert(before.matches[i] == after.matches[i]);
            } else {
                assert(after.matches[b + (i - b)].candidate == taken[i - b]);
                assert(list.contains(candidates[i - b]));
            }
        }
    }
}

/// A template whose expressions stand for classes becomes one class list: what
/// the script then reads are the classes of its static parts and all candidates
/// of the classes it refers to, each at its place. Every utility that is
/// reported for the template is one of them.
pub proof fn templates_become_all_their_classes(
    at: SceneModel,
    template: TreeModel,
    lists: Seq<Seq<Seq<char>>>,
    span: (usize, usize),
    site: Site,
    out: UsageModel,
)
    requires
        ({
            let expressions = items(template, "expressions"@);
            &&& spaced(items(template, "quasis"@), expressions.len() as int)
            &&& lists.len() == expressions.len()
            &&& forall|k: int|
                0 <= k < expressions.len() ==> stands_for(at, #[trigger] expressions[k], lists[k]) && are_words(
                    lists[k],
                )
        }),
        forall|a: Seq<char>, b: Seq<char>| !#[trigger] members_conflict(at, a, b),
    ensures
        static_template_of(at, template) is Some,
        ({
            let found = static_template_of(at, template)->0;
            let after = with_template(at, found, span, site, out);
            let list = words(read_list(site, after.edits.last().replacement), Separator::Whitespace);
            &&& after.edits.len() == out.edits.len() + 1
            &&& after.edits.drop_last() == out.edits
            &&& after.edits.last().start == span.0
            &&& after.edits.last().end == span.1
            &&& list == classes_up_to(items(template, "quasis"@), lists, lists.len() as int)
            &&& matches_stand_in(after.matches, out.matches.len() as int, list)
        }),
{
    let quasis = items(template, "quasis"@);
    let expressions = items(template, "expressions"@);
    let start = no_reading();
    let none = Seq::<char>::empty();
    assert(blank(none, Separator::Whitespace));
    words_are_read_from_left_to_right(none, none, Separator::Whitespace);
    assert(start.value =~= none);
    assert(read_up_to(at, quasis, lists, 0, start));
    lemma_read_template(at, template, quasis, expressions, lists, 0, start);
    let found = static_template_of(at, template)->0;
    let all = classes_up_to(quasis, lists, lists.len() as int);
    let members = found.members;
    let n = members.len() as int;
    assert forall|j: int| 0 <= j < members.len() implies held(
        at.entries,
        KeyModel::Class(#[trigger] members[j]),
    ) is Some by {
        assert(member_listed(at, members[j], all));
    }
    lemma_no_clash(at, members, 0);
    lemma_matches_stand(at, members, span, n, out, all);
    let matched = with_member_matches(at, members, span, n, out);
    let warned = match static_clash(at, members, found.static_classes, 0) {
        Some(clash) => UsageModel {
            warnings: matched.warnings.push(
                crate::plan::conflict_warning(at.path, span.0 as int, span.1 as int, clash.0, clash.1),
            ),
            ..matched
        },
        None => matched,
    };
    lemma_rewritten(at, members, n, with_container(found, span, site, warned));
    written_lists_read_back(site, found.value);
    let after = with_template(at, found, span, site, out);
    assert(after.edits.drop_last() =~= out.edits);
    assert(after.matches == matched.matches);
}

} // verus!
