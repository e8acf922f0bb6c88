//! What becomes of templates that keep some of their references.
use crate::edit::EditModel;
use crate::js_rewrite::{
    after_expression, missing_from, module_member, no_reading, static_template_of, template_from, with_container,
    ReadingModel, SceneModel, Site, StepModel, TemplateModel, UsageModel,
};
use crate::json::json_quoted;
use crate::markup_laws::stays_ahead;
use crate::plan::held;
use crate::script_laws::{are_words, is_reference, json_read, lemma_reference, quoted_texts_read_back};
use crate::selector::KeyModel;
use crate::syntax::{items, span_of};
use crate::text::{is_word, joined, splitting_undoes_joining, words, Separator};
use crate::text_laws::words_are_read_from_left_to_right;
use crate::tree::TreeModel;
use vstd::prelude::*;

verus! {

// ---------------------------------------------------------------------------
// Reading
// ---------------------------------------------------------------------------

/// Nothing that was read is lost.
pub open spec fn reads_on(before: ReadingModel, after: ReadingModel) -> bool {
    &&& stays_ahead(before.members, after.members)
    &&& stays_ahead(before.member_edits, after.member_edits)
    &&& stays_ahead(before.preserved_candidates, after.preserved_candidates)
    &&& before.partial ==> after.partial
}

proof fn lemma_step(at: SceneModel, expression: TreeModel, reading: ReadingModel)
    ensures
        after_expression(at, expression, reading) matches StepModel::Read(next) ==> reads_on(reading, next),
{
}

/// The reference was rewritten, or its candidates are kept for later.
pub open spec fn is_settled(
    at: SceneModel,
    expression: TreeModel,
    name: Seq<char>,
    candidates: Seq<Seq<char>>,
    edits: Seq<EditModel>,
    kept: Seq<Seq<char>>,
) -> bool {
    if at.preserved.contains(name) {
        forall|i: int| 0 <= i < candidates.len() ==> kept.contains(#[trigger] candidates[i])
    } else {
        exists|k: int|
            0 <= k < edits.len() && (#[trigger] edits[k]).start == span_of(expression).0 && edits[k].end == span_of(
                expression,
            ).1 && json_read(edits[k].replacement) == joined(candidates, " "@)
    }
}

proof fn lemma_settled_stays(
    at: SceneModel,
    expression: TreeModel,
    name: Seq<char>,
    candidates: Seq<Seq<char>>,
    a: ReadingModel,
    b: ReadingModel,
)
    requires
        reads_on(a, b),
        is_settled(at, expression, name, candidates, a.member_edits, a.preserved_candidates),
    ensures
        is_settled(at, expression, name, candidates, b.member_edits, b.preserved_candidates),
{
    if at.preserved.contains(name) {
        assert forall|i: int| 0 <= i < candidates.len() implies b.preserved_candidates.contains(
            #[trigger] candidates[i],
        ) by {
            assert(a.preserved_candidates.contains(candidates[i]));
            let k = choose|k: int| 0 <= k < a.preserved_candidates.len() && a.preserved_candidates[k] == candidates[i];
            assert(b.preserved_candidates[k] == candidates[i]);
        }
    } else {
        let k = choose|k: int|
            0 <= k < a.member_edits.len() && (#[trigger] a.member_edits[k]).start == span_of(expression).0
                && a.member_edits[k].end == span_of(expression).1 && json_read(a.member_edits[k].replacement) == joined(
                candidates,
                " "@,
            );
        assert(b.member_edits[k] == a.member_edits[k]);
    }
}

proof fn lemma_template(
    at: SceneModel,
    template: TreeModel,
    quasis: Seq<TreeModel>,
    expressions: Seq<TreeModel>,
    i: int,
    reading: ReadingModel,
    k: int,
    name: Seq<char>,
    candidates: Seq<Seq<char>>,
)
    requires
        0 <= i <= quasis.len(),
        0 <= k < expressions.len(),
        k < quasis.len(),
        is_reference(at, expressions[k], name),
        held(at.entries, KeyModel::Class(name)) == Some(candidates),
        template_from(at, template, quasis, expressions, i, reading) matches Some(found) && found.append_at is Some,
        k < i ==> is_settled(
            at,
            expressions[k],
            name,
            candidates,
            reading.member_edits,
            reading.preserved_candidates,
        ),
    ensures
        template_from(at, template, quasis, expressions, i, reading) matches Some(found) && is_settled(
            at,
            expressions[k],
            name,
            candidates,
            found.partial_edits,
            found.preserved_candidates,
        ),
    decreases quasis.len() - i,
{
    if i < quasis.len() {
        let cooked = crate::syntax::text_field(crate::syntax::field(quasis[i], "value"@), "cooked"@)->0;
        let read = ReadingModel {
            value: reading.value + cooked,
            original: reading.original + cooked,
            ..reading
        };
        if i >= expressions.len() {
            lemma_template(at, template, quasis, expressions, i + 1, read, k, name, candidates);
        } else {
            lemma_step(at, expressions[i], read);
            if let StepModel::Read(next) = after_expression(at, expressions[i], read) {
                if k < i {
                    lemma_settled_stays(at, expressions[k], name, candidates, read, next);
                } else if k == i {
                    lemma_reference(at, expressions[k]);
                    assert(module_member(at, expressions[k]) == Some(name));
                    if at.preserved.contains(name) {
                        assert forall|j: int| 0 <= j < candidates.len() implies next.preserved_candidates.contains(
                            #[trigger] candidates[j],
                        ) by {
                            assert(next.preserved_candidates[read.preserved_candidates.len() + j] == candidates[j]);
                        }
                    } else {
                        quoted_texts_read_back(joined(candidates, " "@));
                        let e = read.member_edits.len() as int;
                        assert(next.member_edits[e].start == span_of(expressions[k]).0);
                    }
                }
                lemma_template(at, template, quasis, expressions, i + 1, next, k, name, candidates);
            }
        }
    }
}

/// A template that keeps some of its expressions settles every reference in it:
/// one that no other rule needs is replaced where it stands by a text with all
/// its candidates, and the candidates of one that stays are kept for the end.
pub proof fn partial_templates_settle_every_reference(
    at: SceneModel,
    template: TreeModel,
    k: int,
    name: Seq<char>,
    candidates: Seq<Seq<char>>,
)
    requires
        0 <= k < items(template, "expressions"@).len(),
        k < items(template, "quasis"@).len(),
        is_reference(at, items(template, "expressions"@)[k], name),
        held(at.entries, KeyModel::Class(name)) == Some(candidates),
        static_template_of(at, template) matches Some(found) && found.append_at is Some,
    ensures
        static_template_of(at, template) matches Some(found) && is_settled(
            at,
            items(template, "expressions"@)[k],
            name,
            candidates,
            found.partial_edits,
            found.preserved_candidates,
        ),
{
    lemma_template(
        at,
        template,
        items(template, "quasis"@),
        items(template, "expressions"@),
        0,
        no_reading(),
        k,
        name,
        candidates,
    );
}

// ---------------------------------------------------------------------------
// Writing
// ---------------------------------------------------------------------------

proof fn lemma_missing(list: Seq<Seq<char>>, known: Seq<Seq<char>>)
    ensures
        forall|x: Seq<char>| #[trigger]
            missing_from(list, known).contains(x) <==> list.contains(x) && !known.contains(x),
    decreases list.len(),
{
    let after = missing_from(list, known);
    if list.len() > 0 {
        let shorter = list.drop_last();
        lemma_missing(shorter, known);
        let before = missing_from(shorter, known);
        assert forall|x: Seq<char>| #[trigger] after.contains(x) <==> list.contains(x) && !known.contains(x) by {
            assert(before.contains(x) <==> shorter.contains(x) && !known.contains(x));
            if after.contains(x) {
                let k = choose|k: int| 0 <= k < after.len() && after[k] == x;
                if k < before.len() {
                    assert(before[k] == x);
                    let m = choose|m: int| 0 <= m < shorter.len() && shorter[m] == x;
                    assert(list[m] == x);
                } else {
                    assert(list[list.len() - 1] == x);
                }
            }
            if list.contains(x) && !known.contains(x) {
                let m = choose|m: int| 0 <= m < list.len() && list[m] == x;
                if m < list.len() - 1 {
                    assert(shorter[m] == x);
                    let k = choose|k: int| 0 <= k < before.len() && before[k] == x;
                    assert(after[k] == x);
                } else {
                    assert(after[before.len() as int] == x);
                }
            }
        }
    } else {
        assert forall|x: Seq<char>| !(#[trigger] after.contains(x)) && !list.contains(x) by {}
    }
}

/// The expression that an edit inserts into a template.
pub open spec fn inserted_text(replacement: Seq<char>) -> Seq<char> {
    json_read(replacement.subrange(2, replacement.len() - 1))
}

/// A template that keeps references gains their candidates at its end: all those
/// that the template does not name yet, and nothing else. The edits of its other
/// references are all made.
pub proof fn kept_references_gain_their_candidates(
    template: TemplateModel,
    place: int,
    span: (usize, usize),
    site: Site,
    out: UsageModel,
)
    requires
        template.preserved_expression is None,
        template.append_at == Some(place),
        are_words(template.preserved_candidates),
    ensures
        ({
            let after = with_container(template, span, site, out);
            let made = after.edits.skip(out.edits.len() as int);
            &&& stays_ahead(out.edits, after.edits)
            &&& stays_ahead(template.partial_edits, made)
            &&& if forall|i: int|
                0 <= i < template.preserved_candidates.len() ==> template.static_classes.contains(
                    #[trigger] template.preserved_candidates[i],
                ) {
                made == template.partial_edits
            } else {
                let last = made.last();
                let list = words(inserted_text(last.replacement), Separator::Whitespace);
                &&& made.len() == template.partial_edits.len() + 1
                &&& last.start == place
                &&& last.end == place
                &&& last.replacement.len() > 3
                &&& last.replacement.take(2) == "${"@
                &&& last.replacement.last() == '}'
                &&& forall|x: Seq<char>| #[trigger]
                    list.contains(x) <==> template.preserved_candidates.contains(x) && !template.static_classes.contains(x)
            }
        }),
{
    reveal_strlit("${");
    reveal_strlit("}");
    reveal_strlit(" ");
    let list = template.preserved_candidates;
    let missing = missing_from(list, template.static_classes);
    lemma_missing(list, template.static_classes);
    let after = with_container(template, span, site, out);
    let made = after.edits.skip(out.edits.len() as int);
    let text = joined(missing, " "@);
    let quoted = json_quoted(" "@ + text);
    if missing.len() > 0 {
        let edits = template.partial_edits.push(
            EditModel { start: place, end: place, replacement: "${"@ + quoted + "}"@ },
        );
        assert(made =~= edits);
        let written = "${"@ + quoted + "}"@;
        assert(written.subrange(2, written.len() - 1) =~= quoted);
        assert(written.take(2) =~= "${"@);
        quoted_texts_read_back(" "@ + text);
        assert forall|i: int| 0 <= i < missing.len() implies is_word(#[trigger] missing[i], Separator::Whitespace) by {
            assert(missing.contains(missing[i]));
            let k = choose|k: int| 0 <= k < list.len() && list[k] == missing[i];
            assert(is_word(list[k], Separator::Whitespace));
        }
        splitting_undoes_joining(missing, Separator::Whitespace);
        lemma_leading_blank(text);
        assert(words(" "@ + text, Separator::Whitespace) == missing);
        assert(missing.contains(missing[0]));
        let k = choose|k: int| 0 <= k < list.len() && list[k] == missing[0];
        assert(!template.static_classes.contains(list[k]));
    } else {
        assert(made =~= template.partial_edits);
        assert forall|i: int| 0 <= i < list.len() implies template.static_classes.contains(#[trigger] list[i]) by {
            if !template.static_classes.contains(list[i]) {
                assert(list.contains(list[i]));
                assert(missing.contains(list[i]));
            }
        }
    }
}

proof fn lemma_leading_blank(text: Seq<char>)
    ensures
        words(" "@ + text, Separator::Whitespace) == words(text, Separator::Whitespace),
{
    reveal_strlit(" ");
    words_are_read_from_left_to_right(" "@, text, Separator::Whitespace);
    let none = Seq::<Seq<char>>::empty();
    assert(none + words(text, Separator::Whitespace) =~= words(text, Separator::Whitespace));
}

} // verus!
