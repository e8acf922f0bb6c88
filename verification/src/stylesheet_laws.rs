//! What a stylesheet is found to refer to, define and let escape.
use crate::css::{
    at_name, block_statements, css_span, has_block, ident_name, in_block, present, span_in, str_value, StylesheetSyntax,
};
use crate::css_plan::part;
use crate::rule_laws::lemma_all_named;
use crate::stylesheet::{
    both, component_text, definitions, escape_facts, escapes, facts, from_index, import_href, inner_parts, loading,
    prelude_facts, rule_facts, rule_selectors, selector_facts, selector_unread, sheet_analysis, statement_facts,
    tokens_in, FactsModel, ImportModel,
};
use crate::syntax::{field, items, of_kind};
use crate::tree::TreeModel;
use vstd::prelude::*;

verus! {

proof fn lemma_kinds()
    ensures
        "QualifiedRule"@ != "AtRule"@,
        "QualifiedRule"@ != "Declaration"@,
        "AtRule"@ != "Declaration"@,
{
    reveal_strlit("QualifiedRule");
    reveal_strlit("AtRule");
    reveal_strlit("Declaration");
    assert("QualifiedRule"@.len() != "AtRule"@.len());
    assert("QualifiedRule"@.len() != "Declaration"@.len());
    assert("AtRule"@.len() != "Declaration"@.len());
}

/// Everything in the first list is in the second.
pub open spec fn within(a: Seq<Seq<char>>, b: Seq<Seq<char>>) -> bool {
    forall|i: int| 0 <= i < a.len() ==> b.contains(#[trigger] a[i])
}

/// Everything that `a` says is said by `b`.
pub open spec fn said(a: FactsModel, b: FactsModel) -> bool {
    &&& within(a.references, b.references)
    &&& a.unverifiable ==> b.unverifiable
    &&& within(a.scope_escapes, b.scope_escapes)
    &&& within(a.scope_shadow_css, b.scope_shadow_css)
    &&& a.scope_escapes_unverifiable ==> b.scope_escapes_unverifiable
    &&& a.selectors_unverifiable ==> b.selectors_unverifiable
    &&& a.escaping ==> b.escaping
}

proof fn lemma_within(a: Seq<Seq<char>>, b: Seq<Seq<char>>, c: Seq<Seq<char>>)
    ensures
        within(a, b) && within(b, c) ==> within(a, c),
        within(a, a + b),
        within(b, a + b),
{
    if within(a, b) && within(b, c) {
        assert forall|i: int| 0 <= i < a.len() implies c.contains(#[trigger] a[i]) by {
            let k = choose|k: int| 0 <= k < b.len() && b[k] == a[i];
            assert(c.contains(b[k]));
        }
    }
    assert forall|i: int| 0 <= i < a.len() implies (a + b).contains(#[trigger] a[i]) by {
        assert((a + b)[i] == a[i]);
    }
    assert forall|i: int| 0 <= i < b.len() implies (a + b).contains(#[trigger] b[i]) by {
        assert((a + b)[a.len() + i] == b[i]);
    }
}

proof fn lemma_said(a: FactsModel, b: FactsModel, c: FactsModel)
    requires
        said(a, b),
        said(b, c),
    ensures
        said(a, c),
{
    lemma_within(a.references, b.references, c.references);
    lemma_within(a.scope_escapes, b.scope_escapes, c.scope_escapes);
    lemma_within(a.scope_shadow_css, b.scope_shadow_css, c.scope_shadow_css);
}

proof fn lemma_both(a: FactsModel, b: FactsModel)
    ensures
        said(a, both(a, b)),
        said(b, both(a, b)),
{
    lemma_within(a.references, b.references, a.references);
    lemma_within(a.scope_escapes, b.scope_escapes, a.scope_escapes);
    lemma_within(a.scope_shadow_css, b.scope_shadow_css, a.scope_shadow_css);
}

/// The statement is one of the first `n`, or stands in the block of one of
/// them that is a rule.
pub open spec fn stands_in(statements: Seq<TreeModel>, n: nat, statement: TreeModel) -> bool
    decreases statements, n,
{
    n != 0 && n <= statements.len() && {
        let last = statements[n - 1];
        ||| last == statement
        ||| stands_in(statements, (n - 1) as nat, statement)
        ||| (of_kind(last, "AtRule"@) || of_kind(last, "QualifiedRule"@)) && in_block(statements, last) && stands_in(
            block_statements(last),
            block_statements(last).len(),
            statement,
        )
    }
}

/// What the statement says, whatever its block says.
pub open spec fn says(source: Seq<char>, statement: TreeModel, all: FactsModel) -> bool {
    exists|inside: FactsModel| said(#[trigger] statement_facts(source, statement, inside), all)
}

proof fn lemma_inside(source: Seq<char>, statement: TreeModel, inside: FactsModel)
    requires
        of_kind(statement, "AtRule"@) || of_kind(statement, "QualifiedRule"@),
    ensures
        said(inside, statement_facts(source, statement, inside)),
{
    lemma_kinds();
    if of_kind(statement, "AtRule"@) {
        lemma_both(prelude_facts(field(statement, "prelude"@)), inside);
    } else {
        let selectors = rule_selectors(statement);
        let own = selector_facts(source, selectors, selectors.len() as int);
        let known = both(own, inside);
        let result = rule_facts(source, statement, inside);
        lemma_both(own, inside);
        assert forall|i: int| 0 <= i < known.scope_shadow_css.len() implies result.scope_shadow_css.contains(
            #[trigger] known.scope_shadow_css[i],
        ) by {
            assert(result.scope_shadow_css[i] == known.scope_shadow_css[i]);
        }
        lemma_within(known.references, known.references, known.references);
        assert(within(known.references, result.references)) by {
            assert forall|i: int| 0 <= i < known.references.len() implies result.references.contains(
                #[trigger] known.references[i],
            ) by {
                assert(result.references[i] == known.references[i]);
            }
        }
        assert(within(known.scope_escapes, result.scope_escapes)) by {
            assert forall|i: int| 0 <= i < known.scope_escapes.len() implies result.scope_escapes.contains(
                #[trigger] known.scope_escapes[i],
            ) by {
                assert(result.scope_escapes[i] == known.scope_escapes[i]);
            }
        }
        lemma_said(inside, known, result);
    }
}

proof fn lemma_says(source: Seq<char>, statements: Seq<TreeModel>, n: nat, statement: TreeModel)
    requires
        stands_in(statements, n, statement),
    ensures
        says(source, statement, facts(source, statements, n)),
    decreases statements, n,
{
    let last = statements[n - 1];
    let before = facts(source, statements, (n - 1) as nat);
    let inside = if in_block(statements, last) {
        facts(source, block_statements(last), block_statements(last).len())
    } else {
        crate::stylesheet::no_facts()
    };
    let own = statement_facts(source, last, inside);
    lemma_both(before, own);
    let all = facts(source, statements, n);
    if last == statement {
        assert(said(statement_facts(source, statement, inside), all));
    } else if stands_in(statements, (n - 1) as nat, statement) {
        lemma_says(source, statements, (n - 1) as nat, statement);
        let deep = choose|deep: FactsModel| said(#[trigger] statement_facts(source, statement, deep), before);
        lemma_said(statement_facts(source, statement, deep), before, all);
    } else {
        lemma_says(source, block_statements(last), block_statements(last).len(), statement);
        let deep = choose|deep: FactsModel| said(#[trigger] statement_facts(source, statement, deep), inside);
        lemma_inside(source, last, inside);
        lemma_said(statement_facts(source, statement, deep), inside, own);
        lemma_said(statement_facts(source, statement, deep), own, all);
    }
}

/// The statement names the other stylesheet: it imports, uses or forwards it,
/// or composes a class of it.
pub open spec fn refers_to(statement: TreeModel, target: Seq<char>) -> bool {
    let prelude = field(statement, "prelude"@);
    let values = items(statement, "value"@);
    ||| of_kind(statement, "AtRule"@) && (of_kind(prelude, "ImportPrelude"@) || of_kind(prelude, "LessImportPrelude"@))
        && str_value(field(prelude, "href"@)) == Some(target)
    ||| of_kind(statement, "AtRule"@) && (of_kind(prelude, "SassUse"@) || of_kind(prelude, "SassForward"@)) && str_value(
        field(prelude, "path"@),
    ) == Some(target)
    ||| of_kind(statement, "Declaration"@) && ident_name(field(statement, "name"@)) == Some("composes"@) && exists|i: int|
        0 < i < values.len() && #[trigger] str_value(values[i]) == Some(target) && ident_name(values[i - 1]) == Some(
            "from"@,
        ) && forall|j: int| 0 <= j < i - 1 ==> ident_name(#[trigger] values[j]) != Some("from"@)
}

proof fn lemma_from(values: Seq<TreeModel>, i: int, k: int)
    requires
        0 <= i <= k < values.len(),
        ident_name(values[k]) == Some("from"@),
        forall|j: int| i <= j < k ==> ident_name(#[trigger] values[j]) != Some("from"@),
    ensures
        from_index(values, i) == k,
    decreases k - i,
{
    if i < k {
        lemma_from(values, i + 1, k);
    }
}

proof fn lemma_prelude_kinds()
    ensures
        "ImportPrelude"@ != "SassUse"@,
        "ImportPrelude"@ != "SassForward"@,
        "LessImportPrelude"@ != "SassUse"@,
        "LessImportPrelude"@ != "SassForward"@,
        "SassImportPrelude"@ != "SassUse"@,
        "SassImportPrelude"@ != "SassForward"@,
        "Str"@ != "Url"@,
        "Str"@ != "Ident"@,
{
    reveal_strlit("ImportPrelude");
    reveal_strlit("LessImportPrelude");
    reveal_strlit("SassImportPrelude");
    reveal_strlit("SassUse");
    reveal_strlit("SassForward");
    reveal_strlit("Str");
    reveal_strlit("Url");
    reveal_strlit("Ident");
    assert("ImportPrelude"@.len() == 13);
    assert("SassUse"@.len() == 7);
    assert("SassForward"@.len() == 11);
    assert("LessImportPrelude"@.len() == 17);
    assert("SassImportPrelude"@.len() == 17);
    assert("Str"@[0] == 'S' && "Url"@[0] == 'U');
    assert("Str"@.len() != "Ident"@.len());
}

/// Every stylesheet that some statement names, at whatever depth, is among the
/// references.
pub proof fn every_reference_is_found(
    source: Seq<char>,
    syntax: StylesheetSyntax,
    statements: Seq<TreeModel>,
    statement: TreeModel,
    target: Seq<char>,
)
    requires
        stands_in(statements, statements.len(), statement),
        refers_to(statement, target),
    ensures
        sheet_analysis(source, syntax, statements).references.contains(target),
{
    lemma_kinds();
    lemma_prelude_kinds();
    lemma_says(source, statements, statements.len(), statement);
    let all = facts(source, statements, statements.len());
    let inside = choose|inside: FactsModel| said(#[trigger] statement_facts(source, statement, inside), all);
    let own = statement_facts(source, statement, inside);
    let prelude = field(statement, "prelude"@);
    let none = Seq::<Seq<char>>::empty();
    if of_kind(statement, "AtRule"@) {
        let first = prelude_facts(prelude);
        lemma_both(first, inside);
        assert(first.references == seq![target]);
        assert(own.references.contains(first.references[0]));
    } else {
        let values = items(statement, "value"@);
        let i = choose|i: int|
            0 < i < values.len() && #[trigger] str_value(values[i]) == Some(target) && ident_name(values[i - 1]) == Some(
                "from"@,
            ) && forall|j: int| 0 <= j < i - 1 ==> ident_name(#[trigger] values[j]) != Some("from"@);
        lemma_from(values, 0, i - 1);
        assert(ident_name(values[i]) is None);
        assert(own.references == seq![target]);
        assert(own.references[0] == target);
    }
    assert(all.references.contains(target)) by {
        let k = choose|k: int| 0 <= k < own.references.len() && own.references[k] == target;
        assert(all.references.contains(own.references[k]));
    }
    lemma_all_named(none, all.references);
}

/// An import whose target cannot be read makes the stylesheet unverifiable,
/// wherever it stands.
pub proof fn unread_imports_are_not_passed_over(
    source: Seq<char>,
    syntax: StylesheetSyntax,
    statements: Seq<TreeModel>,
    statement: TreeModel,
)
    requires
        stands_in(statements, statements.len(), statement),
        of_kind(statement, "AtRule"@),
        ({
            let prelude = field(statement, "prelude"@);
            ||| (of_kind(prelude, "ImportPrelude"@) || of_kind(prelude, "LessImportPrelude"@)) && !of_kind(
                field(prelude, "href"@),
                "Str"@,
            ) && !of_kind(field(prelude, "href"@), "Url"@)
            ||| (of_kind(prelude, "SassUse"@) || of_kind(prelude, "SassForward"@)) && !of_kind(
                field(prelude, "path"@),
                "Str"@,
            )
        }),
    ensures
        sheet_analysis(source, syntax, statements).unverifiable,
{
    lemma_kinds();
    lemma_prelude_kinds();
    lemma_says(source, statements, statements.len(), statement);
    let all = facts(source, statements, statements.len());
    let inside = choose|inside: FactsModel| said(#[trigger] statement_facts(source, statement, inside), all);
    lemma_both(prelude_facts(field(statement, "prelude"@)), inside);
}

// ---------------------------------------------------------------------------
// Selectors
// ---------------------------------------------------------------------------

proof fn lemma_selector(source: Seq<char>, selectors: Seq<TreeModel>, n: int, k: int)
    requires
        0 <= k < n <= selectors.len(),
    ensures
        said(
            escapes(source, selectors[k], inner_parts(selectors[k]).len()),
            FactsModel { selectors_unverifiable: true, ..selector_facts(source, selectors, n) },
        ),
        selector_unread(selectors[k]) ==> selector_facts(source, selectors, n).selectors_unverifiable,
    decreases n,
{
    let before = selector_facts(source, selectors, n - 1);
    let last = FactsModel {
        selectors_unverifiable: selector_unread(selectors[n - 1]),
        ..escapes(source, selectors[n - 1], inner_parts(selectors[n - 1]).len())
    };
    let after = selector_facts(source, selectors, n);
    let open = FactsModel { selectors_unverifiable: true, ..after };
    lemma_both(before, last);
    let own = escapes(source, selectors[k], inner_parts(selectors[k]).len());
    if k < n - 1 {
        lemma_selector(source, selectors, n - 1, k);
        let before_open = FactsModel { selectors_unverifiable: true, ..before };
        assert(said(before_open, open));
        lemma_said(own, before_open, open);
    } else {
        assert(said(FactsModel { selectors_unverifiable: own.selectors_unverifiable, ..last }, open));
    }
}

/// A rule with a name in its selector that is only known after compilation
/// makes the selectors unverifiable, wherever the rule stands.
pub proof fn unread_selectors_are_not_passed_over(
    source: Seq<char>,
    syntax: StylesheetSyntax,
    statements: Seq<TreeModel>,
    rule: TreeModel,
    i: int,
    j: int,
    k: int,
)
    requires
        stands_in(statements, statements.len(), rule),
        of_kind(rule, "QualifiedRule"@),
        0 <= i < rule_selectors(rule).len(),
        ({
            let selector = rule_selectors(rule)[i];
            let compound = items(selector, "children"@)[j];
            let simple = items(compound, "children"@)[k];
            &&& 0 <= j < items(selector, "children"@).len()
            &&& of_kind(compound, "CompoundSelector"@)
            &&& 0 <= k < items(compound, "children"@).len()
            &&& of_kind(simple, "ClassSelector"@) || of_kind(simple, "IdSelector"@)
            &&& !of_kind(field(simple, "name"@), "Ident"@)
        }),
    ensures
        sheet_analysis(source, syntax, statements).selectors_unverifiable,
{
    lemma_kinds();
    lemma_says(source, statements, statements.len(), rule);
    let all = facts(source, statements, statements.len());
    let inside = choose|inside: FactsModel| said(#[trigger] statement_facts(source, rule, inside), all);
    let selectors = rule_selectors(rule);
    let selector = selectors[i];
    assert(of_kind(items(selector, "children"@)[j], "CompoundSelector"@));
    let compound = items(selector, "children"@)[j];
    assert(crate::stylesheet::simple_unread(items(compound, "children"@)[k]));
    assert(crate::stylesheet::compound_unread(compound));
    assert(selector_unread(selector));
    lemma_selector(source, selectors, selectors.len() as int, i);
}

/// The simple selector reaches beyond the scope of its component.
pub open spec fn reaches_out(simple: TreeModel) -> bool {
    &&& of_kind(simple, "PseudoClassSelector"@) || of_kind(simple, "PseudoElementSelector"@)
    &&& ident_name(field(simple, "name"@)) matches Some(name) && (name == "deep"@ || name == "global"@ || name
        == "slotted"@ || name == "v-deep"@ || name == "v-global"@ || name == "v-slotted"@)
}

proof fn lemma_escapes(source: Seq<char>, node: TreeModel, n: nat, k: int)
    requires
        0 <= k < n <= inner_parts(node).len(),
    ensures
        reaches_out(inner_parts(node)[k]) ==> said(
            escape_facts(source, inner_parts(node)[k]),
            escapes(source, node, n),
        ),
        !reaches_out(inner_parts(node)[k]) && !crate::stylesheet::piercing(inner_parts(node)[k]) && crate::syntax::lies_in(
            node,
            inner_parts(node)[k],
        ) ==> said(
            escapes(source, inner_parts(node)[k], inner_parts(inner_parts(node)[k]).len()),
            escapes(source, node, n),
        ),
    decreases n,
{
    let child = inner_parts(node)[n - 1];
    let before = escapes(source, node, (n - 1) as nat);
    let after = escapes(source, node, n);
    lemma_both(before, escape_facts(source, child));
    lemma_both(
        before,
        FactsModel { scope_escapes_unverifiable: true, escaping: true, ..crate::stylesheet::no_facts() },
    );
    lemma_both(before, escapes(source, child, inner_parts(child).len()));
    assert(said(before, before)) by {
        assert forall|i: int| 0 <= i < before.references.len() implies before.references.contains(
            #[trigger] before.references[i],
        ) by {}
        assert forall|i: int| 0 <= i < before.scope_escapes.len() implies before.scope_escapes.contains(
            #[trigger] before.scope_escapes[i],
        ) by {}
        assert forall|i: int| 0 <= i < before.scope_shadow_css.len() implies before.scope_shadow_css.contains(
            #[trigger] before.scope_shadow_css[i],
        ) by {}
    }
    assert(said(before, after));
    if k < n - 1 {
        lemma_escapes(source, node, (n - 1) as nat, k);
        let own = inner_parts(node)[k];
        if reaches_out(own) {
            lemma_said(escape_facts(source, own), before, after);
        } else if !crate::stylesheet::piercing(own) && crate::syntax::lies_in(node, own) {
            lemma_said(escapes(source, own, inner_parts(own).len()), before, after);
        }
    }
}

/// What a selector reaches beyond its scope is known: the argument of `:deep`,
/// `:global` or `:slotted` is among the escapes, wherever the rule stands, and
/// one without an argument makes them unverifiable.
pub proof fn every_escape_is_found(
    source: Seq<char>,
    syntax: StylesheetSyntax,
    statements: Seq<TreeModel>,
    rule: TreeModel,
    i: int,
    j: int,
    k: int,
)
    requires
        stands_in(statements, statements.len(), rule),
        of_kind(rule, "QualifiedRule"@),
        0 <= i < rule_selectors(rule).len(),
        ({
            let selector = rule_selectors(rule)[i];
            let compound = items(selector, "children"@)[j];
            &&& of_kind(selector, "ComplexSelector"@)
            &&& 0 <= j < items(selector, "children"@).len()
            &&& of_kind(compound, "CompoundSelector"@)
            &&& 0 <= k < items(compound, "children"@).len()
            &&& reaches_out(items(compound, "children"@)[k])
        }),
    ensures
        ({
            let found = sheet_analysis(source, syntax, statements);
            let simple = items(items(rule_selectors(rule)[i], "children"@)[j], "children"@)[k];
            let arg = field(simple, "arg"@);
            if present(arg) {
                found.scope_escapes.contains(
                    part(source, span_in(arg, "lParen"@).1 as int, span_in(arg, "rParen"@).0 as int) + " {}"@,
                )
            } else {
                found.scope_escapes_unverifiable
            }
        }),
{
    lemma_kinds();
    reveal_strlit("CompoundSelector");
    reveal_strlit("PseudoClassSelector");
    reveal_strlit("PseudoElementSelector");
    reveal_strlit("Combinator");
    assert("CompoundSelector"@.len() == 16);
    assert("PseudoClassSelector"@.len() == 19);
    assert("PseudoElementSelector"@.len() == 21);
    assert("Combinator"@.len() == 10);
    lemma_says(source, statements, statements.len(), rule);
    let all = facts(source, statements, statements.len());
    let inside = choose|inside: FactsModel| said(#[trigger] statement_facts(source, rule, inside), all);
    let selectors = rule_selectors(rule);
    let selector = selectors[i];
    let compound = items(selector, "children"@)[j];
    let simple = items(compound, "children"@)[k];
    assert(inner_parts(selector)[j] == compound);
    assert(inner_parts(compound)[k] == simple);
    lemma_escapes(source, compound, inner_parts(compound).len(), k);
    crate::stylesheet::lemma_parts_inside(selector, j);
    lemma_escapes(source, selector, inner_parts(selector).len(), j);
    let first = escape_facts(source, simple);
    let middle = escapes(source, compound, inner_parts(compound).len());
    let whole = escapes(source, selector, inner_parts(selector).len());
    lemma_said(first, middle, whole);
    lemma_selector(source, selectors, selectors.len() as int, i);
    let own = selector_facts(source, selectors, selectors.len() as int);
    let open = FactsModel { selectors_unverifiable: true, ..own };
    lemma_said(first, whole, open);
    lemma_both(own, inside);
    let result = rule_facts(source, rule, inside);
    if present(field(simple, "arg"@)) {
        assert(own.scope_escapes.contains(first.scope_escapes[0]));
        let m = choose|m: int| 0 <= m < own.scope_escapes.len() && own.scope_escapes[m] == first.scope_escapes[0];
        assert(result.scope_escapes.contains(own.scope_escapes[m])) by {
            assert(result.scope_escapes[m] == own.scope_escapes[m]);
        }
        let p = choose|p: int| 0 <= p < result.scope_escapes.len() && result.scope_escapes[p] == first.scope_escapes[0];
        assert(all.scope_escapes.contains(result.scope_escapes[p]));
    }
}

// ---------------------------------------------------------------------------
// Imports that load
// ---------------------------------------------------------------------------

/// An import may still follow the statement.
pub open spec fn lets_imports_follow(statement: TreeModel) -> bool {
    of_kind(statement, "AtRule"@) && (of_kind(field(statement, "prelude"@), "ImportPrelude"@) || !has_block(statement))
}

proof fn lemma_open(source: Seq<char>, statements: Seq<TreeModel>, n: int)
    requires
        0 <= n <= statements.len(),
    ensures
        loading(source, statements, n).open <==> forall|i: int| 0 <= i < n ==> lets_imports_follow(#[trigger] statements[i]),
    decreases n,
{
    if n > 0 {
        lemma_open(source, statements, n - 1);
        if loading(source, statements, n).open {
            assert forall|i: int| 0 <= i < n implies lets_imports_follow(#[trigger] statements[i]) by {}
        }
    }
}

proof fn lemma_loading_stays(source: Seq<char>, statements: Seq<TreeModel>, k: int, n: int)
    requires
        0 <= k <= n <= statements.len(),
    ensures
        loading(source, statements, k).imports.len() <= loading(source, statements, n).imports.len(),
        forall|i: int|
            0 <= i < loading(source, statements, k).imports.len() ==> #[trigger] loading(source, statements, n).imports[i]
                == loading(source, statements, k).imports[i],
    decreases n - k,
{
    if k < n {
        lemma_loading_stays(source, statements, k, n - 1);
        let before = loading(source, statements, n - 1).imports;
        let after = loading(source, statements, n).imports;
        let first = loading(source, statements, k).imports;
        assert forall|i: int| 0 <= i < first.len() implies #[trigger] after[i] == first[i] by {
            assert(after[i] == before[i]);
        }
    }
}

/// The target is loaded by an import that starts there.
pub open spec fn loads(imports: Seq<ImportModel>, target: Seq<char>, start: int) -> bool {
    exists|k: int| 0 <= k < imports.len() && (#[trigger] imports[k]).href == target && imports[k].start == start
}

/// An import loads where only imports and at-rules without blocks stand before
/// it: its target is then among those of the stylesheet, at the place of the
/// statement.
pub proof fn leading_imports_load(source: Seq<char>, statements: Seq<TreeModel>, i: int, target: Seq<char>)
    requires
        0 <= i < statements.len(),
        of_kind(statements[i], "AtRule"@),
        of_kind(field(statements[i], "prelude"@), "ImportPrelude"@),
        str_value(field(field(statements[i], "prelude"@), "href"@)) == Some(target),
        forall|j: int| 0 <= j < i ==> lets_imports_follow(#[trigger] statements[j]),
    ensures
        loads(
            sheet_analysis(source, StylesheetSyntax::Css, statements).imports,
            target,
            css_span(statements[i]).0 as int,
        ),
{
    lemma_prelude_kinds();
    lemma_open(source, statements, i);
    lemma_loading_stays(source, statements, i + 1, statements.len() as int);
    let own = loading(source, statements, i + 1).imports;
    let all = loading(source, statements, statements.len() as int).imports;
    let k = own.len() - 1;
    assert(import_href(field(field(statements[i], "prelude"@), "href"@)) == Some(target));
    assert(own[k].href == target);
    assert(all[k] == own[k]);
    assert(sheet_analysis(source, StylesheetSyntax::Css, statements).imports == all);
}

// ---------------------------------------------------------------------------
// Theme tokens
// ---------------------------------------------------------------------------

/// The statement is among the first `n`, or in the block of an at-rule that is.
pub open spec fn at_stands_in(statements: Seq<TreeModel>, n: nat, statement: TreeModel) -> bool
    decreases statements, n,
{
    n != 0 && n <= statements.len() && {
        let last = statements[n - 1];
        ||| last == statement
        ||| at_stands_in(statements, (n - 1) as nat, statement)
        ||| of_kind(last, "AtRule"@) && has_block(last) && in_block(statements, last) && at_stands_in(
            block_statements(last),
            block_statements(last).len(),
            statement,
        )
    }
}

proof fn lemma_tokens(source: Seq<char>, statements: Seq<TreeModel>, n: int, i: int, token: Seq<char>)
    requires
        0 <= i < n <= statements.len(),
        of_kind(statements[i], "Declaration"@),
        ident_name(field(statements[i], "name"@)) == Some("--"@ + token),
    ensures
        tokens_in(source, statements, n).contains((token, component_text(source, statements[i]))),
    decreases n,
{
    let before = tokens_in(source, statements, n - 1);
    let after = tokens_in(source, statements, n);
    if i < n - 1 {
        lemma_tokens(source, statements, n - 1, i, token);
        let pair = (token, component_text(source, statements[i]));
        let k = choose|k: int| 0 <= k < before.len() && before[k] == pair;
        assert(after[k] == pair);
    } else {
        let name = "--"@ + token;
        assert(name.take("--"@.len() as int) =~= "--"@);
        assert(name.skip("--"@.len() as int) =~= token);
        assert(crate::text::without_prefix(name, "--"@) == Some(token));
        assert(after[before.len() as int] == (token, component_text(source, statements[i])));
    }
}

proof fn lemma_defined(
    source: Seq<char>,
    syntax: StylesheetSyntax,
    statements: Seq<TreeModel>,
    n: nat,
    theme: TreeModel,
    pair: (Seq<char>, Seq<char>),
)
    requires
        at_stands_in(statements, n, theme),
        of_kind(theme, "AtRule"@),
        has_block(theme),
        at_name(theme) == Some("theme"@),
        tokens_in(source, block_statements(theme), block_statements(theme).len() as int).contains(pair),
    ensures
        definitions(source, syntax, statements, n).tokens.contains(pair),
    decreases statements, n,
{
    let last = statements[n - 1];
    let before = definitions(source, syntax, statements, (n - 1) as nat);
    let after = definitions(source, syntax, statements, n);
    let inside = if in_block(statements, last) {
        definitions(source, syntax, block_statements(last), block_statements(last).len())
    } else {
        crate::stylesheet::no_definitions()
    };
    let own = crate::stylesheet::own_definitions(source, syntax, last);
    if last == theme {
        let k = choose|k: int| 0 <= k < own.tokens.len() && own.tokens[k] == pair;
        assert(after.tokens[before.tokens.len() + k] == pair);
    } else if at_stands_in(statements, (n - 1) as nat, theme) {
        lemma_defined(source, syntax, statements, (n - 1) as nat, theme, pair);
        let k = choose|k: int| 0 <= k < before.tokens.len() && before.tokens[k] == pair;
        assert(after.tokens[k] == pair);
    } else {
        lemma_defined(source, syntax, block_statements(last), block_statements(last).len(), theme, pair);
        let k = choose|k: int| 0 <= k < inside.tokens.len() && inside.tokens[k] == pair;
        assert(after.tokens[before.tokens.len() + own.tokens.len() + k] == pair);
    }
}

/// Every custom property of every `@theme` block is a theme token, under its
/// name without the hyphens and with its value as it is written.
pub proof fn theme_blocks_define_their_tokens(
    source: Seq<char>,
    syntax: StylesheetSyntax,
    statements: Seq<TreeModel>,
    theme: TreeModel,
    i: int,
    token: Seq<char>,
)
    requires
        at_stands_in(statements, statements.len(), theme),
        of_kind(theme, "AtRule"@),
        has_block(theme),
        at_name(theme) == Some("theme"@),
        0 <= i < block_statements(theme).len(),
        of_kind(block_statements(theme)[i], "Declaration"@),
        ident_name(field(block_statements(theme)[i], "name"@)) == Some("--"@ + token),
    ensures
        definitions(source, syntax, statements, statements.len()).tokens.contains(
            (token, component_text(source, block_statements(theme)[i])),
        ),
{
    lemma_tokens(source, block_statements(theme), block_statements(theme).len() as int, i, token);
    lemma_defined(
        source,
        syntax,
        statements,
        statements.len(),
        theme,
        (token, component_text(source, block_statements(theme)[i])),
    );
}

} // verus!
