//! What the directives of an entry stylesheet say.
use crate::css::{at_name, ident_name, str_value};
use crate::css_directives::{
    between, directive_of, directives, import_directive_of, negated, source_directive_of, unquoted, with_function,
    DirectiveModel,
};
use crate::syntax::{field, items, of_kind};
use crate::text::{begins, separates, trimmed, Separator};
use crate::tree::TreeModel;
use vstd::prelude::*;

verus! {

/// Every at-rule of the stylesheet with a name is among its directives.
pub proof fn every_at_rule_is_a_directive(text: Seq<char>, statements: Seq<TreeModel>, n: int, i: int, name: Seq<char>)
    requires
        0 <= i < n <= statements.len(),
        of_kind(statements[i], "AtRule"@),
        at_name(statements[i]) == Some(name),
    ensures
        directives(text, statements, n).contains(directive_of(text, statements[i], name)),
        name != "import"@ && name != "source"@ ==> directives(text, statements, n).contains(
            DirectiveModel::Other { name },
        ),
    decreases n,
{
    let before = directives(text, statements, n - 1);
    let after = directives(text, statements, n);
    let own = directive_of(text, statements[i], name);
    if i < n - 1 {
        every_at_rule_is_a_directive(text, statements, n - 1, i, name);
        let k = choose|k: int| 0 <= k < before.len() && before[k] == own;
        assert(after[k] == own);
    } else {
        assert(after[before.len() as int] == own);
    }
}

/// An import of Tailwind is known as such: of the package itself or of a part of
/// it, and of nothing else.
pub proof fn imports_of_tailwind_are_known(text: Seq<char>, at_rule: TreeModel, target: Seq<char>)
    requires
        of_kind(field(at_rule, "prelude"@), "ImportPrelude"@),
        str_value(field(field(at_rule, "prelude"@), "href"@)) == Some(target),
    ensures
        import_directive_of(text, at_rule) matches DirectiveModel::Import { specifier, tailwind, .. } && specifier == Some(
            target,
        ) && (tailwind <==> target == "tailwindcss"@ || target.len() >= 12 && target.take(12) == "tailwindcss/"@),
{
    reveal_strlit("tailwindcss/");
    reveal_strlit("Str");
    reveal_strlit("Url");
    assert("Str"@[0] != "Url"@[0]);
    assert("tailwindcss/"@.len() == 12);
    if target.len() >= 12 {
        assert(target.take(12) =~= target.subrange(0, 12));
        if target.take(12) == "tailwindcss/"@ {
            assert(begins(target, "tailwindcss/"@));
        }
        if begins(target, "tailwindcss/"@) {
            assert(target.take(12) =~= "tailwindcss/"@);
        }
    }
}

proof fn lemma_kept(text: Seq<char>, separator: Separator)
    requires
        text.len() > 0,
        !separates(separator, text[0]),
        !separates(separator, text.last()),
    ensures
        trimmed(text, separator) == text,
{
}

proof fn lemma_behind_blank(c: char, text: Seq<char>, separator: Separator)
    requires
        separates(separator, c),
        text.len() > 0,
        !separates(separator, text[0]),
        !separates(separator, text.last()),
    ensures
        trimmed(seq![c] + text, separator) == text,
{
    let whole = seq![c] + text;
    assert(whole.drop_first() =~= text);
    lemma_kept(text, separator);
}

/// The text between quotes.
pub open spec fn in_quotes(quote: char, scope: Seq<char>) -> Seq<char> {
    seq![quote] + scope + seq![quote]
}

proof fn lemma_unquoted(quote: char, scope: Seq<char>)
    requires
        quote == '"' || quote == '\'',
    ensures
        unquoted(in_quotes(quote, scope)) == Some(scope),
{
    reveal_strlit("\"");
    reveal_strlit("'");
    let text = in_quotes(quote, scope);
    let mark = seq![quote];
    let rest = scope + mark;
    assert(text.subrange(0, 1) =~= mark);
    assert(text.skip(1) =~= rest);
    assert(rest.subrange(rest.len() - 1, rest.len() as int) =~= mark);
    assert(rest.take(rest.len() - 1) =~= scope);
    if quote == '"' {
        assert("\""@ =~= mark);
        assert(between(text, "\""@) == Some(scope));
    } else {
        assert("'"@ =~= mark);
        assert(between(text, "'"@) == Some(scope));
        assert(text[0] != "\""@[0]);
        assert(!begins(text, "\""@)) by {
            if begins(text, "\""@) {
                assert(text.subrange(0, 1)[0] == text[0]);
            }
        }
    }
}

/// A quoted scope is read as it stands, with either kind of quotes, and a `not`
/// before it excludes it.
pub proof fn quoted_scopes_are_read(quote: char, scope: Seq<char>)
    requires
        quote == '"' || quote == '\'',
        scope.len() > 0,
    ensures
        source_directive_of(in_quotes(quote, scope)) == (DirectiveModel::Source {
            not: false,
            inline: false,
            scope: Some(scope),
            unreadable: false,
        }),
        source_directive_of("not "@ + in_quotes(quote, scope)) == (DirectiveModel::Source {
            not: true,
            inline: false,
            scope: Some(scope),
            unreadable: false,
        }),
{
    reveal_strlit("not");
    reveal_strlit("not ");
    reveal_strlit("inline(");
    let text = in_quotes(quote, scope);
    let white = Separator::Whitespace;
    assert(text[0] == quote && text.last() == quote);
    lemma_kept(text, white);
    lemma_unquoted(quote, scope);
    assert(!begins(text, "not"@)) by {
        if begins(text, "not"@) {
            assert(text.subrange(0, 3)[0] == 'n');
        }
    }
    assert(!begins(text, "inline("@)) by {
        if begins(text, "inline("@) {
            assert(text.subrange(0, 7)[0] == 'i');
        }
    }
    let whole = "not "@ + text;
    assert(whole[0] == 'n' && whole.last() == quote);
    lemma_kept(whole, white);
    assert(whole.subrange(0, 3) =~= "not"@);
    assert(whole.skip(3) =~= seq![' '] + text);
    lemma_behind_blank(' ', text, white);
    assert(negated(whole) == (true, text));
}

/// A list that is written inline names no scope, and a prelude that is nothing
/// of all this cannot be read.
pub proof fn inline_lists_name_no_scope(list: Seq<char>)
    requires
        list.len() > 0,
        !separates(Separator::Whitespace, list.last()),
    ensures
        source_directive_of("inline("@ + list) == (DirectiveModel::Source {
            not: false,
            inline: true,
            scope: None,
            unreadable: false,
        }),
        source_directive_of(seq![]) == (DirectiveModel::Source { not: false, inline: false, scope: None, unreadable: true }),
{
    reveal_strlit("inline(");
    reveal_strlit("not");
    reveal_strlit("\"");
    reveal_strlit("'");
    let whole = "inline("@ + list;
    lemma_kept(whole, Separator::Whitespace);
    assert(whole.subrange(0, 7) =~= "inline("@);
    assert(!begins(whole, "not"@)) by {
        if begins(whole, "not"@) {
            assert(whole.subrange(0, 3)[0] == 'n');
        }
    }
    let none = Seq::<char>::empty();
    assert(trimmed(none, Separator::Whitespace) == none);
    assert(!begins(none, "not"@));
    assert(!begins(none, "inline("@));
    assert(!begins(none, "\""@));
    assert(!begins(none, "'"@));
}

/// A `source(...)` function names the path between its quotes, or none; any
/// other form of it cannot be read, and that is not forgotten.
pub proof fn source_functions_name_a_path(known: (Option<Seq<char>>, bool), function: TreeModel)
    requires
        ident_name(field(function, "name"@)) == Some("source"@),
    ensures
        ({
            let args = items(function, "args"@);
            let after = with_function(known, function);
            &&& args.len() == 1 && str_value(args[0]) is Some ==> after == (str_value(args[0]), known.1)
            &&& args.len() == 1 && ident_name(args[0]) == Some("none"@) ==> after == (Some("none"@), known.1)
            &&& args.len() != 1 ==> after == (known.0, true)
        }),
{
    reveal_strlit("Str");
    reveal_strlit("Ident");
    assert("Str"@.len() != "Ident"@.len());
}

} // verus!
