//! Values and the names a theme has for them.
use crate::names::lemma_precedes_transitive;
use crate::text::{lemma_precedes_total, precedes, trimmed, Separator};
use crate::theme::{dimension_of, least_name, number_char, theme_token, unit_start};
use vstd::prelude::*;

verus! {

proof fn lemma_unit_start(text: Seq<char>, i: int)
    requires
        0 <= i <= text.len(),
    ensures
        i <= unit_start(text, i) <= text.len(),
        forall|k: int| i <= k < unit_start(text, i) ==> number_char(#[trigger] text[k]),
        unit_start(text, i) < text.len() ==> !number_char(text[unit_start(text, i)]),
    decreases text.len() - i,
{
    if i < text.len() && number_char(text[i]) {
        lemma_unit_start(text, i + 1);
    }
}

/// A dimension is its number and its unit: written one behind the other they
/// are the value again, but for a point that no digit follows. The unit starts
/// where the digits, points and signs end.
pub proof fn dimensions_are_a_number_and_a_unit(value: Seq<char>)
    ensures
        match dimension_of(value) {
            Some(parts) => {
                &&& parts.0 + parts.1 == value || parts.0 + seq!['.'] + parts.1 == value
                &&& parts.1.len() > 0
                &&& !number_char(parts.1[0])
                &&& forall|i: int| 0 <= i < parts.0.len() ==> number_char(#[trigger] parts.0[i])
            },
            None => true,
        },
{
    lemma_unit_start(value, 0);
    let split = unit_start(value, 0);
    if dimension_of(value) is Some {
        let parts = dimension_of(value)->0;
        let number = value.take(split);
        assert(number + value.skip(split) =~= value);
        if parts.0 != number {
            assert(parts.0 + seq!['.'] =~= number);
        }
    }
}

/// The token names the value in the namespace.
pub open spec fn names(token: (Seq<char>, Seq<char>), namespace: Seq<char>, value: Seq<char>, name: Seq<char>) -> bool {
    token.0 == namespace + seq!['-'] + name && trimmed(token.1, Separator::Whitespace) == value
}

proof fn lemma_least(
    tokens: Seq<(Seq<char>, Seq<char>)>,
    namespace: Seq<char>,
    value: Seq<char>,
    n: int,
)
    requires
        0 <= n <= tokens.len(),
    ensures
        match least_name(tokens, namespace + "-"@, value, n) {
            Some(name) => {
                &&& exists|i: int| 0 <= i < n && names(#[trigger] tokens[i], namespace, value, name)
                &&& forall|i: int, other: Seq<char>|
                    0 <= i < n && #[trigger] names(tokens[i], namespace, value, other) ==> other == name || precedes(
                        name,
                        other,
                    )
            },
            None => forall|i: int, other: Seq<char>| 0 <= i < n ==> !(#[trigger] names(tokens[i], namespace, value, other)),
        },
    decreases n,
{
    reveal_strlit("-");
    assert("-"@ =~= seq!['-']);
    let prefix = namespace + "-"@;
    if n > 0 {
        lemma_least(tokens, namespace, value, n - 1);
        let before = least_name(tokens, prefix, value, n - 1);
        let after = least_name(tokens, prefix, value, n);
        let token = tokens[n - 1];
        let name = token.0.skip(prefix.len() as int);
        let fits = crate::theme::names_value(token, prefix, value);
        assert forall|other: Seq<char>| #[trigger] names(token, namespace, value, other) implies fits && other == name by {
            assert(token.0.take(prefix.len() as int) =~= prefix);
            assert(token.0.skip(prefix.len() as int) =~= other);
        }
        if fits {
            assert(token.0 =~= namespace + seq!['-'] + name);
            assert(names(token, namespace, value, name));
        }
        if let Some(best) = after {
            if before == Some(best) {
                let i = choose|i: int| 0 <= i < n - 1 && names(#[trigger] tokens[i], namespace, value, best);
                assert(names(tokens[i], namespace, value, best));
            } else {
                assert(names(tokens[n - 1], namespace, value, best));
            }
            assert forall|i: int, other: Seq<char>|
                0 <= i < n && #[trigger] names(tokens[i], namespace, value, other) implies other == best || precedes(
                best,
                other,
            ) by {
                if i == n - 1 {
                    if before is Some && before != Some(name) {
                        assert(before->0.take(0) =~= name.take(0));
                        lemma_precedes_total(name, before->0, 0);
                    }
                } else if before != Some(best) {
                    if other != before->0 {
                        lemma_precedes_transitive(best, before->0, other, 0);
                    }
                }
            }
        }
    }
}

/// A theme's name for a value is that of a token of the namespace with that very
/// value, and the first of those names in order. Where no token has the value,
/// only the spacing scale may name it.
pub proof fn themes_name_their_own_values(
    namespace: Seq<char>,
    value: Seq<char>,
    tokens: Seq<(Seq<char>, Seq<char>)>,
    quotient: Option<Seq<char>>,
)
    ensures
        match theme_token(namespace, value, tokens, quotient) {
            Some(name) => {
                ||| (namespace == "spacing"@ && quotient == Some(name) && forall|i: int, other: Seq<char>|
                    0 <= i < tokens.len() ==> !(#[trigger] names(tokens[i], namespace, value, other)))
                ||| {
                    &&& exists|i: int| 0 <= i < tokens.len() && names(#[trigger] tokens[i], namespace, value, name)
                    &&& forall|i: int, other: Seq<char>|
                        0 <= i < tokens.len() && #[trigger] names(tokens[i], namespace, value, other) ==> other == name
                            || precedes(name, other)
                }
            },
            None => forall|i: int, other: Seq<char>|
                0 <= i < tokens.len() ==> !(#[trigger] names(tokens[i], namespace, value, other)),
        },
{
    lemma_least(tokens, namespace, value, tokens.len() as int);
}

} // verus!
