//! Media queries mean what was written.
use crate::media::{
    branch_from, branch_key, branch_of, branches_of, condition_key, condition_of, conditions_from, double_condition,
    feature_ident, ident_of, key_parts, media_condition, normalized, parts_from, plain_condition, query_branches,
    range_condition, simple_width, BranchModel, Comparison, ConditionModel, Modifier, TokenModel,
};
use crate::media::css_trimmed;
use crate::number::NumbersModel;
use crate::text::{ascii_lowered, joined};
use vstd::prelude::*;

verus! {

// ---------------------------------------------------------------------------
// Conditions
// ---------------------------------------------------------------------------

/// The comparison of two numbers.
pub open spec fn compares(op: Comparison, a: int, b: int) -> bool {
    match op {
        Comparison::Lt => a < b,
        Comparison::Lte => a <= b,
        Comparison::Gt => a > b,
        Comparison::Gte => a >= b,
        Comparison::Eq => a == b,
    }
}

/// The condition holds where the features and values have these sizes.
pub open spec fn admits(condition: ConditionModel, size: spec_fn(Seq<char>) -> int) -> bool {
    match condition {
        ConditionModel::Plain { feature, value } => size(feature) == size(value),
        ConditionModel::Boolean { feature } => size(feature) != 0,
        ConditionModel::Range { feature, op, value } => compares(op, size(feature), size(value)),
        ConditionModel::DoubleRange { low, low_op, feature, high_op, high } => compares(low_op, size(low), size(feature))
            && compares(high_op, size(feature), size(high)),
    }
}

/// The size of what stands on a side of a comparison.
pub open spec fn side(numbers: NumbersModel, text: Seq<char>, is_feature: bool, size: spec_fn(Seq<char>) -> int) -> int {
    if is_feature {
        size(ident_of(text))
    } else {
        size(normalized(numbers, text))
    }
}

/// A comparison holds for the same sizes as it was written, whichever side the
/// feature stands on.
pub proof fn comparisons_keep_their_meaning(
    numbers: NumbersModel,
    left: Seq<char>,
    op: Comparison,
    right: Seq<char>,
    size: spec_fn(Seq<char>) -> int,
)
    ensures
        match range_condition(numbers, left, op, right) {
            Some(condition) => condition is Range && (if feature_ident(ident_of(left)) && css_trimmed(right).len() > 0 {
                admits(condition, size) == compares(
                    op,
                    side(numbers, left, true, size),
                    side(numbers, right, false, size),
                )
            } else {
                admits(condition, size) == compares(
                    op,
                    side(numbers, left, false, size),
                    side(numbers, right, true, size),
                )
            }),
            None => !(feature_ident(ident_of(left)) && css_trimmed(right).len() > 0) && !(feature_ident(
                ident_of(right),
            ) && css_trimmed(left).len() > 0),
        },
{
}

/// A feature between two bounds is held between them, in whichever direction
/// the bounds were written; bounds in different directions are none.
pub proof fn bounds_keep_their_meaning(
    numbers: NumbersModel,
    low: Seq<char>,
    low_op: Comparison,
    feature: Seq<char>,
    high_op: Comparison,
    high: Seq<char>,
    size: spec_fn(Seq<char>) -> int,
)
    ensures
        match double_condition(numbers, low, low_op, feature, high_op, high) {
            Some(condition) => {
                &&& admits(condition, size) == (compares(
                    low_op,
                    size(normalized(numbers, low)),
                    size(ident_of(feature)),
                ) && compares(high_op, size(ident_of(feature)), size(normalized(numbers, high))))
                &&& compares(low_op, 0, 1) == compares(high_op, 0, 1)
                &&& compares(low_op, 0, 1) != compares(low_op, 1, 0)
                &&& condition matches ConditionModel::DoubleRange { low_op, high_op, .. } && compares(low_op, 0, 1)
                    && compares(high_op, 0, 1)
            },
            None => true,
        },
{
}

/// The old width features are bounds of the width: `min-width` from below and
/// `max-width` from above, both with the bound itself. Other features keep
/// their name and value.
pub proof fn old_widths_are_bounds(
    numbers: NumbersModel,
    feature: Seq<char>,
    value: Seq<char>,
    size: spec_fn(Seq<char>) -> int,
)
    ensures
        match plain_condition(numbers, feature, value) {
            Some(condition) => {
                let bound = size(normalized(numbers, value));
                if ident_of(feature) == "min-width"@ {
                    admits(condition, size) == (size("width"@) >= bound)
                } else if ident_of(feature) == "max-width"@ {
                    admits(condition, size) == (size("width"@) <= bound)
                } else {
                    condition == (ConditionModel::Plain {
                        feature: ident_of(feature),
                        value: normalized(numbers, value),
                    })
                }
            },
            None => !feature_ident(ident_of(feature)) || normalized(numbers, value).len() == 0,
        },
{
    reveal_strlit("min-width");
    reveal_strlit("max-width");
    assert("min-width"@[1] != "max-width"@[1]);
}

// ---------------------------------------------------------------------------
// Branches
// ---------------------------------------------------------------------------

/// How many groups are among the tokens from `i` on.
pub open spec fn groups(tokens: Seq<TokenModel>, i: int) -> Seq<Seq<char>>
    decreases tokens.len() - i,
{
    if i < 0 || i >= tokens.len() {
        seq![]
    } else {
        match tokens[i] {
            TokenModel::Group(content) => seq![content] + groups(tokens, i + 1),
            TokenModel::Word(_) => groups(tokens, i + 1),
        }
    }
}

proof fn lemma_conditions(numbers: NumbersModel, tokens: Seq<TokenModel>, i: int)
    requires
        0 <= i <= tokens.len(),
        conditions_from(numbers, tokens, i) is Some,
    ensures
        ({
            let conditions = conditions_from(numbers, tokens, i)->0;
            let contents = groups(tokens, i);
            &&& conditions.len() == contents.len()
            &&& forall|k: int|
                0 <= k < contents.len() ==> condition_of(numbers, #[trigger] contents[k]) == Some(conditions[k])
        }),
    decreases tokens.len() - i,
{
    if i < tokens.len() {
        let content = tokens[i]->Group_0;
        let contents = groups(tokens, i);
        let conditions = conditions_from(numbers, tokens, i)->0;
        if i + 1 == tokens.len() {
            assert(groups(tokens, i + 1).len() == 0);
        } else {
            lemma_conditions(numbers, tokens, i + 2);
            assert(tokens[i + 1] is Word);
            assert(groups(tokens, i + 1) == groups(tokens, i + 2));
            let rest = groups(tokens, i + 2);
            assert forall|k: int| 0 <= k < contents.len() implies condition_of(numbers, #[trigger] contents[k]) == Some(
                conditions[k],
            ) by {
                if k > 0 {
                    assert(contents[k] == rest[k - 1]);
                }
            }
        }
    }
}

/// A branch has one condition for each pair of parentheses, read from what
/// stands between them, in order. It is negated exactly where it starts with
/// `not`, and its media type is the word before the conditions.
pub proof fn branches_keep_all_conditions(numbers: NumbersModel, tokens: Seq<TokenModel>)
    ensures
        match branch_from(numbers, tokens) {
            Some(branch) => {
                let contents = groups(tokens, 0);
                &&& branch.conditions.len() == contents.len()
                &&& forall|k: int|
                    0 <= k < contents.len() ==> condition_of(numbers, #[trigger] contents[k]) == Some(
                        branch.conditions[k],
                    )
                &&& branch.modifier == Some(Modifier::Not) <==> tokens.len() > 0 && (tokens[0] matches TokenModel::Word(
                    word,
                ) && ascii_lowered(word) == "not"@)
                &&& branch.modifier == Some(Modifier::Only) <==> tokens.len() > 0 && (tokens[0] matches TokenModel::Word(
                    word,
                ) && ascii_lowered(word) == "only"@)
                &&& branch.media_type matches Some(name) ==> exists|k: int|
                    0 <= k <= 1 && k < tokens.len() && (#[trigger] tokens[k] matches TokenModel::Word(word)
                        && ascii_lowered(word) == name)
                &&& branch.media_type is None ==> forall|k: int|
                    0 <= k < tokens.len() && #[trigger] tokens[k] is Word ==> k > 0 && tokens[k - 1] is Group || (k == 0
                        && branch.modifier is Some)
            },
            None => true,
        },
{
    reveal_strlit("not");
    reveal_strlit("only");
    assert("not"@.len() != "only"@.len());
    if branch_from(numbers, tokens) is Some {
        let branch = branch_from(numbers, tokens)->0;
        let start: int = if branch.modifier is Some {
            1
        } else {
            0
        };
        let typed = crate::media::type_of(tokens, start)->0;
        assert(0 <= typed.1 <= tokens.len()) by {
            if branch.modifier is Some {
                assert(tokens.len() > 0);
            }
        }
        lemma_conditions(numbers, tokens, typed.1);
        assert(groups(tokens, 0) == groups(tokens, start));
        if typed.0 is Some {
            assert(tokens[start] is Word);
            assert(groups(tokens, start) == groups(tokens, start + 1));
            if typed.1 == start + 2 {
                assert(tokens[start + 1] is Word);
                assert(groups(tokens, start + 1) == groups(tokens, start + 2));
            }
        } else {
            lemma_words(numbers, tokens, start);
        }
    }
}

proof fn lemma_words(numbers: NumbersModel, tokens: Seq<TokenModel>, i: int)
    requires
        0 <= i <= tokens.len(),
        conditions_from(numbers, tokens, i) is Some,
    ensures
        forall|k: int| i <= k < tokens.len() && #[trigger] tokens[k] is Word ==> k > i && tokens[k - 1] is Group,
    decreases tokens.len() - i,
{
    if i + 1 < tokens.len() {
        lemma_words(numbers, tokens, i + 2);
    }
}

// ---------------------------------------------------------------------------
// Queries
// ---------------------------------------------------------------------------

proof fn lemma_parts_whole(text: Seq<char>, separator: char, start: int, i: int, depth: int)
    requires
        0 <= start <= i <= text.len(),
        parts_from(text, separator, start, i, depth) is Some,
    ensures
        parts_from(text, separator, start, i, depth)->0.len() > 0,
        joined(parts_from(text, separator, start, i, depth)->0, seq![separator]) == text.skip(start),
    decreases text.len() - i,
{
    let parts = parts_from(text, separator, start, i, depth)->0;
    if i >= text.len() {
        lemma_joined_one(text.subrange(start, text.len() as int), seq![separator]);
        assert(text.subrange(start, text.len() as int) =~= text.skip(start));
    } else if text[i] == '(' {
        lemma_parts_whole(text, separator, start, i + 1, depth + 1);
    } else if text[i] == ')' {
        lemma_parts_whole(text, separator, start, i + 1, depth - 1);
    } else if text[i] == separator && depth == 0 {
        lemma_parts_whole(text, separator, i + 1, i + 1, 0);
        let rest = parts_from(text, separator, i + 1, i + 1, 0)->0;
        lemma_joined_front(text.subrange(start, i), rest, seq![separator]);
        assert(text.subrange(start, i) + seq![separator] + text.skip(i + 1) =~= text.skip(start));
    } else {
        lemma_parts_whole(text, separator, start, i + 1, depth);
    }
}

proof fn lemma_joined_one(text: Seq<char>, glue: Seq<char>)
    ensures
        joined(seq![text], glue) == text,
{
    lemma_joined_is(seq![text], glue);
}

proof fn lemma_joined_is(list: Seq<Seq<char>>, glue: Seq<char>)
    ensures
        list.len() == 1 ==> joined(list, glue) == list[0],
        list.len() > 1 ==> joined(list, glue) == joined(list.drop_last(), glue) + glue + list.last(),
{
    if list.len() == 1 {
        assert(joined(list, glue) =~= list[0]);
    }
}

proof fn lemma_joined_front(first: Seq<char>, rest: Seq<Seq<char>>, glue: Seq<char>)
    requires
        rest.len() > 0,
    ensures
        joined(seq![first] + rest, glue) == first + glue + joined(rest, glue),
    decreases rest.len(),
{
    let list = seq![first] + rest;
    lemma_joined_is(list, glue);
    lemma_joined_is(rest, glue);
    if rest.len() == 1 {
        assert(list.drop_last() =~= seq![first]);
        lemma_joined_one(first, glue);
        assert(rest =~= seq![rest[0]]);
        assert(list.last() == rest[0]);
        assert(joined(list, glue) =~= first + glue + joined(rest, glue));
    } else {
        let fewer = rest.drop_last();
        lemma_joined_front(first, fewer, glue);
        assert(list.drop_last() =~= seq![first] + fewer);
        assert(list.last() == rest.last());
        assert(joined(list, glue) =~= first + glue + joined(rest, glue));
    }
}

proof fn lemma_branches(numbers: NumbersModel, parts: Seq<Seq<char>>, n: int)
    requires
        0 <= n <= parts.len(),
        branches_of(numbers, parts, n) is Some,
    ensures
        branches_of(numbers, parts, n)->0.len() == n,
        forall|i: int|
            0 <= i < n ==> branch_of(numbers, #[trigger] parts[i]) == Some(branches_of(numbers, parts, n)->0[i]),
    decreases n,
{
    if n > 0 {
        lemma_branches(numbers, parts, n - 1);
        let before = branches_of(numbers, parts, n - 1)->0;
        let after = branches_of(numbers, parts, n)->0;
        assert forall|i: int| 0 <= i < n implies branch_of(numbers, #[trigger] parts[i]) == Some(after[i]) by {
            if i < n - 1 {
                assert(after[i] == before[i]);
            }
        }
    }
}

/// The parts of a query stand for it, and a branch was read from each.
pub open spec fn written_by(
    numbers: NumbersModel,
    parts: Seq<Seq<char>>,
    branches: Seq<BranchModel>,
    query: Seq<char>,
) -> bool {
    &&& parts.len() > 0
    &&& branches.len() == parts.len()
    &&& joined(parts, seq![',']) == query
    &&& forall|i: int| 0 <= i < parts.len() ==> branch_of(numbers, #[trigger] parts[i]) == Some(branches[i])
}

/// A query is read whole: its branches are those of the parts between its
/// commas, none is left out, and its key lists them all in order.
pub proof fn queries_are_read_whole(numbers: NumbersModel, query: Seq<char>)
    ensures
        match media_condition(numbers, query) {
            Some(media) => exists|parts: Seq<Seq<char>>, branches: Seq<BranchModel>|
                {
                    &&& #[trigger] written_by(numbers, parts, branches, css_trimmed(query))
                    &&& media.key == joined(Seq::new(branches.len(), |i: int| branch_key(branches[i])), ", "@)
                    &&& media.simple_min_width is Some ==> branches.len() == 1
                },
            None => true,
        },
{
    if media_condition(numbers, query) is Some {
        let text = css_trimmed(query);
        let parts = parts_from(text, ',', 0, 0, 0)->0;
        let branches = query_branches(numbers, query)->0;
        lemma_parts_whole(text, ',', 0, 0, 0);
        assert(text.skip(0) =~= text);
        lemma_branches(numbers, parts, parts.len() as int);
        assert(written_by(numbers, parts, branches, text));
        assert(crate::media::branch_keys(branches) =~= Seq::new(branches.len(), |i: int| branch_key(branches[i])));
    }
}

/// A branch is a plain minimum width exactly where it is nothing but a lower
/// bound of the width by a length that is not negative; the bound is that
/// length as it stands in the branch's key.
pub proof fn minimum_widths_are_lower_bounds(
    numbers: NumbersModel,
    branch: BranchModel,
)
    ensures
        match simple_width(numbers, branch) {
            Some(width) => {
                &&& branch_key(branch) == "(width >= "@ + width.value + ")"@
                &&& !(width.number.len() > 0 && width.number[0] == '-') || width.number == "-0"@
            },
            None => true,
        },
{
    if simple_width(numbers, branch) is Some {
        let width = simple_width(numbers, branch)->0;
        reveal_strlit("(width >= ");
        reveal_strlit("width");
        reveal_strlit(">=");
        reveal_strlit(" ");
        reveal_strlit("(");
        reveal_strlit("-");
        let parts = key_parts(branch, 1);
        assert(key_parts(branch, 0).len() == 0);
        assert(parts =~= seq![condition_key(branch.conditions[0])]);
        lemma_joined_one(condition_key(branch.conditions[0]), " "@);
        assert(condition_key(branch.conditions[0]) =~= "(width >= "@ + width.value + ")"@);
        if width.number.len() > 0 && width.number[0] == '-' {
            assert(width.number.take(1) =~= "-"@);
        }
    }
}

} // verus!
