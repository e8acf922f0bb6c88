//! Keys of media conditions are canonical: reading a key again gives the same
//! condition.
use crate::media::{
    branch_from, branch_key, branch_keys, branch_of, branches_of, chain_from, collapsed, comparisons, condition_key,
    condition_of, conditions_from, css_trimmed, double_condition, feature_ident, group_end, ident_char, ident_of,
    in_front, in_word, key_parts, keyword_at, media_condition, modifier_of, normalized, operator_at, parts_from,
    query_branches, range_condition, reserved, split_once, tokens_from, type_of, word_end, BranchModel, ChainModel,
    Comparison, ConditionModel, Modifier, TokenModel,
};
use crate::media_scan::{
    balanced, behind, depth_at, first_operator, ignores_space, lemma_balanced_concat, lemma_chain_found,
    lemma_chain_scan, lemma_collapsed_depth, lemma_collapsed_ends, lemma_depth_both, lemma_depth_part,
    lemma_depth_split, lemma_depth_weaken, lemma_group_balanced, lemma_group_found, lemma_group_scan,
    lemma_level_balanced, lemma_neat_collapsed, lemma_neat_concat, lemma_neat_joined, lemma_neat_spaced,
    lemma_parts_scan, lemma_once_found, lemma_once_scan, lemma_space, level, neat, operator_char, stops, unspaced,
    Stop,
};
use crate::media_values::{
    ignores_canonical, lemma_normalized_nonempty, lemma_normalized_settled, settled, spellings_settle,
};
use crate::number::NumbersModel;
use crate::text::{ascii_lower, ascii_lowered, ascii_whitespace, begins, joined, separates, without_prefix, Separator};
use vstd::prelude::*;

verus! {

// ---------------------------------------------------------------------------
// Names and signs
// ---------------------------------------------------------------------------

proof fn lemma_ident(name: Seq<char>)
    requires
        feature_ident(name),
    ensures
        name.len() > 0,
        forall|i: int| 0 <= i < name.len() ==> ident_char(#[trigger] name[i]),
        unspaced(name),
        neat(name),
        ascii_lowered(name) == name,
{
    reveal_strlit("-");
    if let Some(rest) = without_prefix(name, "-"@) {
        assert(name[0] == "-"@[0]) by {
            assert(name.subrange(0, 1)[0] == name[0]);
        }
        assert forall|i: int| 0 <= i < name.len() implies ident_char(#[trigger] name[i]) by {
            if i > 0 {
                assert(ident_char(rest[i - 1]));
            }
        }
    }
    assert forall|i: int| 0 <= i < name.len() implies !ascii_whitespace(#[trigger] name[i]) by {
        assert(ident_char(name[i]));
    }
    assert forall|i: int| 0 <= i < name.len() implies ascii_lower(#[trigger] name[i]) == name[i] by {
        assert(ident_char(name[i]));
    }
    assert(ascii_lowered(name) =~= name);
}

/// A scan that names do not stop.
spec fn ignores_idents(stop: Stop) -> bool {
    forall|c: char| #[trigger] ident_char(c) ==> !stops(stop, c)
}

proof fn lemma_ident_balanced(name: Seq<char>, stop: Stop)
    requires
        feature_ident(name),
        ignores_idents(stop),
    ensures
        balanced(name, stop),
        level(name, stop),
{
    lemma_ident(name);
    assert forall|i: int| 0 <= i < name.len() implies (#[trigger] name[i]) != '(' && name[i] != ')' && !stops(
        stop,
        name[i],
    ) by {
        assert(ident_char(name[i]));
    }
    lemma_level_balanced(name, stop);
}

/// A name between spaces is read as itself.
proof fn lemma_ident_of(name: Seq<char>)
    requires
        feature_ident(name),
    ensures
        ident_of(name) == name,
        ident_of(name + seq![' ']) == name,
        ident_of(seq![' '] + name + seq![' ']) == name,
{
    lemma_ident(name);
    let separator = Separator::AsciiWhitespace;
    assert(!separates(separator, name[0]));
    assert(!separates(separator, name[name.len() - 1]));
    assert(css_trimmed(name) == name);
    let behind = name + seq![' '];
    assert(behind[0] == name[0]);
    assert(behind.last() == ' ');
    assert(behind.drop_last() =~= name);
    assert(css_trimmed(behind) == name);
    let between = seq![' '] + name + seq![' '];
    assert(between[0] == ' ');
    assert(between.drop_first() =~= behind);
    assert(css_trimmed(between) == name);
}

/// The characters of a comparison's sign.
spec fn sign(op: Comparison) -> Seq<char> {
    match op {
        Comparison::Lt => seq!['<'],
        Comparison::Lte => seq!['<', '='],
        Comparison::Gt => seq!['>'],
        Comparison::Gte => seq!['>', '='],
        Comparison::Eq => seq!['='],
    }
}

proof fn lemma_sign(op: Comparison)
    ensures
        op.symbol_text() == sign(op),
{
    reveal_strlit("<");
    reveal_strlit("<=");
    reveal_strlit(">");
    reveal_strlit(">=");
    reveal_strlit("=");
    assert(op.symbol_text() =~= sign(op));
}

/// A sign with a space behind it is read as its comparison.
proof fn lemma_operator(text: Seq<char>, i: int, op: Comparison)
    requires
        0 <= i,
        i + sign(op).len() < text.len(),
        text.subrange(i, i + sign(op).len()) == sign(op),
        text[i + sign(op).len()] == ' ',
    ensures
        operator_at(text, i) == Some((op, i + sign(op).len())),
        operator_char(text[i]),
{
    let part = text.subrange(i, i + sign(op).len());
    assert(part[0] == text[i]);
    assert(sign(op)[0] == text[i]);
    if sign(op).len() > 1 {
        assert(part[1] == text[i + 1]);
        assert(sign(op)[1] == text[i + 1]);
    }
}

// ---------------------------------------------------------------------------
// Conditions that were read
// ---------------------------------------------------------------------------

/// A condition as reading makes it.
pub open spec fn condition_settled(numbers: NumbersModel, condition: ConditionModel) -> bool {
    match condition {
        ConditionModel::Plain { feature, value } => {
            &&& feature_ident(feature)
            &&& feature != "min-width"@
            &&& feature != "max-width"@
            &&& settled(numbers, value, Stop::Nothing)
        },
        ConditionModel::Boolean { feature } => feature_ident(feature),
        ConditionModel::Range { feature, op, value } => feature_ident(feature) && settled(
            numbers,
            value,
            Stop::Nothing,
        ),
        ConditionModel::DoubleRange { low, low_op, feature, high_op, high } => {
            &&& feature_ident(feature)
            &&& settled(numbers, low, Stop::Value)
            &&& settled(numbers, high, Stop::Value)
            &&& low_op.ascending()
            &&& high_op.ascending()
        },
    }
}

/// The value of a bound is no comparison itself. In `(min-width: a > b)` it is
/// one, and the key `(width >= a > b)` means something else.
pub open spec fn bare(condition: ConditionModel) -> bool {
    condition matches ConditionModel::Range { feature, op, value } ==> balanced(value, Stop::Value)
}

proof fn lemma_width()
    ensures
        feature_ident("width"@),
{
    reveal_strlit("width");
    reveal_strlit("-");
    let name = "width"@;
    assert(name.len() == 5);
    assert(name[0] == 'w' && name[1] == 'i' && name[2] == 'd' && name[3] == 't' && name[4] == 'h');
    assert(without_prefix(name, "-"@) is None) by {
        if begins(name, "-"@) {
            assert(name.subrange(0, 1)[0] == name[0]);
        }
    }
    assert forall|i: int| 0 <= i < name.len() implies ident_char(#[trigger] name[i]) by {
        assert(i == 0 || i == 1 || i == 2 || i == 3 || i == 4);
    }
}

/// An operand between `i` and `k` of a text that is balanced up to `end`.
proof fn lemma_operand(text: Seq<char>, i: int, k: int)
    requires
        0 <= i <= k <= text.len(),
        depth_at(text, i, text.len() as int, 0, Stop::Char(':')) == Some(0int),
        depth_at(text, i, k, 0, Stop::Operator) is Some,
        k < text.len() ==> depth_at(text, i, k, 0, Stop::Operator) == Some(0int),
    ensures
        balanced(text.subrange(i, k), Stop::Value),
        depth_at(text, k, text.len() as int, 0, Stop::Char(':')) == Some(0int),
{
    let n = text.len() as int;
    lemma_depth_split(text, i, k, n, 0, Stop::Char(':'));
    lemma_depth_both(text, i, k, 0);
    lemma_depth_weaken(text, i, k, 0, Stop::Value);
    lemma_depth_part(text, i, k, 0, Stop::Value);
}

/// Behind the sign at `k` the text is still balanced.
proof fn lemma_behind_operator(text: Seq<char>, k: int)
    requires
        0 <= k < text.len(),
        operator_char(text[k]),
        operator_at(text, k) is Some,
        depth_at(text, k, text.len() as int, 0, Stop::Char(':')) == Some(0int),
    ensures
        k < (operator_at(text, k)->0).1 <= text.len(),
        depth_at(text, (operator_at(text, k)->0).1, text.len() as int, 0, Stop::Char(':')) == Some(0int),
{
    let n = text.len() as int;
    assert(behind(text[k], 0, Stop::Char(':')) == Some(0int));
    let end = (operator_at(text, k)->0).1;
    if end == k + 2 {
        assert(behind(text[k + 1], 0, Stop::Char(':')) == Some(0int));
        assert(depth_at(text, k + 1, n, 0, Stop::Char(':')) == depth_at(text, k + 2, n, 0, Stop::Char(':')));
    }
}

proof fn lemma_stops()
    ensures
        ignores_space(Stop::Nothing),
        ignores_space(Stop::Char(':')),
        ignores_space(Stop::Operator),
        ignores_space(Stop::Value),
        ignores_space(Stop::Char(',')),
        ignores_canonical(Stop::Nothing),
        ignores_canonical(Stop::Value),
        ignores_idents(Stop::Nothing),
        ignores_idents(Stop::Char(':')),
        ignores_idents(Stop::Operator),
        ignores_idents(Stop::Value),
        ignores_idents(Stop::Char(',')),
{
}

proof fn lemma_range_settled(numbers: NumbersModel, left: Seq<char>, op: Comparison, right: Seq<char>)
    requires
        spellings_settle(numbers),
        balanced(left, Stop::Value),
        balanced(right, Stop::Value),
        range_condition(numbers, left, op, right) is Some,
    ensures
        condition_settled(numbers, range_condition(numbers, left, op, right)->0),
{
    lemma_stops();
    lemma_depth_weaken(left, 0, left.len() as int, 0, Stop::Value);
    lemma_depth_weaken(right, 0, right.len() as int, 0, Stop::Value);
    if feature_ident(ident_of(left)) && css_trimmed(right).len() > 0 {
        lemma_normalized_nonempty(numbers, right);
        lemma_normalized_settled(numbers, right, Stop::Nothing);
    } else {
        lemma_normalized_nonempty(numbers, left);
        lemma_normalized_settled(numbers, left, Stop::Nothing);
    }
}

proof fn lemma_double_settled(
    numbers: NumbersModel,
    low: Seq<char>,
    low_op: Comparison,
    feature: Seq<char>,
    high_op: Comparison,
    high: Seq<char>,
)
    requires
        spellings_settle(numbers),
        balanced(low, Stop::Value),
        balanced(high, Stop::Value),
        double_condition(numbers, low, low_op, feature, high_op, high) is Some,
    ensures
        condition_settled(numbers, double_condition(numbers, low, low_op, feature, high_op, high)->0),
{
    lemma_stops();
    lemma_normalized_settled(numbers, low, Stop::Value);
    lemma_normalized_settled(numbers, high, Stop::Value);
}

/// Reading settles a condition.
proof fn lemma_condition_settled(numbers: NumbersModel, content: Seq<char>)
    requires
        spellings_settle(numbers),
        balanced(content, Stop::Nothing),
        condition_of(numbers, content) is Some,
    ensures
        condition_settled(numbers, condition_of(numbers, content)->0),
{
    let text = collapsed(content);
    let n = text.len() as int;
    lemma_stops();
    lemma_collapsed_depth(content, 0, Stop::Nothing);
    lemma_once_found(text, ':', 0, 0);
    match split_once(text, ':') {
        Some(sides) => {
            let k = choose|k: int|
                0 <= k < text.len() && text[k] == ':' && sides == (text.take(k), text.skip(k + 1))
                    && #[trigger] depth_at(text, 0, k, 0, Stop::Char(':')) == Some(0int);
            lemma_depth_weaken(text, 0, k, 0, Stop::Char(':'));
            lemma_depth_split(text, 0, k, n, 0, Stop::Nothing);
            assert(behind(text[k], 0, Stop::Nothing) == Some(0int));
            lemma_depth_part(text, k + 1, n, 0, Stop::Nothing);
            assert(text.skip(k + 1) =~= text.subrange(k + 1, n));
            lemma_normalized_settled(numbers, sides.1, Stop::Nothing);
            lemma_width();
        },
        None => {
            let chain = comparisons(text)->0;
            lemma_chain_found(text, 0, 0, 0);
            if chain.pairs.len() > 0 {
                let k = choose|k: int| #[trigger] first_operator(text, 0, 0, 0, chain, k);
                let op = operator_at(text, k)->0;
                lemma_operand(text, 0, k);
                lemma_behind_operator(text, k);
                let rest = chain_from(text, op.1, op.1, 0)->0;
                lemma_chain_found(text, op.1, op.1, 0);
                if chain.pairs.len() == 1 {
                    assert(rest.pairs.len() == 0);
                    lemma_operand(text, op.1, n);
                    lemma_range_settled(numbers, chain.pairs[0].0, chain.pairs[0].1, chain.trailing);
                } else {
                    assert(rest.pairs.len() == 1);
                    assert(rest.pairs[0] == chain.pairs[1]);
                    let l = choose|l: int| #[trigger] first_operator(text, op.1, op.1, 0, rest, l);
                    let next = operator_at(text, l)->0;
                    lemma_operand(text, op.1, l);
                    lemma_behind_operator(text, l);
                    let last = chain_from(text, next.1, next.1, 0)->0;
                    lemma_chain_found(text, next.1, next.1, 0);
                    assert(last.pairs.len() == 0);
                    lemma_operand(text, next.1, n);
                    lemma_double_settled(
                        numbers,
                        chain.pairs[0].0,
                        chain.pairs[0].1,
                        chain.pairs[1].0,
                        chain.pairs[1].1,
                        chain.trailing,
                    );
                }
            }
        },
    }
}

// ---------------------------------------------------------------------------
// Conditions that are read again
// ---------------------------------------------------------------------------

/// How a condition is written between its parentheses.
pub open spec fn inner_key(condition: ConditionModel) -> Seq<char> {
    match condition {
        ConditionModel::Plain { feature, value } => feature + ": "@ + value,
        ConditionModel::Boolean { feature } => feature,
        ConditionModel::Range { feature, op, value } => feature + " "@ + op.symbol_text() + " "@ + value,
        ConditionModel::DoubleRange { low, low_op, feature, high_op, high } => low + " "@ + low_op.symbol_text()
            + " "@ + feature + " "@ + high_op.symbol_text() + " "@ + high,
    }
}

proof fn lemma_inner_key(condition: ConditionModel)
    ensures
        condition_key(condition) == seq!['('] + inner_key(condition) + seq![')'],
{
    reveal_strlit("(");
    reveal_strlit(")");
    assert("("@ =~= seq!['(']);
    assert(")"@ =~= seq![')']);
    assert(condition_key(condition) =~= seq!['('] + inner_key(condition) + seq![')']);
}

proof fn lemma_sign_neat(op: Comparison, stop: Stop)
    requires
        stop is Nothing || stop == Stop::Char(':') || stop == Stop::Char(','),
    ensures
        neat(sign(op)),
        sign(op).len() > 0,
        balanced(sign(op), stop),
{
    lemma_level_balanced(sign(op), stop);
}

proof fn lemma_space_balanced(stop: Stop)
    requires
        ignores_space(stop),
    ensures
        balanced(seq![' '], stop),
{
    let text = seq![' '];
    assert(ascii_whitespace(' '));
    assert(level(text, stop));
    lemma_level_balanced(text, stop);
}

proof fn lemma_value(numbers: NumbersModel, value: Seq<char>, stop: Stop)
    requires
        settled(numbers, value, stop),
    ensures
        normalized(numbers, seq![' '] + value) == value,
        normalized(numbers, value + seq![' ']) == value,
        css_trimmed(seq![' '] + value).len() > 0,
        balanced(value, Stop::Nothing),
        stop is Value ==> balanced(value, Stop::Char(':')) && balanced(value, Stop::Operator),
{
    lemma_neat_collapsed(value);
    lemma_collapsed_ends(value);
    lemma_depth_weaken(value, 0, value.len() as int, 0, stop);
    let text = seq![' '] + value;
    assert(text.drop_first() =~= value);
    assert(!ascii_whitespace(value[0]));
    assert(!ascii_whitespace(value[value.len() - 1])) by {
        if ascii_whitespace(value[value.len() - 1]) {
            assert(value.len() < value.len());
        }
    }
    assert(css_trimmed(value) == value);
}

/// A chain that goes on behind `start` with an operand up to `k` and a sign.
proof fn lemma_chain_step(text: Seq<char>, start: int, k: int, op: Comparison)
    requires
        0 <= start <= k,
        k + sign(op).len() < text.len(),
        balanced(text.subrange(start, k), Stop::Operator),
        text.subrange(k, k + sign(op).len()) == sign(op),
        text[k + sign(op).len()] == ' ',
    ensures
        chain_from(text, start, start, 0) == match chain_from(text, k + sign(op).len(), k + sign(op).len(), 0) {
            Some(rest) => Some(
                ChainModel { pairs: seq![(text.subrange(start, k), op)] + rest.pairs, trailing: rest.trailing },
            ),
            None => None,
        },
{
    lemma_depth_part(text, start, k, 0, Stop::Operator);
    lemma_chain_scan(text, start, start, k, 0);
    lemma_operator(text, k, op);
}

proof fn lemma_chain_end(text: Seq<char>, start: int)
    requires
        0 <= start <= text.len(),
        balanced(text.subrange(start, text.len() as int), Stop::Operator),
    ensures
        chain_from(text, start, start, 0) == Some(
            ChainModel { pairs: seq![], trailing: text.subrange(start, text.len() as int) },
        ),
{
    let n = text.len() as int;
    lemma_depth_part(text, start, n, 0, Stop::Operator);
    lemma_chain_scan(text, start, start, n, 0);
}

/// A text that nothing cuts.
proof fn lemma_uncut(text: Seq<char>)
    requires
        balanced(text, Stop::Char(':')),
    ensures
        split_once(text, ':') is None,
{
    lemma_once_scan(text, ':', 0, text.len() as int, 0);
}

proof fn lemma_plain_again(numbers: NumbersModel, feature: Seq<char>, value: Seq<char>)
    requires
        condition_settled(numbers, (ConditionModel::Plain { feature, value })),
    ensures
        neat(inner_key((ConditionModel::Plain { feature, value }))),
        balanced(inner_key((ConditionModel::Plain { feature, value })), Stop::Nothing),
        condition_of(numbers, inner_key((ConditionModel::Plain { feature, value }))) matches Some(again) ==> again
            == (ConditionModel::Plain { feature, value }),
{
    reveal_strlit(": ");
    let colon = seq![':'];
    assert(": "@ =~= seq![':', ' ']);
    let text = feature + ": "@ + value;
    let n = feature.len() as int;
    lemma_stops();
    lemma_ident(feature);
    lemma_ident_balanced(feature, Stop::Nothing);
    lemma_ident_balanced(feature, Stop::Char(':'));
    lemma_value(numbers, value, Stop::Nothing);
    lemma_space_balanced(Stop::Nothing);
    assert(neat(colon));
    lemma_neat_concat(feature, colon);
    lemma_neat_spaced(feature + colon, value);
    assert(text =~= feature + colon + seq![' '] + value);
    assert(level(colon, Stop::Nothing));
    lemma_level_balanced(colon, Stop::Nothing);
    lemma_balanced_concat(feature, colon, Stop::Nothing);
    lemma_balanced_concat(feature + colon, seq![' '], Stop::Nothing);
    lemma_balanced_concat(feature + colon + seq![' '], value, Stop::Nothing);
    lemma_neat_collapsed(text);
    assert(text.subrange(0, n) =~= feature);
    lemma_depth_part(text, 0, n, 0, Stop::Char(':'));
    lemma_once_scan(text, ':', 0, n, 0);
    assert(text[n] == ':');
    assert(text.take(n) =~= feature);
    assert(text.skip(n + 1) =~= seq![' '] + value);
    lemma_ident_of(feature);
}

proof fn lemma_boolean_again(numbers: NumbersModel, feature: Seq<char>)
    requires
        feature_ident(feature),
    ensures
        neat(feature),
        balanced(feature, Stop::Nothing),
        condition_of(numbers, feature) matches Some(again) ==> again == (ConditionModel::Boolean { feature }),
{
    lemma_stops();
    lemma_ident(feature);
    lemma_ident_balanced(feature, Stop::Nothing);
    lemma_ident_balanced(feature, Stop::Char(':'));
    lemma_ident_balanced(feature, Stop::Operator);
    lemma_neat_collapsed(feature);
    lemma_uncut(feature);
    assert(feature.subrange(0, feature.len() as int) =~= feature);
    lemma_chain_end(feature, 0);
    lemma_ident_of(feature);
}

proof fn lemma_range_again(numbers: NumbersModel, feature: Seq<char>, op: Comparison, value: Seq<char>)
    requires
        condition_settled(numbers, (ConditionModel::Range { feature, op, value })),
        balanced(value, Stop::Value),
    ensures
        neat(inner_key((ConditionModel::Range { feature, op, value }))),
        balanced(inner_key((ConditionModel::Range { feature, op, value })), Stop::Nothing),
        condition_of(numbers, inner_key((ConditionModel::Range { feature, op, value }))) matches Some(again) ==> again
            == (ConditionModel::Range { feature, op, value }),
{
    let space = seq![' '];
    let mark = sign(op);
    lemma_space();
    lemma_sign(op);
    lemma_stops();
    lemma_ident(feature);
    lemma_ident_of(feature);
    lemma_ident_balanced(feature, Stop::Operator);
    assert(settled(numbers, value, Stop::Value));
    lemma_value(numbers, value, Stop::Value);
    lemma_spaced_range(feature, op, value, Stop::Nothing);
    lemma_spaced_range(feature, op, value, Stop::Char(':'));
    let text = feature + space + mark + space + value;
    assert(inner_key((ConditionModel::Range { feature, op, value })) == text);
    lemma_neat_collapsed(text);
    lemma_uncut(text);
    let k = feature.len() as int + 1;
    let end = k + mark.len();
    lemma_space_balanced(Stop::Operator);
    lemma_balanced_concat(feature, space, Stop::Operator);
    lemma_balanced_concat(space, value, Stop::Operator);
    assert(text.subrange(0, k) =~= feature + space);
    assert(text.subrange(k, end) =~= mark);
    assert(text[end] == ' ');
    assert(text.subrange(end, text.len() as int) =~= space + value);
    lemma_chain_step(text, 0, k, op);
    lemma_chain_end(text, end);
    let chain = chain_from(text, 0, 0, 0)->0;
    assert(chain.pairs =~= seq![(feature + space, op)]);
    assert(comparisons(text) == Some(chain));
    assert(range_condition(numbers, feature + space, op, space + value) == Some(
        ConditionModel::Range { feature, op, value },
    ));
}

/// A range between single spaces.
proof fn lemma_spaced_range(feature: Seq<char>, op: Comparison, value: Seq<char>, stop: Stop)
    requires
        feature_ident(feature),
        neat(value),
        value.len() > 0,
        balanced(value, stop),
        stop is Nothing || stop == Stop::Char(':'),
    ensures
        neat(feature + seq![' '] + sign(op) + seq![' '] + value),
        balanced(feature + seq![' '] + sign(op) + seq![' '] + value, stop),
        balanced(feature + seq![' '] + sign(op), stop),
{
    let space = seq![' '];
    lemma_stops();
    lemma_ident(feature);
    lemma_ident_balanced(feature, stop);
    lemma_sign_neat(op, stop);
    lemma_space_balanced(stop);
    lemma_neat_spaced(feature, sign(op));
    lemma_neat_spaced(feature + space + sign(op), value);
    lemma_balanced_concat(feature, space, stop);
    lemma_balanced_concat(feature + space, sign(op), stop);
    lemma_balanced_concat(feature + space + sign(op), space, stop);
    lemma_balanced_concat(feature + space + sign(op) + space, value, stop);
}

/// A value in front of a range, between single spaces.
proof fn lemma_spaced_double(low: Seq<char>, op: Comparison, rest: Seq<char>, stop: Stop)
    requires
        neat(low),
        low.len() > 0,
        balanced(low, stop),
        neat(rest),
        rest.len() > 0,
        balanced(rest, stop),
        stop is Nothing || stop == Stop::Char(':'),
    ensures
        neat(low + seq![' '] + sign(op) + seq![' '] + rest),
        balanced(low + seq![' '] + sign(op) + seq![' '] + rest, stop),
{
    let space = seq![' '];
    lemma_stops();
    lemma_sign_neat(op, stop);
    lemma_space_balanced(stop);
    lemma_neat_spaced(low, sign(op));
    lemma_neat_spaced(low + space + sign(op), rest);
    lemma_balanced_concat(low, space, stop);
    lemma_balanced_concat(low + space, sign(op), stop);
    lemma_balanced_concat(low + space + sign(op), space, stop);
    lemma_balanced_concat(low + space + sign(op) + space, rest, stop);
}

/// How a value in front of a range is cut at its two signs.
proof fn lemma_double_chain(
    low: Seq<char>,
    low_op: Comparison,
    feature: Seq<char>,
    high_op: Comparison,
    high: Seq<char>,
)
    requires
        balanced(low, Stop::Operator),
        feature_ident(feature),
        balanced(high, Stop::Operator),
    ensures
        comparisons(
            low + seq![' '] + sign(low_op) + seq![' '] + (feature + seq![' '] + sign(high_op) + seq![' '] + high),
        ) == Some(
            ChainModel {
                pairs: seq![(low + seq![' '], low_op), (seq![' '] + feature + seq![' '], high_op)],
                trailing: seq![' '] + high,
            },
        ),
{
    let space = seq![' '];
    let first = sign(low_op);
    let second = sign(high_op);
    let rest = feature + space + second + space + high;
    let text = low + space + first + space + rest;
    lemma_stops();
    lemma_ident_balanced(feature, Stop::Operator);
    let k = low.len() as int + 1;
    let start = k + first.len();
    let l = start + feature.len() + 2;
    let end = l + second.len();
    lemma_space_balanced(Stop::Operator);
    lemma_balanced_concat(low, space, Stop::Operator);
    lemma_balanced_concat(space, feature, Stop::Operator);
    lemma_balanced_concat(space + feature, space, Stop::Operator);
    lemma_balanced_concat(space, high, Stop::Operator);
    assert(text.subrange(0, k) =~= low + space);
    assert(text.subrange(k, start) =~= first);
    assert(text[start] == ' ');
    assert(text.subrange(start, l) =~= space + feature + space);
    assert(text.subrange(l, end) =~= second);
    assert(text[end] == ' ');
    assert(text.subrange(end, text.len() as int) =~= space + high);
    lemma_chain_step(text, 0, k, low_op);
    lemma_chain_step(text, start, l, high_op);
    lemma_chain_end(text, end);
    let chain = chain_from(text, 0, 0, 0)->0;
    assert(chain.pairs =~= seq![(low + space, low_op), (space + feature + space, high_op)]);
    assert(comparisons(text) == Some(chain));
}

/// A value in front of a range, as a key writes it.
spec fn double_text(low: Seq<char>, low_op: Comparison, feature: Seq<char>, high_op: Comparison, high: Seq<char>) -> Seq<
    char,
> {
    low + seq![' '] + sign(low_op) + seq![' '] + (feature + seq![' '] + sign(high_op) + seq![' '] + high)
}

proof fn lemma_double_text(
    low: Seq<char>,
    low_op: Comparison,
    feature: Seq<char>,
    high_op: Comparison,
    high: Seq<char>,
)
    ensures
        inner_key((ConditionModel::DoubleRange { low, low_op, feature, high_op, high })) == double_text(
            low,
            low_op,
            feature,
            high_op,
            high,
        ),
{
    lemma_space();
    lemma_sign(low_op);
    lemma_sign(high_op);
    let head = low + seq![' '] + sign(low_op) + seq![' '];
    let space = seq![' '];
    let mark = sign(high_op);
    assert(head + feature + space + mark + space + high =~= head + (feature + space + mark + space + high));
}

proof fn lemma_double_layout(
    low: Seq<char>,
    low_op: Comparison,
    feature: Seq<char>,
    high_op: Comparison,
    high: Seq<char>,
    stop: Stop,
)
    requires
        neat(low),
        low.len() > 0,
        balanced(low, stop),
        feature_ident(feature),
        neat(high),
        high.len() > 0,
        balanced(high, stop),
        stop is Nothing || stop == Stop::Char(':'),
    ensures
        neat(double_text(low, low_op, feature, high_op, high)),
        balanced(double_text(low, low_op, feature, high_op, high), stop),
{
    let rest = feature + seq![' '] + sign(high_op) + seq![' '] + high;
    lemma_spaced_range(feature, high_op, high, stop);
    lemma_spaced_double(low, low_op, rest, stop);
}

proof fn lemma_double_read(
    numbers: NumbersModel,
    low: Seq<char>,
    low_op: Comparison,
    feature: Seq<char>,
    high_op: Comparison,
    high: Seq<char>,
)
    requires
        condition_settled(numbers, (ConditionModel::DoubleRange { low, low_op, feature, high_op, high })),
    ensures
        double_condition(
            numbers,
            low + seq![' '],
            low_op,
            seq![' '] + feature + seq![' '],
            high_op,
            seq![' '] + high,
        ) == Some(ConditionModel::DoubleRange { low, low_op, feature, high_op, high }),
{
    lemma_ident_of(feature);
    lemma_value(numbers, low, Stop::Value);
    lemma_value(numbers, high, Stop::Value);
}

/// How a text with two comparisons is read.
proof fn lemma_double_parsed(
    numbers: NumbersModel,
    text: Seq<char>,
    pairs: Seq<(Seq<char>, Comparison)>,
    trailing: Seq<char>,
)
    requires
        neat(text),
        balanced(text, Stop::Char(':')),
        pairs.len() == 2,
        comparisons(text) == Some(ChainModel { pairs, trailing }),
    ensures
        condition_of(numbers, text) is Some ==> condition_of(numbers, text) == double_condition(
            numbers,
            pairs[0].0,
            pairs[0].1,
            pairs[1].0,
            pairs[1].1,
            trailing,
        ),
{
    lemma_neat_collapsed(text);
    lemma_uncut(text);
}

proof fn lemma_double_again(
    numbers: NumbersModel,
    low: Seq<char>,
    low_op: Comparison,
    feature: Seq<char>,
    high_op: Comparison,
    high: Seq<char>,
)
    requires
        condition_settled(numbers, (ConditionModel::DoubleRange { low, low_op, feature, high_op, high })),
    ensures
        neat(inner_key((ConditionModel::DoubleRange { low, low_op, feature, high_op, high }))),
        balanced(inner_key((ConditionModel::DoubleRange { low, low_op, feature, high_op, high })), Stop::Nothing),
        condition_of(numbers, inner_key((ConditionModel::DoubleRange { low, low_op, feature, high_op, high }))) matches Some(
            again,
        ) ==> again == (ConditionModel::DoubleRange { low, low_op, feature, high_op, high }),
{
    let text = inner_key((ConditionModel::DoubleRange { low, low_op, feature, high_op, high }));
    lemma_value(numbers, low, Stop::Value);
    lemma_value(numbers, high, Stop::Value);
    lemma_double_text(low, low_op, feature, high_op, high);
    lemma_double_layout(low, low_op, feature, high_op, high, Stop::Nothing);
    lemma_double_layout(low, low_op, feature, high_op, high, Stop::Char(':'));
    lemma_double_chain(low, low_op, feature, high_op, high);
    let pairs = seq![(low + seq![' '], low_op), (seq![' '] + feature + seq![' '], high_op)];
    lemma_double_parsed(numbers, text, pairs, seq![' '] + high);
    lemma_double_read(numbers, low, low_op, feature, high_op, high);
}

/// What a key says between parentheses is read as what it was.
proof fn lemma_condition_again(numbers: NumbersModel, condition: ConditionModel)
    requires
        condition_settled(numbers, condition),
        bare(condition),
    ensures
        neat(inner_key(condition)),
        balanced(inner_key(condition), Stop::Nothing),
        condition_of(numbers, inner_key(condition)) matches Some(again) ==> again == condition,
{
    match condition {
        ConditionModel::Plain { feature, value } => {
            lemma_plain_again(numbers, feature, value);
        },
        ConditionModel::Boolean { feature } => {
            lemma_boolean_again(numbers, feature);
        },
        ConditionModel::Range { feature, op, value } => {
            lemma_range_again(numbers, feature, op, value);
        },
        ConditionModel::DoubleRange { low, low_op, feature, high_op, high } => {
            lemma_double_again(numbers, low, low_op, feature, high_op, high);
        },
    }
}

// ---------------------------------------------------------------------------
// Branches that were read
// ---------------------------------------------------------------------------

/// A branch as reading makes it.
pub open spec fn branch_settled(numbers: NumbersModel, branch: BranchModel) -> bool {
    &&& match branch.media_type {
        Some(word) => feature_ident(word) && !reserved(word),
        None => branch.conditions.len() > 0 && branch.modifier != Some(Modifier::Only) && (branch.modifier == Some(
            Modifier::Not,
        ) ==> branch.conditions.len() == 1),
    }
    &&& forall|i: int|
        0 <= i < branch.conditions.len() ==> condition_settled(numbers, #[trigger] branch.conditions[i])
}

/// No bound of the branch is a comparison itself.
pub open spec fn branch_bare(branch: BranchModel) -> bool {
    forall|i: int| 0 <= i < branch.conditions.len() ==> bare(#[trigger] branch.conditions[i])
}

/// The groups of the tokens are balanced.
spec fn groups_balanced(tokens: Seq<TokenModel>) -> bool {
    forall|k: int|
        0 <= k < tokens.len() ==> ((#[trigger] tokens[k]) matches TokenModel::Group(content) ==> balanced(
            content,
            Stop::Nothing,
        ))
}

proof fn lemma_groups_balanced(text: Seq<char>, i: int)
    requires
        0 <= i,
        tokens_from(text, i) is Some,
    ensures
        groups_balanced(tokens_from(text, i)->0),
    decreases text.len() - i,
{
    if i < text.len() {
        if ascii_whitespace(text[i]) {
            lemma_groups_balanced(text, i + 1);
        } else if text[i] == '(' {
            let end = group_end(text, i + 1, 1)->0;
            lemma_group_found(text, i + 1, 1);
            lemma_depth_part(text, i + 1, end - 1, 0, Stop::Nothing);
            lemma_groups_balanced(text, end);
            let rest = tokens_from(text, end)->0;
            let all = tokens_from(text, i)->0;
            assert forall|k: int| 0 <= k < all.len() implies ((#[trigger] all[k]) matches TokenModel::Group(content)
                ==> balanced(content, Stop::Nothing)) by {
                if k > 0 {
                    assert(all[k] == rest[k - 1]);
                }
            }
        } else {
            let end = word_end(text, i);
            lemma_groups_balanced(text, end);
            let rest = tokens_from(text, end)->0;
            let all = tokens_from(text, i)->0;
            assert forall|k: int| 0 <= k < all.len() implies ((#[trigger] all[k]) matches TokenModel::Group(content)
                ==> balanced(content, Stop::Nothing)) by {
                if k > 0 {
                    assert(all[k] == rest[k - 1]);
                }
            }
        }
    }
}

proof fn lemma_conditions_settled(numbers: NumbersModel, tokens: Seq<TokenModel>, i: int)
    requires
        spellings_settle(numbers),
        groups_balanced(tokens),
        0 <= i,
        conditions_from(numbers, tokens, i) is Some,
    ensures
        forall|k: int|
            0 <= k < (conditions_from(numbers, tokens, i)->0).len() ==> condition_settled(
                numbers,
                #[trigger] (conditions_from(numbers, tokens, i)->0)[k],
            ),
    decreases tokens.len() - i,
{
    if i < tokens.len() {
        let content = tokens[i]->Group_0;
        lemma_condition_settled(numbers, content);
        let all = conditions_from(numbers, tokens, i)->0;
        if i + 1 < tokens.len() {
            lemma_conditions_settled(numbers, tokens, i + 2);
            let rest = conditions_from(numbers, tokens, i + 2)->0;
            assert forall|k: int| 0 <= k < all.len() implies condition_settled(numbers, #[trigger] all[k]) by {
                if k > 0 {
                    assert(all[k] == rest[k - 1]);
                }
            }
        }
    }
}

/// Reading settles a branch.
proof fn lemma_branch_settled(numbers: NumbersModel, text: Seq<char>)
    requires
        spellings_settle(numbers),
        branch_of(numbers, text) is Some,
    ensures
        branch_settled(numbers, branch_of(numbers, text)->0),
{
    let tokens = tokens_from(text, 0)->0;
    lemma_groups_balanced(text, 0);
    let start: int = if modifier_of(tokens) is Some {
        1
    } else {
        0
    };
    let typed = type_of(tokens, start)->0;
    lemma_conditions_settled(numbers, tokens, typed.1);
}

// ---------------------------------------------------------------------------
// Tokens that are read again
// ---------------------------------------------------------------------------

/// How a token is written.
spec fn written(token: TokenModel) -> Seq<char> {
    match token {
        TokenModel::Word(word) => word,
        TokenModel::Group(content) => seq!['('] + content + seq![')'],
    }
}

spec fn all_written(tokens: Seq<TokenModel>) -> Seq<Seq<char>> {
    tokens.map_values(|token: TokenModel| written(token))
}

/// A token that is read as what it is.
spec fn readable(token: TokenModel) -> bool {
    match token {
        TokenModel::Word(word) => word.len() > 0 && forall|i: int|
            0 <= i < word.len() ==> in_word(#[trigger] word[i]),
        TokenModel::Group(content) => balanced(content, Stop::Nothing),
    }
}

proof fn lemma_joined_first(list: Seq<Seq<char>>, glue: Seq<char>)
    requires
        list.len() >= 2,
    ensures
        joined(list, glue) == list[0] + glue + joined(list.drop_first(), glue),
    decreases list.len(),
{
    let rest = list.drop_first();
    if list.len() == 2 {
        assert(list.drop_last() =~= seq![list[0]]);
        assert(rest =~= seq![list[1]]);
        assert(joined(list.drop_last(), glue) == list[0]);
        assert(joined(rest, glue) == list[1]);
    } else {
        let most = list.drop_last();
        lemma_joined_first(most, glue);
        assert(most.drop_first() =~= rest.drop_last());
        assert(most[0] == list[0]);
        assert(rest.last() == list.last());
        assert(joined(list, glue) =~= list[0] + glue + joined(rest, glue));
    }
}

proof fn lemma_word_end(text: Seq<char>, i: int, end: int)
    requires
        0 <= i <= end <= text.len(),
        forall|k: int| i <= k < end ==> in_word(#[trigger] text[k]),
        end < text.len() ==> !in_word(text[end]),
    ensures
        word_end(text, i) == end,
    decreases end - i,
{
    if i < end {
        assert(in_word(text[i]));
        lemma_word_end(text, i + 1, end);
    }
}

/// The first token of a text is read as what it is.
proof fn lemma_token(text: Seq<char>, i: int, token: TokenModel)
    requires
        0 <= i,
        i + written(token).len() <= text.len(),
        text.subrange(i, i + written(token).len()) == written(token),
        i + written(token).len() < text.len() ==> text[i + written(token).len()] == ' ',
        readable(token),
    ensures
        tokens_from(text, i) == in_front(token, tokens_from(text, i + written(token).len())),
        i < text.len(),
{
    let part = written(token);
    let end = i + part.len();
    assert forall|k: int| i <= k < end implies text[k] == #[trigger] part[k - i] by {
        assert(text.subrange(i, end)[k - i] == text[k]);
    }
    match token {
        TokenModel::Word(word) => {
            assert forall|k: int| i <= k < end implies in_word(#[trigger] text[k]) by {
                assert(in_word(word[k - i]));
                assert(text[k] == part[k - i]);
            }
            lemma_word_end(text, i, end);
            assert(in_word(text[i]));
        },
        TokenModel::Group(content) => {
            assert(text[i] == part[0]);
            assert(text[end - 1] == part[part.len() - 1]);
            assert(text.subrange(i + 1, end - 1) =~= content) by {
                assert forall|k: int| 0 <= k < content.len() implies text.subrange(i + 1, end - 1)[k] == content[k] by {
                    assert(text[i + 1 + k] == part[k + 1]);
                }
            }
            lemma_depth_part(text, i + 1, end - 1, 0, Stop::Nothing);
            lemma_group_scan(text, i + 1, end - 1, 0);
            assert(group_end(text, end, 0) == Some(end));
            assert(group_end(text, i + 1, 1) == Some(end));
        },
    }
}

/// Tokens with a space between neighbours are read as what they are.
proof fn lemma_tokens(text: Seq<char>, i: int, tokens: Seq<TokenModel>)
    requires
        0 <= i <= text.len(),
        forall|k: int| 0 <= k < tokens.len() ==> readable(#[trigger] tokens[k]),
        text.skip(i) == joined(all_written(tokens), " "@),
    ensures
        tokens_from(text, i) == Some(tokens),
    decreases tokens.len(),
{
    let list = all_written(tokens);
    lemma_space();
    if tokens.len() == 0 {
        assert(text.skip(i).len() == 0);
        assert(tokens =~= Seq::<TokenModel>::empty());
    } else {
        let first = tokens[0];
        let part = written(first);
        let end = i + part.len();
        let rest = tokens.drop_first();
        assert(list[0] == part);
        assert(readable(first));
        assert(all_written(rest) =~= list.drop_first());
        assert forall|k: int| 0 <= k < rest.len() implies readable(#[trigger] rest[k]) by {
            assert(readable(tokens[k + 1]));
        }
        if tokens.len() == 1 {
            assert(text.skip(i) == part);
            assert(end == text.len());
            assert(text.subrange(i, end) =~= text.skip(i));
            lemma_token(text, i, first);
            assert(tokens_from(text, end) == Some(Seq::<TokenModel>::empty()));
            assert(seq![first] + Seq::<TokenModel>::empty() =~= tokens);
        } else {
            lemma_joined_first(list, " "@);
            let tail = joined(all_written(rest), " "@);
            let all = text.skip(i);
            assert(all == part + seq![' '] + tail);
            assert(all.len() == part.len() + 1 + tail.len());
            assert(text.subrange(i, end) =~= part) by {
                assert forall|k: int| 0 <= k < part.len() implies text.subrange(i, end)[k] == part[k] by {
                    assert(all[k] == text[i + k]);
                }
            }
            assert(text[end] == ' ') by {
                assert(all[part.len() as int] == text[end]);
            }
            assert(text.skip(end + 1) =~= tail) by {
                assert forall|k: int| 0 <= k < tail.len() implies text.skip(end + 1)[k] == tail[k] by {
                    assert(all[part.len() + 1 + k] == text[end + 1 + k]);
                }
            }
            lemma_token(text, i, first);
            lemma_tokens(text, end + 1, rest);
            assert(tokens_from(text, end) == tokens_from(text, end + 1));
            assert(seq![first] + rest =~= tokens);
        }
    }
}

// ---------------------------------------------------------------------------
// Branches that are read again
// ---------------------------------------------------------------------------

proof fn lemma_keywords()
    ensures
        "not"@.len() == 3,
        "and"@.len() == 3,
        "only"@.len() == 4,
        ascii_lowered("not"@) == "not"@,
        ascii_lowered("and"@) == "and"@,
        ascii_lowered("only"@) == "only"@,
        forall|i: int| 0 <= i < 3 ==> ident_char(#[trigger] "not"@[i]),
        forall|i: int| 0 <= i < 3 ==> ident_char(#[trigger] "and"@[i]),
        forall|i: int| 0 <= i < 4 ==> ident_char(#[trigger] "only"@[i]),
{
    reveal_strlit("not");
    reveal_strlit("and");
    reveal_strlit("only");
    assert("not"@ =~= seq!['n', 'o', 't']);
    assert("and"@ =~= seq!['a', 'n', 'd']);
    assert("only"@ =~= seq!['o', 'n', 'l', 'y']);
    assert(ascii_lowered("not"@) =~= "not"@);
    assert(ascii_lowered("and"@) =~= "and"@);
    assert(ascii_lowered("only"@) =~= "only"@);
}

/// The tokens of a branch's head.
spec fn head_tokens(branch: BranchModel) -> Seq<TokenModel> {
    let modifier = match branch.modifier {
        Some(modifier) => seq![TokenModel::Word(modifier.text())],
        None => seq![],
    };
    match branch.media_type {
        Some(media_type) => modifier.push(TokenModel::Word(media_type)),
        None => modifier,
    }
}

/// The tokens of a branch's key up to its first `n` conditions.
spec fn key_tokens(branch: BranchModel, n: int) -> Seq<TokenModel>
    decreases n,
{
    if n <= 0 {
        head_tokens(branch)
    } else {
        let before = key_tokens(branch, n - 1);
        let joined = if n > 1 || branch.media_type is Some {
            before.push(TokenModel::Word("and"@))
        } else {
            before
        };
        joined.push(TokenModel::Group(inner_key(branch.conditions[n - 1])))
    }
}

proof fn lemma_written_push(tokens: Seq<TokenModel>, token: TokenModel)
    ensures
        all_written(tokens.push(token)) == all_written(tokens).push(written(token)),
{
    assert(all_written(tokens.push(token)) =~= all_written(tokens).push(written(token)));
}

/// A key is its tokens.
proof fn lemma_key_tokens(numbers: NumbersModel, branch: BranchModel, n: int)
    requires
        branch_settled(numbers, branch),
        branch_bare(branch),
        0 <= n <= branch.conditions.len(),
    ensures
        all_written(key_tokens(branch, n)) == key_parts(branch, n),
        forall|k: int| 0 <= k < key_tokens(branch, n).len() ==> readable(#[trigger] key_tokens(branch, n)[k]),
        forall|k: int|
            0 <= k < key_parts(branch, n).len() ==> neat(#[trigger] key_parts(branch, n)[k]) && key_parts(
                branch,
                n,
            )[k].len() > 0 && balanced(key_parts(branch, n)[k], Stop::Char(',')),
    decreases n,
{
    lemma_keywords();
    lemma_stops();
    let tokens = key_tokens(branch, n);
    let parts = key_parts(branch, n);
    if n == 0 {
        assert(all_written(tokens) =~= parts);
        if let Some(word) = branch.media_type {
            lemma_ident(word);
            lemma_ident_balanced(word, Stop::Char(','));
        }
        assert forall|k: int| 0 <= k < tokens.len() implies readable(#[trigger] tokens[k]) by {
            assert(parts[k] == written(tokens[k]));
            assert forall|i: int| 0 <= i < parts[k].len() implies in_word(#[trigger] parts[k][i]) by {
                assert(ident_char(parts[k][i]));
            }
        }
        assert forall|k: int| 0 <= k < parts.len() implies neat(#[trigger] parts[k]) && parts[k].len() > 0
            && balanced(parts[k], Stop::Char(',')) by {
            assert(parts[k] == written(tokens[k]));
            lemma_word_part(parts[k]);
        }
    } else {
        let condition = branch.conditions[n - 1];
        let group = TokenModel::Group(inner_key(condition));
        lemma_key_tokens(numbers, branch, n - 1);
        assert(condition_settled(numbers, condition));
        assert(bare(condition));
        lemma_condition_again(numbers, condition);
        lemma_inner_key(condition);
        lemma_group_balanced(inner_key(condition), Stop::Char(','));
        lemma_condition_neat(condition);
        let before = key_tokens(branch, n - 1);
        let and = TokenModel::Word("and"@);
        lemma_written_push(before, and);
        lemma_word_part("and"@);
        assert(readable(and)) by {
            assert forall|i: int| 0 <= i < 3 implies in_word(#[trigger] "and"@[i]) by {
                assert(ident_char("and"@[i]));
            }
        }
        let middle = if n > 1 || branch.media_type is Some {
            before.push(and)
        } else {
            before
        };
        lemma_written_push(middle, group);
        assert(tokens == middle.push(group));
        assert forall|k: int| 0 <= k < tokens.len() implies readable(#[trigger] tokens[k]) by {
            if k < before.len() {
                assert(tokens[k] == before[k]);
            }
        }
        let older = key_parts(branch, n - 1);
        assert(older.len() == before.len());
        assert forall|k: int| 0 <= k < parts.len() implies neat(#[trigger] parts[k]) && parts[k].len() > 0
            && balanced(parts[k], Stop::Char(',')) by {
            if k < before.len() {
                assert(parts[k] == older[k]);
            }
        }
    }
}

/// A word of name characters.
proof fn lemma_word_part(word: Seq<char>)
    requires
        word.len() > 0,
        forall|i: int| 0 <= i < word.len() ==> ident_char(#[trigger] word[i]),
    ensures
        neat(word),
        balanced(word, Stop::Char(',')),
{
    assert forall|i: int| 0 <= i < word.len() implies !ascii_whitespace(#[trigger] word[i]) by {
        assert(ident_char(word[i]));
    }
    assert(level(word, Stop::Char(','))) by {
        assert forall|i: int| 0 <= i < word.len() implies (#[trigger] word[i]) != '(' && word[i] != ')' && !stops(
            Stop::Char(','),
            word[i],
        ) by {
            assert(ident_char(word[i]));
        }
    }
    lemma_level_balanced(word, Stop::Char(','));
}

proof fn lemma_condition_neat(condition: ConditionModel)
    requires
        neat(inner_key(condition)),
    ensures
        neat(condition_key(condition)),
        condition_key(condition).len() > 0,
{
    lemma_inner_key(condition);
    lemma_neat_concat(seq!['('], inner_key(condition));
    lemma_neat_concat(seq!['('] + inner_key(condition), seq![')']);
}

/// Where the first condition of a key stands among its tokens.
spec fn first_group(branch: BranchModel) -> int {
    let head = head_tokens(branch).len() as int;
    if branch.media_type is Some {
        head + 1
    } else {
        head
    }
}

/// Where the tokens of a key stand.
proof fn lemma_key_layout(branch: BranchModel, n: int)
    requires
        0 <= n <= branch.conditions.len(),
    ensures
        n == 0 ==> key_tokens(branch, n) == head_tokens(branch),
        n > 0 ==> key_tokens(branch, n).len() == first_group(branch) + 2 * n - 1,
        forall|k: int|
            0 <= k < head_tokens(branch).len() ==> #[trigger] key_tokens(branch, n)[k] == head_tokens(branch)[k],
        n > 0 && branch.media_type is Some ==> key_tokens(branch, n)[head_tokens(branch).len() as int]
            == TokenModel::Word("and"@),
        forall|k: int|
            0 <= k < n ==> key_tokens(branch, n)[first_group(branch) + 2 * k] == TokenModel::Group(
                inner_key(#[trigger] branch.conditions[k]),
            ) && (k > 0 ==> key_tokens(branch, n)[first_group(branch) + 2 * k - 1] == TokenModel::Word("and"@)),
    decreases n,
{
    if n > 0 {
        lemma_key_layout(branch, n - 1);
        let before = key_tokens(branch, n - 1);
        let tokens = key_tokens(branch, n);
        let base = first_group(branch);
        if n > 1 {
            assert(before.len() == base + 2 * (n - 1) - 1);
            assert(tokens[before.len() as int] == TokenModel::Word("and"@));
        }
        assert(tokens[tokens.len() - 1] == TokenModel::Group(inner_key(branch.conditions[n - 1])));
        assert forall|k: int| 0 <= k < n implies tokens[base + 2 * k] == TokenModel::Group(
            inner_key(#[trigger] branch.conditions[k]),
        ) && (k > 0 ==> tokens[base + 2 * k - 1] == TokenModel::Word("and"@)) by {
            if k < n - 1 {
                assert(tokens[base + 2 * k] == before[base + 2 * k]);
                if k > 0 {
                    assert(tokens[base + 2 * k - 1] == before[base + 2 * k - 1]);
                }
            }
        }
    }
}

proof fn lemma_conditions_again(numbers: NumbersModel, branch: BranchModel, k: int)
    requires
        branch_settled(numbers, branch),
        branch_bare(branch),
        0 <= k <= branch.conditions.len(),
        branch.conditions.len() > 0,
        k < branch.conditions.len() ==> conditions_from(
            numbers,
            key_tokens(branch, branch.conditions.len() as int),
            first_group(branch) + 2 * k,
        ) is Some,
    ensures
        k < branch.conditions.len() ==> conditions_from(
            numbers,
            key_tokens(branch, branch.conditions.len() as int),
            first_group(branch) + 2 * k,
        ) == Some(branch.conditions.skip(k)),
    decreases branch.conditions.len() - k,
{
    let n = branch.conditions.len() as int;
    if k < n {
        let tokens = key_tokens(branch, n);
        let i = first_group(branch) + 2 * k;
        let condition = branch.conditions[k];
        lemma_key_layout(branch, n);
        lemma_keywords();
        assert(condition_settled(numbers, condition));
        assert(bare(condition));
        lemma_condition_again(numbers, condition);
        assert(tokens[i] == TokenModel::Group(inner_key(condition)));
        if k == n - 1 {
            assert(i + 1 == tokens.len());
            assert(branch.conditions.skip(k) =~= seq![condition]);
        } else {
            let next = branch.conditions[k + 1];
            assert(tokens[first_group(branch) + 2 * (k + 1) - 1] == TokenModel::Word("and"@));
            assert(keyword_at(tokens, i + 1, "and"@));
            assert(i + 2 == first_group(branch) + 2 * (k + 1));
            lemma_conditions_again(numbers, branch, k + 1);
            assert(seq![condition] + branch.conditions.skip(k + 1) =~= branch.conditions.skip(k));
        }
    }
}

proof fn lemma_modifier_again(numbers: NumbersModel, branch: BranchModel)
    requires
        branch_settled(numbers, branch),
    ensures
        modifier_of(key_tokens(branch, branch.conditions.len() as int)) == branch.modifier,
{
    let n = branch.conditions.len() as int;
    let tokens = key_tokens(branch, n);
    lemma_keywords();
    lemma_key_layout(branch, n);
    match branch.modifier {
        Some(modifier) => {
            assert(tokens[0] == head_tokens(branch)[0]);
            assert(tokens[0] == TokenModel::Word(modifier.text()));
        },
        None => {
            match branch.media_type {
                Some(word) => {
                    lemma_ident(word);
                    assert(tokens[0] == head_tokens(branch)[0]);
                    assert(tokens[0] == TokenModel::Word(word));
                },
                None => {
                    assert(tokens[first_group(branch) + 2 * 0] == TokenModel::Group(
                        inner_key(branch.conditions[0]),
                    ));
                },
            }
        },
    }
}

proof fn lemma_type_again(numbers: NumbersModel, branch: BranchModel)
    requires
        branch_settled(numbers, branch),
    ensures
        ({
            let n = branch.conditions.len() as int;
            let start: int = if branch.modifier is Some {
                1
            } else {
                0
            };
            type_of(key_tokens(branch, n), start) == Some(
                (
                    branch.media_type,
                    if n == 0 {
                        key_tokens(branch, n).len() as int
                    } else {
                        first_group(branch)
                    },
                ),
            )
        }),
{
    let n = branch.conditions.len() as int;
    let tokens = key_tokens(branch, n);
    let start: int = if branch.modifier is Some {
        1
    } else {
        0
    };
    lemma_keywords();
    lemma_key_layout(branch, n);
    match branch.media_type {
        Some(word) => {
            lemma_ident(word);
            assert(tokens[start] == head_tokens(branch)[start]);
            assert(tokens[start] == TokenModel::Word(word));
            if n > 0 {
                assert(keyword_at(tokens, start + 1, "and"@));
            }
        },
        None => {
            assert(first_group(branch) == start);
            assert(tokens[first_group(branch) + 2 * 0] == TokenModel::Group(inner_key(branch.conditions[0])));
        },
    }
}

/// What a key says of a branch is read as what it was.
proof fn lemma_branch_again(numbers: NumbersModel, branch: BranchModel, before: Seq<char>)
    requires
        branch_settled(numbers, branch),
        branch_bare(branch),
        before == Seq::<char>::empty() || before == seq![' '],
    ensures
        branch_of(numbers, before + branch_key(branch)) matches Some(again) ==> again == branch,
        neat(branch_key(branch)),
        branch_key(branch).len() > 0,
        balanced(branch_key(branch), Stop::Char(',')),
{
    let n = branch.conditions.len() as int;
    let tokens = key_tokens(branch, n);
    let text = before + branch_key(branch);
    lemma_key_tokens(numbers, branch, n);
    lemma_key_layout(branch, n);
    assert(all_written(tokens).len() == tokens.len());
    lemma_neat_joined(key_parts(branch, n));
    lemma_key_balanced(key_parts(branch, n));
    assert(text.skip(before.len() as int) =~= branch_key(branch));
    lemma_tokens(text, before.len() as int, tokens);
    if before.len() > 0 {
        assert(text[0] == ' ');
        assert(tokens_from(text, 0) == tokens_from(text, 1));
    }
    assert(tokens_from(text, 0) == Some(tokens));
    lemma_modifier_again(numbers, branch);
    lemma_type_again(numbers, branch);
    if branch_from(numbers, tokens) is Some {
        if n > 0 {
            lemma_conditions_again(numbers, branch, 0);
            assert(branch.conditions.skip(0) =~= branch.conditions);
        } else {
            assert(branch.conditions =~= Seq::<ConditionModel>::empty());
        }
    }
}

proof fn lemma_key_balanced(parts: Seq<Seq<char>>)
    requires
        forall|k: int| 0 <= k < parts.len() ==> balanced(#[trigger] parts[k], Stop::Char(',')),
    ensures
        balanced(joined(parts, " "@), Stop::Char(',')),
    decreases parts.len(),
{
    let stop = Stop::Char(',');
    lemma_space();
    lemma_stops();
    lemma_space_balanced(stop);
    if parts.len() == 0 {
        lemma_level_balanced(joined(parts, " "@), stop);
    } else {
        assert(balanced(parts[parts.len() - 1], stop));
        if parts.len() > 1 {
            let rest = parts.drop_last();
            assert forall|k: int| 0 <= k < rest.len() implies balanced(#[trigger] rest[k], stop) by {
                assert(balanced(parts[k], stop));
            }
            lemma_key_balanced(rest);
            lemma_balanced_concat(joined(rest, " "@), seq![' '], stop);
            lemma_balanced_concat(joined(rest, " "@) + seq![' '], parts.last(), stop);
        }
    }
}

// ---------------------------------------------------------------------------
// Lists of branches
// ---------------------------------------------------------------------------

proof fn lemma_comma()
    ensures
        ", "@ == seq![',', ' '],
{
    reveal_strlit(", ");
    assert(", "@ =~= seq![',', ' ']);
}

/// The texts between the commas of a list; those behind a comma begin with a
/// space.
spec fn listed(list: Seq<Seq<char>>, before: Seq<char>) -> Seq<Seq<char>>
    decreases list.len(),
{
    if list.len() == 0 {
        seq![]
    } else {
        seq![before + list[0]] + listed(list.drop_first(), seq![' '])
    }
}

proof fn lemma_listed(list: Seq<Seq<char>>, before: Seq<char>)
    ensures
        listed(list, before).len() == list.len(),
        forall|k: int|
            0 <= k < list.len() ==> #[trigger] listed(list, before)[k] == if k == 0 {
                before + list[k]
            } else {
                seq![' '] + list[k]
            },
    decreases list.len(),
{
    if list.len() > 0 {
        let rest = list.drop_first();
        lemma_listed(rest, seq![' ']);
        assert forall|k: int| 0 <= k < list.len() implies #[trigger] listed(list, before)[k] == if k == 0 {
            before + list[k]
        } else {
            seq![' '] + list[k]
        } by {
            if k > 0 {
                assert(listed(list, before)[k] == listed(rest, seq![' '])[k - 1]);
                assert(rest[k - 1] == list[k]);
            }
        }
    }
}

/// A list is cut at its commas.
proof fn lemma_parts(text: Seq<char>, start: int, list: Seq<Seq<char>>, before: Seq<char>)
    requires
        0 <= start <= text.len(),
        list.len() > 0,
        before == Seq::<char>::empty() || before == seq![' '],
        forall|k: int| 0 <= k < list.len() ==> balanced(#[trigger] list[k], Stop::Char(',')),
        text.skip(start) == before + joined(list, ", "@),
    ensures
        parts_from(text, ',', start, start, 0) == Some(listed(list, before)),
    decreases list.len(),
{
    let stop = Stop::Char(',');
    let n = text.len() as int;
    let first = before + list[0];
    let end = start + first.len();
    let all = text.skip(start);
    let rest = list.drop_first();
    lemma_comma();
    lemma_stops();
    assert(balanced(list[0], stop));
    if before.len() > 0 {
        lemma_space_balanced(stop);
    } else {
        lemma_level_balanced(before, stop);
    }
    lemma_balanced_concat(before, list[0], stop);
    assert forall|k: int| 0 <= k < first.len() implies all[k] == #[trigger] first[k] by {
        if list.len() > 1 {
            lemma_joined_first(list, ", "@);
        }
    }
    if list.len() == 1 {
        assert(all == first);
        assert(end == n);
    } else {
        lemma_joined_first(list, ", "@);
        assert(all.len() == first.len() + 2 + joined(rest, ", "@).len());
    }
    assert(text.subrange(start, end) =~= first) by {
        assert forall|k: int| 0 <= k < first.len() implies text.subrange(start, end)[k] == first[k] by {
            assert(all[k] == text[start + k]);
        }
    }
    lemma_depth_part(text, start, end, 0, stop);
    lemma_parts_scan(text, start, start, end, 0);
    if list.len() == 1 {
        assert(rest =~= Seq::<Seq<char>>::empty());
        assert(listed(rest, seq![' ']) =~= Seq::<Seq<char>>::empty());
        assert(listed(list, before) =~= seq![first]);
    } else {
        let tail = joined(rest, ", "@);
        assert(all == before + (list[0] + ", "@ + tail));
        assert(all =~= first + seq![',', ' '] + tail);
        assert(text[end] == ',') by {
            assert(all[first.len() as int] == text[end]);
        }
        assert(text.skip(end + 1) =~= seq![' '] + tail) by {
            assert forall|k: int| 0 <= k < 1 + tail.len() implies text.skip(end + 1)[k] == (seq![' '] + tail)[k] by {
                assert(all[first.len() + 1 + k] == text[end + 1 + k]);
            }
        }
        assert forall|k: int| 0 <= k < rest.len() implies balanced(#[trigger] rest[k], stop) by {
            assert(balanced(list[k + 1], stop));
        }
        lemma_parts(text, end + 1, rest, seq![' ']);
        assert(parts_from(text, ',', start, end, 0) == Some(
            seq![text.subrange(start, end)] + listed(rest, seq![' ']),
        ));
    }
}

proof fn lemma_list_neat(list: Seq<Seq<char>>)
    requires
        list.len() > 0,
        forall|k: int| 0 <= k < list.len() ==> neat(#[trigger] list[k]) && list[k].len() > 0,
    ensures
        neat(joined(list, ", "@)),
        joined(list, ", "@).len() > 0,
    decreases list.len(),
{
    lemma_comma();
    assert(neat(list[list.len() - 1]));
    if list.len() > 1 {
        let rest = list.drop_last();
        assert forall|k: int| 0 <= k < rest.len() implies neat(#[trigger] rest[k]) && rest[k].len() > 0 by {
            assert(neat(list[k]));
        }
        lemma_list_neat(rest);
        let head = joined(rest, ", "@);
        lemma_neat_concat(head, seq![',']);
        lemma_neat_spaced(head + seq![','], list.last());
        assert(head + seq![',', ' '] + list.last() =~= head + seq![','] + seq![' '] + list.last());
    } else {
        assert(neat(list[0]));
    }
}

proof fn lemma_neat_trimmed(text: Seq<char>)
    requires
        neat(text),
        text.len() > 0,
    ensures
        css_trimmed(text) == text,
{
    assert(!ascii_whitespace(text[0]));
    if ascii_whitespace(text[text.len() - 1]) {
        assert(text.len() < text.len());
    }
}

proof fn lemma_branches_settled(numbers: NumbersModel, parts: Seq<Seq<char>>, n: int)
    requires
        spellings_settle(numbers),
        0 <= n <= parts.len(),
        branches_of(numbers, parts, n) is Some,
    ensures
        (branches_of(numbers, parts, n)->0).len() == n,
        forall|k: int|
            0 <= k < n ==> branch_settled(numbers, #[trigger] (branches_of(numbers, parts, n)->0)[k]),
    decreases n,
{
    if n > 0 {
        lemma_branches_settled(numbers, parts, n - 1);
        lemma_branch_settled(numbers, parts[n - 1]);
        let before = branches_of(numbers, parts, n - 1)->0;
        let all = branches_of(numbers, parts, n)->0;
        assert forall|k: int| 0 <= k < n implies branch_settled(numbers, #[trigger] all[k]) by {
            if k < n - 1 {
                assert(all[k] == before[k]);
            }
        }
    }
}

proof fn lemma_branches_again(numbers: NumbersModel, branches: Seq<BranchModel>, n: int)
    requires
        0 <= n <= branches.len(),
        forall|k: int|
            0 <= k < branches.len() ==> branch_settled(numbers, #[trigger] branches[k]) && branch_bare(branches[k]),
        branches_of(numbers, listed(branch_keys(branches), seq![]), n) is Some,
    ensures
        branches_of(numbers, listed(branch_keys(branches), seq![]), n) == Some(branches.take(n)),
    decreases n,
{
    let keys = branch_keys(branches);
    let parts = listed(keys, seq![]);
    if n > 0 {
        lemma_branches_again(numbers, branches, n - 1);
        lemma_listed(keys, seq![]);
        assert(keys[n - 1] == branch_key(branches[n - 1]));
        assert(branch_settled(numbers, branches[n - 1]));
        lemma_branch_again(numbers, branches[n - 1], seq![]);
        lemma_branch_again(numbers, branches[n - 1], seq![' ']);
        assert(parts[n - 1] == (if n == 1 {
            Seq::<char>::empty() + keys[n - 1]
        } else {
            seq![' '] + keys[n - 1]
        }));
        assert(branches.take(n - 1).push(branches[n - 1]) =~= branches.take(n));
    } else {
        assert(branches.take(0) =~= Seq::<BranchModel>::empty());
    }
}

// ---------------------------------------------------------------------------
// Law
// ---------------------------------------------------------------------------

/// No bound of the query is a comparison itself.
pub open spec fn query_bare(numbers: NumbersModel, query: Seq<char>) -> bool {
    query_branches(numbers, query) matches Some(branches) ==> forall|k: int|
        0 <= k < branches.len() ==> branch_bare(#[trigger] branches[k])
}

/// A key is canonical: where the key of a condition is read again, it gives
/// the same key, the same name and the same bound.
pub proof fn reading_a_key_again_changes_nothing(numbers: NumbersModel, query: Seq<char>)
    requires
        spellings_settle(numbers),
        query_bare(numbers, query),
        media_condition(numbers, query) is Some,
        media_condition(numbers, (media_condition(numbers, query)->0).key) is Some,
    ensures
        media_condition(numbers, (media_condition(numbers, query)->0).key) == media_condition(numbers, query),
{
    let branches = query_branches(numbers, query)->0;
    let parts = parts_from(css_trimmed(query), ',', 0, 0, 0)->0;
    lemma_branches_settled(numbers, parts, parts.len() as int);
    let keys = branch_keys(branches);
    let key = joined(keys, ", "@);
    let none = Seq::<char>::empty();
    if branches.len() == 0 {
        assert(key.len() == 0);
        assert(css_trimmed(key).len() == 0);
    } else {
        assert forall|k: int| 0 <= k < keys.len() implies neat(#[trigger] keys[k]) && keys[k].len() > 0 && balanced(
            keys[k],
            Stop::Char(','),
        ) by {
            assert(branch_settled(numbers, branches[k]));
            assert(branch_bare(branches[k]));
            lemma_branch_again(numbers, branches[k], none);
        }
        lemma_list_neat(keys);
        lemma_neat_trimmed(key);
        assert(key.skip(0) =~= none + key);
        lemma_parts(key, 0, keys, none);
        lemma_listed(keys, none);
        lemma_branches_again(numbers, branches, branches.len() as int);
        assert(branches.take(branches.len() as int) =~= branches);
        assert(query_branches(numbers, key) == Some(branches));
    }
}

} // verus!
