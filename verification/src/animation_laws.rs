//! What animations and keyframes keep when they move.
use crate::animations::{
    animation_keyword, animation_of, declared_keyframes, entry_with_keyframes, keyframes_of, last_named, migrated,
    moved_name, moved_word, named_words, with_keyframes, with_paragraph, KeyframeModel,
};
use crate::arbitrary::{collapsed_from, css_whitespace, decoding_from, decoding_undoes_encoding, encoding};
use crate::css::{css_span, ident_name, read_css, ParseModel, StylesheetSyntax};
use crate::errors::ErrorKind;
use crate::media_scan::{lemma_neat_joined, neat};
use crate::syntax::{field, items};
use crate::text::{
    begins, cut, ends, holds, is_word, joined, lemma_bytes_concat, lemma_words_are_words, pieces, pieces_from,
    separates, splitting_undoes_joining, stands_at, trimmed, words, Separator,
};
use crate::text_laws::cutting_takes_the_bytes_between;
use crate::tree::TreeModel;
use vstd::prelude::*;
use vstd::utf8::*;

verus! {

// ---------------------------------------------------------------------------
// Names
// ---------------------------------------------------------------------------

/// Some keyframes have the name.
pub open spec fn names_keyframes(keyframes: Seq<KeyframeModel>, word: Seq<char>) -> bool {
    exists|k: int| 0 <= k < keyframes.len() && (#[trigger] keyframes[k]).name == word
}

/// The last keyframes with the name move under the other name.
pub open spec fn moves_as(keyframes: Seq<KeyframeModel>, word: Seq<char>, moved: Seq<char>) -> bool {
    exists|k: int|
        0 <= k < keyframes.len() && (#[trigger] keyframes[k]).name == word && keyframes[k].migrated_name == moved && (
        forall|j: int| k < j < keyframes.len() ==> (#[trigger] keyframes[j]).name != word)
}

proof fn lemma_moved_name(keyframes: Seq<KeyframeModel>, word: Seq<char>, n: int)
    requires
        0 <= n <= keyframes.len(),
    ensures
        match moved_name(keyframes, word, n) {
            Some(moved) => moves_as(keyframes.take(n), word, moved),
            None => !names_keyframes(keyframes.take(n), word),
        },
        moved_name(keyframes, word, n) is Some <==> names_keyframes(keyframes.take(n), word),
    decreases n,
{
    let list = keyframes.take(n);
    if n > 0 {
        let rest = keyframes.take(n - 1);
        assert(list[n - 1] == keyframes[n - 1]);
        if keyframes[n - 1].name != word {
            lemma_moved_name(keyframes, word, n - 1);
            if let Some(moved) = moved_name(keyframes, word, n - 1) {
                let k = choose|k: int|
                    0 <= k < rest.len() && (#[trigger] rest[k]).name == word && rest[k].migrated_name == moved && (
                    forall|j: int| k < j < rest.len() ==> (#[trigger] rest[j]).name != word);
                assert(list[k] == rest[k]);
                assert forall|j: int| k < j < list.len() implies (#[trigger] list[j]).name != word by {
                    if j < n - 1 {
                        assert(rest[j].name != word);
                    }
                }
            } else if names_keyframes(list, word) {
                let k = choose|k: int| 0 <= k < list.len() && (#[trigger] list[k]).name == word;
                assert(rest[k].name == word);
            }
        } else {
            assert(list[n - 1].name == word);
        }
    }
}

proof fn lemma_moved(keyframes: Seq<KeyframeModel>, word: Seq<char>)
    ensures
        match moved_name(keyframes, word, keyframes.len() as int) {
            Some(moved) => moves_as(keyframes, word, moved) && names_keyframes(keyframes, word),
            None => !names_keyframes(keyframes, word),
        },
{
    lemma_moved_name(keyframes, word, keyframes.len() as int);
    assert(keyframes.take(keyframes.len() as int) =~= keyframes);
}

/// The only word of the list that names keyframes stands at `i`.
pub open spec fn only_name(keyframes: Seq<KeyframeModel>, list: Seq<Seq<char>>, i: int) -> bool {
    &&& 0 <= i < list.len()
    &&& names_keyframes(keyframes, list[i])
    &&& forall|j: int| 0 <= j < list.len() && j != i ==> !names_keyframes(keyframes, #[trigger] list[j])
}

proof fn lemma_named_words(keyframes: Seq<KeyframeModel>, list: Seq<Seq<char>>, n: int)
    requires
        0 <= n <= list.len(),
    ensures
        named_words(keyframes, list, n).len() == 0 <==> forall|j: int|
            0 <= j < n ==> !names_keyframes(keyframes, #[trigger] list[j]),
        named_words(keyframes, list, n).len() == 1 ==> exists|i: int| #[trigger]
            only_name(keyframes, list.take(n), i) && named_words(keyframes, list, n)[0] == list[i],
        forall|i: int| #[trigger]
            only_name(keyframes, list.take(n), i) ==> named_words(keyframes, list, n).len() == 1 && named_words(
                keyframes,
                list,
                n,
            )[0] == list[i],
    decreases n,
{
    let taken = list.take(n);
    if n > 0 {
        lemma_named_words(keyframes, list, n - 1);
        let rest = list.take(n - 1);
        let before = named_words(keyframes, list, n - 1);
        let all = named_words(keyframes, list, n);
        let last = list[n - 1];
        lemma_moved(keyframes, last);
        assert(taken[n - 1] == last);
        assert forall|j: int| 0 <= j < n - 1 implies rest[j] == #[trigger] taken[j] by {}
        if names_keyframes(keyframes, last) {
            assert(all.len() == before.len() + 1);
            if all.len() == 1 {
                assert(only_name(keyframes, taken, n - 1)) by {
                    assert forall|j: int| 0 <= j < taken.len() && j != n - 1 implies !names_keyframes(
                        keyframes,
                        #[trigger] taken[j],
                    ) by {
                        assert(taken[j] == list[j]);
                    }
                }
            }
            assert forall|i: int| #[trigger] only_name(keyframes, taken, i) implies all.len() == 1 && all[0]
                == list[i] by {
                if i != n - 1 {
                    assert(!names_keyframes(keyframes, taken[n - 1]));
                } else {
                    assert forall|j: int| 0 <= j < n - 1 implies !names_keyframes(keyframes, #[trigger] list[j]) by {
                        assert(!names_keyframes(keyframes, taken[j]));
                    }
                }
            }
        } else {
            assert(all == before);
            if all.len() == 1 {
                let i = choose|i: int| #[trigger] only_name(keyframes, rest, i) && before[0] == list[i];
                assert(only_name(keyframes, taken, i)) by {
                    assert(taken[i] == rest[i]);
                    assert forall|j: int| 0 <= j < taken.len() && j != i implies !names_keyframes(
                        keyframes,
                        #[trigger] taken[j],
                    ) by {
                        if j < n - 1 {
                            assert(taken[j] == rest[j]);
                        }
                    }
                }
            }
            assert forall|i: int| #[trigger] only_name(keyframes, taken, i) implies all.len() == 1 && all[0]
                == list[i] by {
                assert(i != n - 1);
                assert(only_name(keyframes, rest, i)) by {
                    assert(taken[i] == rest[i]);
                    assert forall|j: int| 0 <= j < rest.len() && j != i implies !names_keyframes(
                        keyframes,
                        #[trigger] rest[j],
                    ) by {
                        assert(taken[j] == rest[j]);
                    }
                }
            }
        }
    }
}

// ---------------------------------------------------------------------------
// Keywords
// ---------------------------------------------------------------------------

/// Keywords of `animation-timing-function`.
pub open spec fn timing_keyword(word: Seq<char>) -> bool {
    word == "linear"@ || word == "ease"@ || word == "ease-in"@ || word == "ease-out"@ || word == "ease-in-out"@ || word
        == "step-start"@ || word == "step-end"@
}

/// Keywords of `animation-direction`.
pub open spec fn direction_keyword(word: Seq<char>) -> bool {
    word == "normal"@ || word == "reverse"@ || word == "alternate"@ || word == "alternate-reverse"@
}

/// Keywords of `animation-fill-mode`.
pub open spec fn fill_keyword(word: Seq<char>) -> bool {
    word == "none"@ || word == "forwards"@ || word == "backwards"@ || word == "both"@
}

/// Keywords of `animation-play-state` and of `animation-iteration-count`.
pub open spec fn running_keyword(word: Seq<char>) -> bool {
    word == "running"@ || word == "paused"@ || word == "infinite"@
}

/// Keywords of every property.
pub open spec fn common_keyword(word: Seq<char>) -> bool {
    word == "initial"@ || word == "inherit"@ || word == "unset"@ || word == "revert"@ || word == "revert-layer"@
}

/// The words of the `animation` shorthand that are no names are the keywords of
/// its longhands and those of every property.
pub proof fn keywords_are_those_of_the_longhands(word: Seq<char>)
    ensures
        animation_keyword(word) <==> timing_keyword(word) || direction_keyword(word) || fill_keyword(word)
            || running_keyword(word) || common_keyword(word),
{
}

// ---------------------------------------------------------------------------
// Animations
// ---------------------------------------------------------------------------

proof fn lemma_neat_collapsed(value: Seq<char>, i: int, text: Seq<char>, pending: bool)
    requires
        neat(value),
        0 <= i <= value.len(),
        i > 0 && css_whitespace(value[i - 1]) ==> pending && i < value.len() && text == value.take(i - 1),
        i == 0 || !css_whitespace(value[i - 1]) ==> !pending && text == value.take(i),
    ensures
        collapsed_from(value, i, text, pending) == value,
    decreases value.len() - i,
{
    if i < value.len() {
        if css_whitespace(value[i]) {
            assert(value[i] == ' ' && 0 < i && i + 1 < value.len());
            if css_whitespace(value[i - 1]) {
                assert(!css_whitespace(value[i - 1 + 1]));
            }
            lemma_neat_collapsed(value, i + 1, text, text.len() > 0);
        } else {
            let separator: Seq<char> = if pending {
                seq![' ']
            } else {
                seq![]
            };
            if pending {
                assert(value[i - 1] == ' ');
            }
            assert(text + separator + seq![value[i]] =~= value.take(i + 1));
            lemma_neat_collapsed(value, i + 1, text + separator + seq![value[i]], false);
        }
    } else {
        if i > 0 && css_whitespace(value[i - 1]) {
            assert(i < value.len());
        }
        assert(value.take(i) =~= value);
    }
}

proof fn lemma_pieces_chars(text: Seq<char>, separator: Separator, start: int, i: int, n: int, c: char)
    requires
        0 <= start <= i <= text.len(),
        0 <= n < pieces_from(text, separator, start, i).len(),
        pieces_from(text, separator, start, i)[n].contains(c),
    ensures
        text.contains(c),
    decreases text.len() - i,
{
    let list = pieces_from(text, separator, start, i);
    if i < text.len() && !separates(separator, text[i]) {
        lemma_pieces_chars(text, separator, start, i + 1, n, c);
    } else if i < text.len() && n > 0 {
        assert(list[n] == pieces_from(text, separator, i + 1, i + 1)[n - 1]);
        lemma_pieces_chars(text, separator, i + 1, i + 1, n - 1, c);
    } else {
        assert(list[n] == text.subrange(start, i));
        let k = choose|k: int| 0 <= k < list[n].len() && list[n][k] == c;
        assert(text[start + k] == c);
    }
}

proof fn lemma_words_chars(text: Seq<char>, separator: Separator, n: int, c: char)
    requires
        0 <= n < words(text, separator).len(),
        words(text, separator)[n].contains(c),
    ensures
        text.contains(c),
{
    let list = pieces(text, separator);
    crate::text::lemma_nonempty_members(list, n);
    let k = choose|k: int| 0 <= k < list.len() && list[k] == words(text, separator)[n];
    lemma_pieces_chars(text, separator, 0, 0, k, c);
}

proof fn lemma_joined_without(list: Seq<Seq<char>>, c: char)
    requires
        c != ' ',
        forall|i: int| 0 <= i < list.len() ==> !(#[trigger] list[i]).contains(c),
    ensures
        !joined(list, " "@).contains(c),
    decreases list.len(),
{
    reveal_strlit(" ");
    let text = joined(list, " "@);
    if list.len() > 1 {
        let rest = list.drop_last();
        assert forall|i: int| 0 <= i < rest.len() implies !(#[trigger] rest[i]).contains(c) by {
            assert(!list[i].contains(c));
        }
        lemma_joined_without(rest, c);
        let head = joined(rest, " "@);
        assert(!list[list.len() - 1].contains(c));
        if text.contains(c) {
            let k = choose|k: int| 0 <= k < text.len() && text[k] == c;
            if k < head.len() {
                assert(head[k] == c);
            } else if k == head.len() {
                assert(text[k] == " "@[0]);
            } else {
                assert(list.last()[k - head.len() - 1] == c);
            }
        }
    } else if list.len() == 1 {
        assert(!list[0].contains(c));
    }
}

/// The names that keyframes move under can stand in a value.
pub open spec fn movable_names(keyframes: Seq<KeyframeModel>) -> bool {
    forall|k: int|
        0 <= k < keyframes.len() ==> is_word((#[trigger] keyframes[k]).migrated_name, Separator::Whitespace)
            && !keyframes[k].migrated_name.contains('\\')
}

/// What a utility for a property reads as: the text between the colon and the
/// closing bracket, read back as Tailwind does.
pub open spec fn utility_value(candidate: Seq<char>, property: Seq<char>) -> Seq<char> {
    decoding_from(candidate.subrange(property.len() as int + 2, candidate.len() - 1), 0)
}

/// An animation keeps its words: the utility sets the same property, and its
/// value reads back as the words of the animation in their order, of which only
/// the one that names keyframes is another: the name under which they move.
pub proof fn animations_keep_their_other_words(
    property: Seq<char>,
    value: Seq<char>,
    keyframes: Seq<KeyframeModel>,
)
    requires
        animation_of(property, value, keyframes) is Some,
        !value.contains('\\'),
        movable_names(keyframes),
    ensures
        ({
            let candidate = animation_of(property, value, keyframes)->0;
            let before = words(value, Separator::Whitespace);
            let after = words(utility_value(candidate, property), Separator::Whitespace);
            &&& candidate.len() >= property.len() + 3
            &&& candidate.take(property.len() as int + 2) == seq!['['] + property + seq![':']
            &&& candidate.last() == ']'
            &&& after.len() == before.len()
            &&& forall|i: int|
                0 <= i < before.len() ==> if names_keyframes(keyframes, before[i]) {
                    moves_as(keyframes, before[i], #[trigger] after[i])
                } else {
                    after[i] == before[i]
                }
            &&& utility_value(candidate, property) == joined(after, " "@)
        }),
{
    reveal_strlit("[");
    reveal_strlit(":");
    reveal_strlit("]");
    let candidate = animation_of(property, value, keyframes)->0;
    let before = words(value, Separator::Whitespace);
    let moved = before.map_values(|word: Seq<char>| moved_word(keyframes, word));
    let text = joined(moved, " "@);
    let body = encoding(text);
    assert("["@ =~= seq!['['] && ":"@ =~= seq![':'] && "]"@ =~= seq![']']);
    assert(candidate == seq!['['] + property + seq![':'] + body + seq![']']);
    lemma_words_are_words(value, Separator::Whitespace);
    assert forall|i: int| 0 <= i < moved.len() implies is_word(#[trigger] moved[i], Separator::Whitespace)
        && !moved[i].contains('\\') && neat(moved[i]) && moved[i].len() > 0 by {
        assert(moved[i] == moved_word(keyframes, before[i]));
        lemma_moved(keyframes, before[i]);
        assert(is_word(before[i], Separator::Whitespace));
        if before[i].contains('\\') {
            lemma_words_chars(value, Separator::Whitespace, i, '\\');
        }
        assert forall|k: int| 0 <= k < moved[i].len() implies !css_whitespace(#[trigger] moved[i][k]) by {
            assert(!separates(Separator::Whitespace, moved[i][k]));
        }
    }
    lemma_neat_joined(moved);
    lemma_joined_without(moved, '\\');
    decoding_undoes_encoding(text);
    assert(text.take(0) =~= Seq::<char>::empty());
    lemma_neat_collapsed(text, 0, Seq::<char>::empty(), false);
    splitting_undoes_joining(moved, Separator::Whitespace);
    let n = property.len() as int;
    assert(candidate.subrange(n + 2, candidate.len() - 1) =~= body);
    assert(candidate.take(n + 2) =~= seq!['['] + property + seq![':']);
    assert(before.len() > 0) by {
        if before.len() == 0 {
            assert(named_words(keyframes, before, 0).len() == 0);
        }
    }
    assert(utility_value(candidate, property) == text);
    assert forall|i: int| 0 <= i < before.len() implies if names_keyframes(keyframes, before[i]) {
        moves_as(keyframes, before[i], #[trigger] moved[i])
    } else {
        moved[i] == before[i]
    } by {
        lemma_moved(keyframes, before[i]);
        assert(moved[i] == moved_word(keyframes, before[i]));
    }
}

/// An animation becomes a utility exactly where it is one animation that names
/// exactly one of the keyframes, by a word that the shorthand cannot take for a
/// keyword.
pub proof fn animations_with_one_name_become_utilities(
    property: Seq<char>,
    value: Seq<char>,
    keyframes: Seq<KeyframeModel>,
)
    ensures
        animation_of(property, value, keyframes) is Some <==> {
            let parts = words(value, Separator::Whitespace);
            &&& !value.contains(',')
            &&& property == "animation-name"@ ==> parts.len() == 1
            &&& exists|i: int| #[trigger]
                only_name(keyframes, parts, i) && (property == "animation"@ ==> !timing_keyword(parts[i])
                    && !direction_keyword(parts[i]) && !fill_keyword(parts[i]) && !running_keyword(parts[i])
                    && !common_keyword(parts[i]))
        },
{
    let parts = words(value, Separator::Whitespace);
    let names = named_words(keyframes, parts, parts.len() as int);
    lemma_named_words(keyframes, parts, parts.len() as int);
    assert(parts.take(parts.len() as int) =~= parts);
    if names.len() == 1 {
        keywords_are_those_of_the_longhands(names[0]);
        let i = choose|i: int| #[trigger] only_name(keyframes, parts, i) && names[0] == parts[i];
        assert(only_name(keyframes, parts, i));
    }
    assert forall|i: int| #[trigger] only_name(keyframes, parts, i) implies names.len() == 1 && names[0]
        == parts[i] by {}
}

// ---------------------------------------------------------------------------
// Keyframes
// ---------------------------------------------------------------------------

/// Keyframes move as they stand, under another name: what stands before and
/// behind the name in the at-rule is kept byte for byte, and the new name ends
/// in the old one.
pub proof fn keyframes_move_as_they_stand(at_rule: TreeModel, scope: Seq<char>, source: Seq<char>)
    requires
        keyframes_of(at_rule, scope, source) is Some,
    ensures
        ({
            let moved = keyframes_of(at_rule, scope, source)->0;
            let span = css_span(at_rule);
            let place = css_span(field(at_rule, "prelude"@));
            let bytes = encode_utf8(source);
            &&& moved.span == span
            &&& ident_name(field(at_rule, "prelude"@)) == Some(moved.name)
            &&& encode_utf8(moved.source) == bytes.subrange(span.0 as int, place.0 as int) + encode_utf8(
                moved.migrated_name,
            ) + bytes.subrange(place.1 as int, span.1 as int)
            &&& begins(moved.migrated_name, "tw-migrate-"@)
            &&& ends(moved.migrated_name, "-"@ + moved.name)
        }),
{
    let moved = keyframes_of(at_rule, scope, source)->0;
    let span = css_span(at_rule);
    let place = css_span(field(at_rule, "prelude"@));
    let head = cut(source, span.0 as int, place.0 as int)->0;
    let tail = cut(source, place.1 as int, span.1 as int)->0;
    cutting_takes_the_bytes_between(source, span.0 as int, place.0 as int);
    cutting_takes_the_bytes_between(source, place.1 as int, span.1 as int);
    lemma_bytes_concat(head + moved.migrated_name, tail);
    lemma_bytes_concat(head, moved.migrated_name);
    let name = moved.migrated_name;
    let first = "tw-migrate-"@;
    let last = "-"@ + moved.name;
    assert(name.subrange(0, first.len() as int) =~= first);
    assert(name.subrange(name.len() - last.len(), name.len() as int) =~= last);
}

/// Keyframes of one scope stay apart: they move under one name only where they
/// had one.
pub proof fn moved_keyframes_stay_apart(scope: Seq<char>, a: Seq<char>, b: Seq<char>)
    requires
        migrated(scope, a) == migrated(scope, b),
    ensures
        a == b,
{
    let x = migrated(scope, a);
    let y = migrated(scope, b);
    assert(x.len() - a.len() == y.len() - b.len());
    assert(x.skip(x.len() - a.len()) =~= a);
    assert(y.skip(y.len() - b.len()) =~= b);
}

/// The line breaks before a paragraph.
pub open spec fn line_breaks(text: Seq<char>) -> bool {
    text.len() <= 2 && forall|i: int| 0 <= i < text.len() ==> #[trigger] text[i] == '\n'
}

/// A paragraph stands behind the text, an empty line between them, and ends its
/// line; the text is kept.
pub proof fn paragraphs_stand_behind_the_text(text: Seq<char>, paragraph: Seq<char>)
    ensures
        exists|gap: Seq<char>|
            line_breaks(gap) && ends(text + gap, seq!['\n', '\n']) && with_paragraph(text, paragraph) == #[trigger] (
            text + gap + trimmed(paragraph, Separator::Whitespace) + seq!['\n']),
{
    reveal_strlit("\n");
    reveal_strlit("\n\n");
    assert("\n"@ =~= seq!['\n']);
    assert("\n\n"@ =~= seq!['\n', '\n']);
    let line = if ends(text, "\n"@) {
        text
    } else {
        text.push('\n')
    };
    let gap = if ends(line, "\n\n"@) {
        line
    } else {
        line.push('\n')
    };
    let breaks = gap.skip(text.len() as int);
    assert(gap =~= text + breaks);
    assert(line.last() == '\n') by {
        if ends(text, "\n"@) {
            assert(text.subrange(text.len() - 1, text.len() as int)[0] == '\n');
        }
    }
    assert(ends(gap, "\n\n"@)) by {
        if !ends(line, "\n\n"@) {
            assert(gap.subrange(gap.len() - 2, gap.len() as int) =~= "\n\n"@);
        }
    }
    let body = trimmed(paragraph, Separator::Whitespace);
    assert(with_paragraph(text, paragraph) =~= text + breaks + body + seq!['\n']);
}

/// Keyframes are in a text: it declares them, or they stand in it.
pub open spec fn has_keyframes(
    text: Seq<char>,
    existing: Seq<(Seq<char>, Seq<char>)>,
    keyframe: KeyframeModel,
) -> bool {
    ||| exists|k: int|
        0 <= k < existing.len() && (#[trigger] existing[k]).0 == keyframe.migrated_name && trimmed(
            existing[k].1,
            Separator::Whitespace,
        ) == trimmed(keyframe.source, Separator::Whitespace)
    ||| holds(text, trimmed(keyframe.source, Separator::Whitespace))
}

/// A keyframes rule of that name is declared.
pub open spec fn declares(existing: Seq<(Seq<char>, Seq<char>)>, name: Seq<char>) -> bool {
    exists|k: int| 0 <= k < existing.len() && (#[trigger] existing[k]).0 == name
}

proof fn lemma_last_named(list: Seq<(Seq<char>, Seq<char>)>, name: Seq<char>, n: int)
    requires
        0 <= n <= list.len(),
    ensures
        match last_named(list, name, n) {
            Some(text) => exists|k: int| 0 <= k < n && #[trigger] list[k] == (name, text),
            None => forall|k: int| 0 <= k < n ==> (#[trigger] list[k]).0 != name,
        },
    decreases n,
{
    if n > 0 {
        if list[n - 1].0 == name {
            assert(list[n - 1] == (name, list[n - 1].1));
        } else {
            lemma_last_named(list, name, n - 1);
        }
    }
}

proof fn lemma_holds_longer(text: Seq<char>, more: Seq<char>, part: Seq<char>)
    requires
        begins(more, text),
        holds(text, part),
    ensures
        holds(more, part),
{
    let start = choose|start: int| stands_at(text, part, start);
    assert(more.subrange(0, text.len() as int) == text);
    assert(more.subrange(start, start + part.len()) =~= text.subrange(start, start + part.len())) by {
        assert forall|k: int| 0 <= k < part.len() implies #[trigger] more.subrange(start, start + part.len())[k]
            == text.subrange(start, start + part.len())[k] by {
            assert(more.subrange(0, text.len() as int)[start + k] == more[start + k]);
        }
    }
    assert(stands_at(more, part, start));
}

proof fn lemma_with_keyframes(
    text: Seq<char>,
    existing: Seq<(Seq<char>, Seq<char>)>,
    keyframes: Seq<KeyframeModel>,
    n: int,
)
    requires
        0 <= n <= keyframes.len(),
        with_keyframes(text, existing, keyframes, n) is Ok,
    ensures
        ({
            let result = with_keyframes(text, existing, keyframes, n)->Ok_0;
            &&& begins(result, text)
            &&& forall|k: int| 0 <= k < n ==> has_keyframes(result, existing, #[trigger] keyframes[k])
            &&& (forall|k: int| 0 <= k < n ==> declares(existing, (#[trigger] keyframes[k]).migrated_name)) ==> result
                == text
        }),
    decreases n,
{
    let result = with_keyframes(text, existing, keyframes, n)->Ok_0;
    if n == 0 {
        assert(result.subrange(0, text.len() as int) =~= text);
    } else {
        let keyframe = keyframes[n - 1];
        let before = with_keyframes(text, existing, keyframes, n - 1)->Ok_0;
        lemma_with_keyframes(text, existing, keyframes, n - 1);
        lemma_last_named(existing, keyframe.migrated_name, existing.len() as int);
        if last_named(existing, keyframe.migrated_name, existing.len() as int) is None {
            paragraphs_stand_behind_the_text(before, keyframe.source);
            let body = trimmed(keyframe.source, Separator::Whitespace);
            let gap = choose|gap: Seq<char>|
                line_breaks(gap) && ends(before + gap, seq!['\n', '\n']) && with_paragraph(before, keyframe.source)
                    == #[trigger] (before + gap + body + seq!['\n']);
            assert(result == before + gap + body + seq!['\n']);
            assert(result.subrange(0, before.len() as int) =~= before);
            assert(before.subrange(0, text.len() as int) == text);
            assert(result.subrange(0, text.len() as int) =~= before.subrange(0, text.len() as int));
            let start = (before + gap).len() as int;
            assert(result.subrange(start, start + body.len()) =~= body);
            assert(stands_at(result, body, start));
            assert(!declares(existing, keyframe.migrated_name));
            assert forall|k: int| 0 <= k < n implies has_keyframes(result, existing, #[trigger] keyframes[k]) by {
                if k < n - 1 {
                    assert(has_keyframes(before, existing, keyframes[k]));
                    let part = trimmed(keyframes[k].source, Separator::Whitespace);
                    if holds(before, part) {
                        lemma_holds_longer(before, result, part);
                    }
                }
            }
        } else {
            assert(result == before);
        }
    }
}

/// The Tailwind entry keeps what it holds and gains every set of keyframes once:
/// it begins with the text that was there, each set is declared in it or stands
/// behind that text, and nothing is written where it declares them all.
pub proof fn the_entry_gains_all_keyframes(
    parses: Seq<ParseModel>,
    source: Seq<char>,
    keyframes: Seq<KeyframeModel>,
)
    requires
        entry_with_keyframes(parses, source, keyframes) is Ok,
    ensures
        ({
            let result = entry_with_keyframes(parses, source, keyframes)->Ok_0;
            let tree = read_css(
                parses,
                source,
                StylesheetSyntax::Css,
                ErrorKind::AuthoredStylesheetParse,
                "Failed to parse Tailwind CSS: "@,
            )->Ok_0;
            let statements = items(tree, "statements"@);
            let existing = declared_keyframes(statements, source, statements.len());
            &&& begins(result, source)
            &&& forall|k: int| 0 <= k < keyframes.len() ==> has_keyframes(result, existing, #[trigger] keyframes[k])
            &&& (forall|k: int|
                0 <= k < keyframes.len() ==> declares(existing, (#[trigger] keyframes[k]).migrated_name)) ==> result
                == source
        }),
{
    let tree = read_css(
        parses,
        source,
        StylesheetSyntax::Css,
        ErrorKind::AuthoredStylesheetParse,
        "Failed to parse Tailwind CSS: "@,
    )->Ok_0;
    let statements = items(tree, "statements"@);
    lemma_with_keyframes(
        source,
        declared_keyframes(statements, source, statements.len()),
        keyframes,
        keyframes.len() as int,
    );
}

} // verus!
