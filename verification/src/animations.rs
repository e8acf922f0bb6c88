//! Keyframes that move with the animations that use them.
use crate::arbitrary::{encode, encoding};
use crate::css::{
    at_name, block_statements, css_span, fail, failed, get_at_name, get_block_statements, get_css_span, has_block,
    ident_name, in_block, is_present, lemma_block_inside, literal_ident, parse_css, read_css, Halt, HaltModel, Parse,
    ParseModel, StylesheetSyntax,
};
use crate::duplicate::Duplicate;
use crate::errors::ErrorKind;
use crate::jsx_extract::is_text;
use crate::media::{hash_text, text_hash};
use crate::syntax::{field, get, get_items, is_kind, items, of_kind, optional_text};
use crate::text::{
    ascii_lowered, contains, copy, copy_cut, cut, ends, ends_with, has_char, hexadecimal, holds, join, joined, maybe_view,
    push_hexadecimal, same, split_words, texts, to_ascii_lowercase, trim, trimmed, views, words, Separator,
};
use crate::tree::{lemma_list_model, list_model, tree_model, Tree, TreeModel};
use vstd::prelude::*;

verus! {

/// Keyframes of a CSS Module that can move to the Tailwind entry.
#[derive(Debug)]
pub struct KeyframePlan {
    pub span: (usize, usize),
    pub name: String,
    /// A name that no other module's keyframes share.
    pub migrated_name: String,
    /// The at-rule under its new name.
    pub source: String,
}

/// The model of a [`KeyframePlan`].
pub struct KeyframeModel {
    pub span: (usize, usize),
    pub name: Seq<char>,
    pub migrated_name: Seq<char>,
    pub source: Seq<char>,
}

impl View for KeyframePlan {
    type V = KeyframeModel;

    open spec fn view(&self) -> KeyframeModel {
        KeyframeModel {
            span: self.span,
            name: self.name@,
            migrated_name: self.migrated_name@,
            source: self.source@,
        }
    }
}

impl Duplicate for KeyframePlan {
    fn duplicate(&self) -> (result: Self) {
        KeyframePlan {
            span: self.span,
            name: self.name.clone(),
            migrated_name: self.migrated_name.clone(),
            source: self.source.clone(),
        }
    }
}

/// The name under which keyframes of a scope move.
pub open spec fn migrated(scope: Seq<char>, name: Seq<char>) -> Seq<char> {
    "tw-migrate-"@ + hexadecimal(text_hash(scope) as nat) + "-"@ + name
}

fn write_migrated(scope: &str, name: &str) -> (result: String)
    ensures
        result@ == migrated(scope@, name@),
{
    let mut text = "tw-migrate-".to_owned();
    push_hexadecimal(&mut text, hash_text(scope));
    text.append("-");
    text.append(name);
    text
}

/// The at-rule's name is `name`.
pub open spec fn at_named(at_rule: TreeModel, name: Seq<char>) -> bool {
    at_name(at_rule) == Some(name)
}

/// The keyframes that an at-rule declares. Keyframes with a `url(` stay: their
/// relative targets would change.
pub open spec fn keyframes_of(at_rule: TreeModel, scope: Seq<char>, source: Seq<char>) -> Option<KeyframeModel> {
    let prelude = field(at_rule, "prelude"@);
    let span = css_span(at_rule);
    let place = css_span(prelude);
    if !at_named(at_rule, "keyframes"@) || !has_block(at_rule) {
        None
    } else {
        match (
            ident_name(prelude),
            cut(source, span.0 as int, span.1 as int),
            cut(source, span.0 as int, place.0 as int),
            cut(source, place.1 as int, span.1 as int),
        ) {
            (Some(name), Some(raw), Some(head), Some(tail)) => if holds(ascii_lowered(raw), "url("@) {
                None
            } else {
                Some(
                    KeyframeModel {
                        span,
                        name,
                        migrated_name: migrated(scope, name),
                        source: head + migrated(scope, name) + tail,
                    },
                )
            },
            _ => None,
        }
    }
}

/// The keyframes that an at-rule declares.
pub fn keyframe_plan(at_rule: &Tree, scope: &str, source: &str) -> (result: Option<KeyframePlan>)
    ensures
        maybe_view(result) == keyframes_of(at_rule@, scope@, source@),
{
    if !is_text(get_at_name(at_rule), "keyframes") || !is_present(get(at_rule, "block")) {
        return None;
    }
    let span = get_css_span(at_rule);
    let prelude = get(at_rule, "prelude");
    let place = crate::css::optional_css_span(prelude);
    match (
        literal_ident(prelude),
        copy_cut(source, span.0, span.1),
        copy_cut(source, span.0, place.0),
        copy_cut(source, place.1, span.1),
    ) {
        (Some(name), Some(raw), Some(head), Some(tail)) => {
            if contains(to_ascii_lowercase(raw.as_str()).as_str(), "url(") {
                return None;
            }
            let migrated_name = write_migrated(scope, name.as_str());
            let mut text = head;
            text.append(migrated_name.as_str());
            text.append(tail.as_str());
            Some(KeyframePlan { span, name: copy(name.as_str()), migrated_name, source: text })
        },
        _ => None,
    }
}

// ---------------------------------------------------------------------------
// Animations
// ---------------------------------------------------------------------------

/// The last of the first `n` keyframes with a name: its name after moving.
pub open spec fn moved_name(keyframes: Seq<KeyframeModel>, name: Seq<char>, n: int) -> Option<Seq<char>>
    decreases n,
{
    if n <= 0 {
        None
    } else if keyframes[n - 1].name == name {
        Some(keyframes[n - 1].migrated_name)
    } else {
        moved_name(keyframes, name, n - 1)
    }
}

fn find_moved_name<'a>(keyframes: &'a Vec<KeyframePlan>, name: &str) -> (result: Option<&'a String>)
    ensures
        optional_text(result) == moved_name(views(keyframes@), name@, keyframes@.len() as int),
{
    let mut n: usize = keyframes.len();
    while n > 0
        invariant
            n <= keyframes@.len(),
            moved_name(views(keyframes@), name@, n as int) == moved_name(
                views(keyframes@),
                name@,
                keyframes@.len() as int,
            ),
        decreases n,
    {
        assert(views(keyframes@)[n - 1] == keyframes@[n - 1]@);
        if same(keyframes[n - 1].name.as_str(), name) {
            return Some(&keyframes[n - 1].migrated_name);
        }
        n -= 1;
    }
    None
}

/// Words of the `animation` shorthand that are not names.
pub open spec fn animation_keyword(word: Seq<char>) -> bool {
    ||| word == "none"@
    ||| word == "linear"@
    ||| word == "ease"@
    ||| word == "ease-in"@
    ||| word == "ease-out"@
    ||| word == "ease-in-out"@
    ||| word == "step-start"@
    ||| word == "step-end"@
    ||| word == "infinite"@
    ||| word == "normal"@
    ||| word == "reverse"@
    ||| word == "alternate"@
    ||| word == "alternate-reverse"@
    ||| word == "forwards"@
    ||| word == "backwards"@
    ||| word == "both"@
    ||| word == "running"@
    ||| word == "paused"@
    ||| word == "initial"@
    ||| word == "inherit"@
    ||| word == "unset"@
    ||| word == "revert"@
    ||| word == "revert-layer"@
}

/// Whether a word of the `animation` shorthand is no name.
pub fn is_animation_keyword(word: &str) -> (result: bool)
    ensures
        result == animation_keyword(word@),
{
    same(word, "none") || same(word, "linear") || same(word, "ease") || same(word, "ease-in") || same(
        word,
        "ease-out",
    ) || same(word, "ease-in-out") || same(word, "step-start") || same(word, "step-end") || same(word, "infinite")
        || same(word, "normal") || same(word, "reverse") || same(word, "alternate") || same(
        word,
        "alternate-reverse",
    ) || same(word, "forwards") || same(word, "backwards") || same(word, "both") || same(word, "running") || same(
        word,
        "paused",
    ) || same(word, "initial") || same(word, "inherit") || same(word, "unset") || same(word, "revert") || same(
        word,
        "revert-layer",
    )
}

/// The words among the first `n` that name keyframes.
pub open spec fn named_words(keyframes: Seq<KeyframeModel>, list: Seq<Seq<char>>, n: int) -> Seq<Seq<char>>
    decreases n,
{
    if n <= 0 {
        seq![]
    } else if moved_name(keyframes, list[n - 1], keyframes.len() as int) is Some {
        named_words(keyframes, list, n - 1).push(list[n - 1])
    } else {
        named_words(keyframes, list, n - 1)
    }
}

/// A word, or the name under which the keyframes move that it names.
pub open spec fn moved_word(keyframes: Seq<KeyframeModel>, word: Seq<char>) -> Seq<char> {
    match moved_name(keyframes, word, keyframes.len() as int) {
        Some(name) => name,
        None => word,
    }
}

/// The utility for an animation that names exactly one of the keyframes.
pub open spec fn animation_of(property: Seq<char>, value: Seq<char>, keyframes: Seq<KeyframeModel>) -> Option<
    Seq<char>,
> {
    let parts = words(value, Separator::Whitespace);
    let names = named_words(keyframes, parts, parts.len() as int);
    if value.contains(',') || (property == "animation-name"@ && parts.len() != 1) || names.len() != 1 || (property
        == "animation"@ && animation_keyword(names[0])) {
        None
    } else {
        Some(
            "["@ + property + ":"@ + encoding(
                joined(parts.map_values(|word: Seq<char>| moved_word(keyframes, word)), " "@),
            ) + "]"@,
        )
    }
}

fn collect_named_words(keyframes: &Vec<KeyframePlan>, list: &Vec<String>) -> (result: Vec<String>)
    ensures
        texts(result@) == named_words(views(keyframes@), texts(list@), list@.len() as int),
{
    assert(views(keyframes@).len() == keyframes@.len());
    let mut result: Vec<String> = Vec::new();
    assert(texts(result@) =~= Seq::empty());
    let mut n: usize = 0;
    while n < list.len()
        invariant
            n <= list@.len(),
            views(keyframes@).len() == keyframes@.len(),
            texts(result@) == named_words(views(keyframes@), texts(list@), n as int),
        decreases list.len() - n,
    {
        let word = &list[n];
        assert(texts(list@)[n as int] == word@);
        if find_moved_name(keyframes, word.as_str()).is_some() {
            let ghost before = result@;
            result.push(copy(word.as_str()));
            assert(texts(result@) =~= texts(before).push(word@));
        }
        n += 1;
    }
    result
}

fn move_words(keyframes: &Vec<KeyframePlan>, list: &Vec<String>) -> (result: Vec<String>)
    ensures
        texts(result@) == texts(list@).map_values(|word: Seq<char>| moved_word(views(keyframes@), word)),
{
    let ghost goal = texts(list@).map_values(|word: Seq<char>| moved_word(views(keyframes@), word));
    assert(views(keyframes@).len() == keyframes@.len());
    let mut result: Vec<String> = Vec::new();
    let mut n: usize = 0;
    while n < list.len()
        invariant
            n <= list@.len(),
            goal == texts(list@).map_values(|word: Seq<char>| moved_word(views(keyframes@), word)),
            views(keyframes@).len() == keyframes@.len(),
            texts(result@) == goal.take(n as int),
        decreases list.len() - n,
    {
        let word = &list[n];
        assert(texts(list@)[n as int] == word@);
        let ghost before = result@;
        match find_moved_name(keyframes, word.as_str()) {
            Some(name) => {
                result.push(copy(name.as_str()));
            },
            None => {
                result.push(copy(word.as_str()));
            },
        }
        assert(texts(result@) =~= texts(before).push(goal[n as int]));
        n += 1;
        assert(texts(result@) =~= goal.take(n as int));
    }
    assert(goal.take(n as int) =~= goal);
    result
}

/// The utility for an animation that names exactly one of the keyframes.
pub fn animation_candidate(property: &str, value: &str, keyframes: &Vec<KeyframePlan>) -> (result: Option<String>)
    ensures
        crate::text::maybe(result) == animation_of(property@, value@, views(keyframes@)),
{
    if has_char(value, ',') {
        return None;
    }
    let parts = split_words(value, Separator::Whitespace);
    assert(texts(parts@).len() == parts@.len());
    if same(property, "animation-name") && parts.len() != 1 {
        return None;
    }
    let names = collect_named_words(keyframes, &parts);
    assert(texts(names@).len() == names@.len());
    if names.len() != 1 {
        return None;
    }
    assert(texts(names@)[0] == names@[0]@);
    if same(property, "animation") && is_animation_keyword(names[0].as_str()) {
        return None;
    }
    let value = join(&move_words(keyframes, &parts), " ");
    let mut candidate = "[".to_owned();
    candidate.append(property);
    candidate.append(":");
    candidate.append(encode(value.as_str()).as_str());
    candidate.append("]");
    Some(candidate)
}

// ---------------------------------------------------------------------------
// The Tailwind entry
// ---------------------------------------------------------------------------

/// The keyframes that a stylesheet declares: the name and the text of each.
pub open spec fn declared_keyframes(statements: Seq<TreeModel>, source: Seq<char>, n: nat) -> Seq<(Seq<char>, Seq<char>)>
    decreases statements, n,
{
    if n == 0 || n > statements.len() {
        seq![]
    } else {
        let statement = statements[n - 1];
        let span = css_span(statement);
        let mine = block_statements(statement);
        let own = match (
            ident_name(field(statement, "prelude"@)),
            cut(source, span.0 as int, span.1 as int),
        ) {
            (Some(name), Some(text)) => if at_named(statement, "keyframes"@) {
                seq![(name, text)]
            } else {
                seq![]
            },
            _ => seq![],
        };
        let inside = if in_block(statements, statement) {
            declared_keyframes(mine, source, mine.len())
        } else {
            seq![]
        };
        declared_keyframes(statements, source, (n - 1) as nat) + if of_kind(statement, "AtRule"@) {
            own + inside
        } else {
            seq![]
        }
    }
}

/// Named texts, by their models.
pub open spec fn named_texts(list: Seq<(String, String)>) -> Seq<(Seq<char>, Seq<char>)> {
    crate::number::pairs_of(list)
}

fn collect_keyframes(statements: &Vec<Tree>, source: &str, found: &mut Vec<(String, String)>)
    ensures
        named_texts(final(found)@) == named_texts(old(found)@) + declared_keyframes(
            list_model(statements@, statements@.len()),
            source@,
            statements@.len(),
        ),
    decreases statements@,
{
    proof {
        lemma_list_model(statements@, statements@.len());
    }
    let ghost models = list_model(statements@, statements@.len());
    let ghost start = named_texts(found@);
    assert(start + declared_keyframes(models, source@, 0) =~= start);
    let mut n: usize = 0;
    while n < statements.len()
        invariant
            n <= statements@.len(),
            models.len() == statements@.len(),
            forall|k: int| 0 <= k < statements@.len() ==> #[trigger] models[k] == tree_model(statements@[k]),
            named_texts(found@) == start + declared_keyframes(models, source@, n as nat),
        decreases statements.len() - n,
    {
        assert(models[n as int] == tree_model(statements@[n as int]));
        let statement = &statements[n];
        assert(decreases_to!(statements@ => statements@[n as int]));
        proof {
            lemma_block_inside(models, n as int);
        }
        let ghost before = named_texts(found@);
        let ghost mine = block_statements(models[n as int]);
        let ghost inside = if in_block(models, models[n as int]) {
            declared_keyframes(mine, source@, mine.len())
        } else {
            seq![]
        };
        assert(mine.len() == 0 ==> inside =~= Seq::empty());
        let ghost mut own: Seq<(Seq<char>, Seq<char>)> = seq![];
        if is_kind(statement, "AtRule") {
            let span = get_css_span(statement);
            let raw = copy_cut(source, span.0, span.1);
            if is_text(get_at_name(statement), "keyframes") {
                if let Some(name) = literal_ident(get(statement, "prelude")) {
                    if let Some(text) = raw {
                        let ghost known = found@;
                        proof {
                            own = seq![(name@, text@)];
                        }
                        found.push((copy(name.as_str()), text));
                        assert(named_texts(found@) =~= named_texts(known) + own);
                    }
                }
            }
            assert(named_texts(found@) =~= before + own);
            if let Some(block) = get_block_statements(statement) {
                proof {
                    lemma_list_model(block@, block@.len());
                }
                collect_keyframes(block, source, found);
            }
            assert(named_texts(found@) =~= before + (own + inside));
        } else {
            assert(named_texts(found@) =~= before + Seq::empty());
        }
        n += 1;
        assert(named_texts(found@) =~= start + declared_keyframes(models, source@, n as nat));
    }
}

/// The last of the first `n` texts under a name.
pub open spec fn last_named(list: Seq<(Seq<char>, Seq<char>)>, name: Seq<char>, n: int) -> Option<Seq<char>>
    decreases n,
{
    if n <= 0 {
        None
    } else if list[n - 1].0 == name {
        Some(list[n - 1].1)
    } else {
        last_named(list, name, n - 1)
    }
}

fn find_last_named<'a>(list: &'a Vec<(String, String)>, name: &str) -> (result: Option<&'a String>)
    ensures
        optional_text(result) == last_named(named_texts(list@), name@, list@.len() as int),
{
    let mut n: usize = list.len();
    while n > 0
        invariant
            n <= list@.len(),
            last_named(named_texts(list@), name@, n as int) == last_named(
                named_texts(list@),
                name@,
                list@.len() as int,
            ),
        decreases n,
    {
        assert(named_texts(list@)[n - 1] == (list@[n - 1].0@, list@[n - 1].1@));
        if same(list[n - 1].0.as_str(), name) {
            return Some(&list[n - 1].1);
        }
        n -= 1;
    }
    None
}

/// The text with a paragraph behind it.
pub open spec fn with_paragraph(text: Seq<char>, paragraph: Seq<char>) -> Seq<char> {
    let line = if ends(text, "\n"@) {
        text
    } else {
        text.push('\n')
    };
    let gap = if ends(line, "\n\n"@) {
        line
    } else {
        line.push('\n')
    };
    (gap + trimmed(paragraph, Separator::Whitespace)).push('\n')
}

fn push_paragraph(text: &mut String, paragraph: &str)
    ensures
        final(text)@ == with_paragraph(old(text)@, paragraph@),
{
    if !ends_with(text.as_str(), "\n") {
        text.push('\n');
    }
    if !ends_with(text.as_str(), "\n\n") {
        text.push('\n');
    }
    text.append(trim(paragraph, Separator::Whitespace).as_str());
    text.push('\n');
}

/// The text with the first `n` keyframes behind it that it does not declare
/// yet.
pub open spec fn with_keyframes(
    text: Seq<char>,
    existing: Seq<(Seq<char>, Seq<char>)>,
    keyframes: Seq<KeyframeModel>,
    n: int,
) -> Result<Seq<char>, Seq<char>>
    decreases n,
{
    if n <= 0 {
        Ok(text)
    } else {
        match with_keyframes(text, existing, keyframes, n - 1) {
            Err(message) => Err(message),
            Ok(before) => match last_named(existing, keyframes[n - 1].migrated_name, existing.len() as int) {
                Some(current) => if trimmed(current, Separator::Whitespace) != trimmed(
                    keyframes[n - 1].source,
                    Separator::Whitespace,
                ) {
                    Err("Tailwind CSS already defines a different @keyframes "@ + keyframes[n - 1].migrated_name)
                } else {
                    Ok(before)
                },
                None => Ok(with_paragraph(before, keyframes[n - 1].source)),
            },
        }
    }
}

/// The Tailwind entry with keyframes that moved into it.
pub open spec fn entry_with_keyframes(
    parses: Seq<ParseModel>,
    source: Seq<char>,
    keyframes: Seq<KeyframeModel>,
) -> Result<Seq<char>, HaltModel> {
    match read_css(parses, source, StylesheetSyntax::Css, ErrorKind::AuthoredStylesheetParse, "Failed to parse Tailwind CSS: "@) {
        Err(halt) => Err(halt),
        Ok(tree) => {
            let statements = items(tree, "statements"@);
            match with_keyframes(
                source,
                declared_keyframes(statements, source, statements.len()),
                keyframes,
                keyframes.len() as int,
            ) {
                Ok(text) => Ok(text),
                Err(message) => Err(failed(message)),
            }
        },
    }
}

proof fn lemma_keyframes_refused(
    text: Seq<char>,
    existing: Seq<(Seq<char>, Seq<char>)>,
    keyframes: Seq<KeyframeModel>,
    k: int,
    n: int,
)
    requires
        0 <= k <= n,
        with_keyframes(text, existing, keyframes, k) is Err,
    ensures
        with_keyframes(text, existing, keyframes, n) == with_keyframes(text, existing, keyframes, k),
    decreases n - k,
{
    if k < n {
        lemma_keyframes_refused(text, existing, keyframes, k, n - 1);
    }
}

/// The Tailwind entry with keyframes that moved into it.
pub fn append_keyframes(parses: &Vec<Parse>, source: &str, keyframes: &Vec<KeyframePlan>) -> (result: Result<
    String,
    Halt,
>)
    ensures
        match entry_with_keyframes(views(parses@), source@, views(keyframes@)) {
            Ok(model) => result matches Ok(text) && text@ == model,
            Err(model) => result matches Err(halt) && halt@ == model,
        },
{
    let tree = match parse_css(parses, source, StylesheetSyntax::Css, ErrorKind::AuthoredStylesheetParse, "Failed to parse Tailwind CSS: ") {
        Ok(tree) => tree,
        Err(halt) => {
            return Err(halt);
        },
    };
    let ghost statements = items(tree@, "statements"@);
    let mut existing: Vec<(String, String)> = Vec::new();
    assert(named_texts(existing@) =~= Seq::empty());
    if let Some(list) = get_items(tree, "statements") {
        proof {
            lemma_list_model(list@, list@.len());
        }
        collect_keyframes(list, source, &mut existing);
    }
    let ghost known = declared_keyframes(statements, source@, statements.len());
    assert(named_texts(existing@) =~= known);
    let ghost models = views(keyframes@);
    let mut output = copy(source);
    let mut n: usize = 0;
    while n < keyframes.len()
        invariant
            n <= keyframes@.len(),
            models == views(keyframes@),
            known == named_texts(existing@),
            known.len() == existing@.len(),
            entry_with_keyframes(views(parses@), source@, models) == match with_keyframes(
                source@,
                known,
                models,
                models.len() as int,
            ) {
                Ok(text) => Ok::<Seq<char>, HaltModel>(text),
                Err(message) => Err(failed(message)),
            },
            with_keyframes(source@, known, models, n as int) == Ok::<Seq<char>, Seq<char>>(output@),
        decreases keyframes.len() - n,
    {
        let keyframe = &keyframes[n];
        assert(models[n as int] == keyframe@);
        match find_last_named(&existing, keyframe.migrated_name.as_str()) {
            Some(current) => {
                if !same(
                    trim(current.as_str(), Separator::Whitespace).as_str(),
                    trim(keyframe.source.as_str(), Separator::Whitespace).as_str(),
                ) {
                    proof {
                        lemma_keyframes_refused(source@, known, models, n + 1, models.len() as int);
                    }
                    let mut message = "Tailwind CSS already defines a different @keyframes ".to_owned();
                    message.append(keyframe.migrated_name.as_str());
                    return Err(fail(message));
                }
            },
            None => {
                push_paragraph(&mut output, keyframe.source.as_str());
            },
        }
        n += 1;
    }
    Ok(output)
}

} // verus!
