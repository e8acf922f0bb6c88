//! Which pairs of utilities depend on the order of their media variants.
//!
//! Two candidates that set conflicting declarations on one element under
//! distinct media conditions migrate only when the conditions are provably
//! mutually exclusive by width, or when the pair is a base rule and a later
//! media rule from the same stylesheet, whose variant CSS always follows base
//! utilities.
use crate::number::{decimal_rank, entry_of, find_entry, pairs_of, rank_decimal};
use crate::path::same_texts;
use crate::plan::{conflict, Conflicts, do_lists_conflict, lists_conflict};
use crate::request::{Settings, SettingsModel};
use crate::rules::RuleId;
use crate::text::{
    begins, copy, copy_texts, same, starts_with, strip_prefix, strip_suffix, texts, views, without_prefix,
    without_suffix,
};
use crate::theme::{dimension_of, parse_dimension};
use vstd::prelude::*;

verus! {

// ---------------------------------------------------------------------------
// What is known of utilities
// ---------------------------------------------------------------------------

/// A candidate's variants and the utility behind them.
#[derive(Debug)]
pub struct CandidateParts {
    pub candidate: String,
    pub variants: Vec<String>,
    pub utility: String,
}

/// The model of [`CandidateParts`].
pub struct PartsModel {
    pub candidate: Seq<char>,
    pub variants: Seq<Seq<char>>,
    pub utility: Seq<char>,
}

impl View for CandidateParts {
    type V = PartsModel;

    open spec fn view(&self) -> PartsModel {
        PartsModel { candidate: self.candidate@, variants: texts(self.variants@), utility: self.utility@ }
    }
}

/// A bound that a media condition sets on the width.
#[derive(Debug)]
pub struct WidthBound {
    pub value: String,
    pub inclusive: bool,
    pub lower: bool,
}

/// The model of a [`WidthBound`].
pub struct BoundModel {
    pub value: Seq<char>,
    pub inclusive: bool,
    pub lower: bool,
}

impl View for WidthBound {
    type V = BoundModel;

    open spec fn view(&self) -> BoundModel {
        BoundModel { value: self.value@, inclusive: self.inclusive, lower: self.lower }
    }
}

/// The bounds that the conjunction with this normalized key sets.
#[derive(Debug)]
pub struct ConditionBounds {
    pub key: String,
    pub bounds: Vec<WidthBound>,
}

/// The model of [`ConditionBounds`].
pub struct ConditionModel {
    pub key: Seq<char>,
    pub bounds: Seq<BoundModel>,
}

impl View for ConditionBounds {
    type V = ConditionModel;

    open spec fn view(&self) -> ConditionModel {
        ConditionModel { key: self.key@, bounds: views(self.bounds@) }
    }
}

/// What is known of the utilities of a batch. The lists are complete: what they
/// do not name does not overlap, differs in its variants, or has none.
pub struct Utilities {
    /// The pairs of utilities that set overlapping declarations.
    pub conflicts: Conflicts,
    /// The pairs of CSS properties that overlap.
    pub property_conflicts: Conflicts,
    /// The pairs of candidates with the same variants.
    pub same_variants: Conflicts,
    /// The parts of every candidate that has variants.
    pub parts: Vec<CandidateParts>,
    pub bounds: Vec<ConditionBounds>,
}

/// The model of [`Utilities`].
pub struct UtilitiesModel {
    pub conflicts: Seq<(Seq<char>, Seq<char>)>,
    pub property_conflicts: Seq<(Seq<char>, Seq<char>)>,
    pub same_variants: Seq<(Seq<char>, Seq<char>)>,
    pub parts: Seq<PartsModel>,
    pub bounds: Seq<ConditionModel>,
}

impl View for Utilities {
    type V = UtilitiesModel;

    open spec fn view(&self) -> UtilitiesModel {
        UtilitiesModel {
            conflicts: self.conflicts@,
            property_conflicts: self.property_conflicts@,
            same_variants: self.same_variants@,
            parts: views(self.parts@),
            bounds: views(self.bounds@),
        }
    }
}

/// The parts of a candidate from entry `i` on; one that no entry describes has
/// no variants.
pub open spec fn parts_from(parts: Seq<PartsModel>, candidate: Seq<char>, i: int) -> PartsModel
    decreases parts.len() - i,
{
    if i < 0 || i >= parts.len() {
        PartsModel { candidate, variants: seq![], utility: candidate }
    } else if parts[i].candidate == candidate {
        parts[i]
    } else {
        parts_from(parts, candidate, i + 1)
    }
}

fn find_parts(parts: &Vec<CandidateParts>, candidate: &str) -> (result: CandidateParts)
    ensures
        result@ == parts_from(views(parts@), candidate@, 0),
{
    let mut i: usize = 0;
    while i < parts.len()
        invariant
            i <= parts@.len(),
            parts_from(views(parts@), candidate@, i as int) == parts_from(views(parts@), candidate@, 0),
        decreases parts.len() - i,
    {
        let entry = &parts[i];
        assert(views(parts@)[i as int] == entry@);
        if same(entry.candidate.as_str(), candidate) {
            return CandidateParts {
                candidate: copy(candidate),
                variants: copy_texts(&entry.variants),
                utility: copy(entry.utility.as_str()),
            };
        }
        i += 1;
    }
    let result = CandidateParts { candidate: copy(candidate), variants: Vec::new(), utility: copy(candidate) };
    assert(result@.variants =~= Seq::empty());
    result
}

/// The bounds of a condition from entry `i` on.
pub open spec fn bounds_from(bounds: Seq<ConditionModel>, key: Seq<char>, i: int) -> Seq<BoundModel>
    decreases bounds.len() - i,
{
    if i < 0 || i >= bounds.len() {
        seq![]
    } else if bounds[i].key == key {
        bounds[i].bounds
    } else {
        bounds_from(bounds, key, i + 1)
    }
}

fn find_bounds<'a>(bounds: &'a Vec<ConditionBounds>, key: &str) -> (result: Option<&'a Vec<WidthBound>>)
    ensures
        match result {
            Some(list) => views(list@) == bounds_from(views(bounds@), key@, 0),
            None => bounds_from(views(bounds@), key@, 0).len() == 0,
        },
{
    let mut i: usize = 0;
    while i < bounds.len()
        invariant
            i <= bounds@.len(),
            bounds_from(views(bounds@), key@, i as int) == bounds_from(views(bounds@), key@, 0),
        decreases bounds.len() - i,
    {
        let entry = &bounds[i];
        assert(views(bounds@)[i as int] == entry@);
        if same(entry.key.as_str(), key) {
            return Some(&entry.bounds);
        }
        i += 1;
    }
    None
}

// ---------------------------------------------------------------------------
// Media segments
// ---------------------------------------------------------------------------

/// The key under which a name stands, from entry `i` on.
pub open spec fn key_from(names: Seq<(Seq<char>, Seq<char>)>, name: Seq<char>, i: int) -> Option<Seq<char>>
    decreases names.len() - i,
{
    if i < 0 || i >= names.len() {
        None
    } else if names[i].1 == name {
        Some(names[i].0)
    } else {
        key_from(names, name, i + 1)
    }
}

/// The media condition that a variant of this name stands for.
pub open spec fn key_named(settings: SettingsModel, name: Seq<char>) -> Option<Seq<char>> {
    match settings.media_names {
        Some(names) => key_from(names, name, 0),
        None => None,
    }
}

fn find_key<'a>(settings: &'a Settings, name: &str) -> (result: Option<&'a String>)
    ensures
        crate::syntax::optional_text(result) == key_named(settings@, name@),
{
    match &settings.media_names {
        None => None,
        Some(names) => {
            let mut i: usize = 0;
            while i < names.len()
                invariant
                    i <= names@.len(),
                    settings@.media_names == Some(pairs_of(names@)),
                    key_from(pairs_of(names@), name@, i as int) == key_named(settings@, name@),
                decreases names.len() - i,
            {
                assert(pairs_of(names@)[i as int] == (names@[i as int].0@, names@[i as int].1@));
                if same(names[i].1.as_str(), name) {
                    return Some(&names[i].0);
                }
                i += 1;
            }
            None
        },
    }
}

/// The theme's breakpoint of this name.
pub open spec fn breakpoint(settings: SettingsModel, name: Seq<char>) -> Option<Seq<char>> {
    entry_of(settings.theme_tokens, "breakpoint-"@ + name)
}

fn find_breakpoint<'a>(settings: &'a Settings, name: &str) -> (result: Option<&'a String>)
    ensures
        crate::syntax::optional_text(result) == breakpoint(settings@, name@),
{
    let mut key = "breakpoint-".to_owned();
    key.append(name);
    find_entry(&settings.theme_tokens, key.as_str())
}

/// The variant is a media condition.
pub open spec fn media_segment(settings: SettingsModel, segment: Seq<char>) -> bool {
    ||| key_named(settings, segment) is Some
    ||| segment == "dark"@
    ||| begins(segment, "min-["@)
    ||| begins(segment, "max-["@)
    ||| begins(segment, "[@media"@)
    ||| breakpoint(settings, segment) is Some
    ||| (without_prefix(segment, "max-"@) matches Some(rest) && breakpoint(settings, rest) is Some)
}

fn is_media_segment(settings: &Settings, segment: &str) -> (result: bool)
    ensures
        result == media_segment(settings@, segment@),
{
    find_key(settings, segment).is_some() || same(segment, "dark") || starts_with(segment, "min-[") || starts_with(
        segment,
        "max-[",
    ) || starts_with(segment, "[@media") || find_breakpoint(settings, segment).is_some() || match strip_prefix(
        segment,
        "max-",
    ) {
        Some(rest) => find_breakpoint(settings, rest.as_str()).is_some(),
        None => false,
    }
}

/// Those of the first `n` variants that are media conditions, or those that
/// are not.
pub open spec fn segments_of(settings: SettingsModel, variants: Seq<Seq<char>>, media: bool, n: int) -> Seq<Seq<char>>
    decreases n,
{
    if n <= 0 {
        seq![]
    } else if media_segment(settings, variants[n - 1]) == media {
        segments_of(settings, variants, media, n - 1).push(variants[n - 1])
    } else {
        segments_of(settings, variants, media, n - 1)
    }
}

/// The candidate's media variants and its other variants.
fn split_candidate(settings: &Settings, variants: &Vec<String>) -> (result: (Vec<String>, Vec<String>))
    ensures
        texts((result.0)@) == segments_of(settings@, texts(variants@), true, variants@.len() as int),
        texts((result.1)@) == segments_of(settings@, texts(variants@), false, variants@.len() as int),
{
    let mut media: Vec<String> = Vec::new();
    let mut residual: Vec<String> = Vec::new();
    assert(texts(media@) =~= Seq::empty());
    assert(texts(residual@) =~= Seq::empty());
    let mut n: usize = 0;
    while n < variants.len()
        invariant
            n <= variants@.len(),
            texts(media@) == segments_of(settings@, texts(variants@), true, n as int),
            texts(residual@) == segments_of(settings@, texts(variants@), false, n as int),
        decreases variants.len() - n,
    {
        let segment = &variants[n];
        assert(texts(variants@)[n as int] == segment@);
        if is_media_segment(settings, segment.as_str()) {
            let ghost before = media@;
            media.push(copy(segment.as_str()));
            assert(texts(media@) =~= texts(before).push(segment@));
        } else {
            let ghost before = residual@;
            residual.push(copy(segment.as_str()));
            assert(texts(residual@) =~= texts(before).push(segment@));
        }
        n += 1;
    }
    (media, residual)
}

// ---------------------------------------------------------------------------
// Width constraints
// ---------------------------------------------------------------------------

/// One provable width constraint of a media variant chain, in a single
/// authored unit; bounds in other units stay unprovable and widen the interval
/// conservatively.
#[derive(Debug)]
pub struct WidthConstraint {
    /// Where the value stands among the floats.
    pub rank: i64,
    pub unit: String,
    pub inclusive: bool,
    pub lower: bool,
}

/// The model of a [`WidthConstraint`].
pub struct ConstraintModel {
    pub rank: int,
    pub unit: Seq<char>,
    pub inclusive: bool,
    pub lower: bool,
}

impl View for WidthConstraint {
    type V = ConstraintModel;

    open spec fn view(&self) -> ConstraintModel {
        ConstraintModel {
            rank: self.rank as int,
            unit: self.unit@,
            inclusive: self.inclusive,
            lower: self.lower,
        }
    }
}

/// The constraint that a bound sets, where its value is a dimension.
pub open spec fn constraint_of(value: Seq<char>, inclusive: bool, lower: bool) -> Seq<ConstraintModel> {
    match dimension_of(value) {
        Some((number, unit)) => seq![ConstraintModel { rank: decimal_rank(number), unit, inclusive, lower }],
        None => seq![],
    }
}

/// The constraints of the first `n` bounds.
pub open spec fn bound_constraints(bounds: Seq<BoundModel>, n: int) -> Seq<ConstraintModel>
    decreases n,
{
    if n <= 0 {
        seq![]
    } else {
        bound_constraints(bounds, n - 1) + constraint_of(
            bounds[n - 1].value,
            bounds[n - 1].inclusive,
            bounds[n - 1].lower,
        )
    }
}

/// What stands between square brackets.
pub open spec fn bracketed(text: Option<Seq<char>>) -> Option<Seq<char>> {
    match text {
        Some(text) => match without_prefix(text, "["@) {
            Some(inner) => without_suffix(inner, "]"@),
            None => None,
        },
        None => None,
    }
}

/// The constraints that one variant sets. A variant without a width bound sets
/// none, which only widens the side's interval and weakens exclusivity claims.
pub open spec fn segment_constraints(
    settings: SettingsModel,
    bounds: Seq<ConditionModel>,
    segment: Seq<char>,
) -> Seq<ConstraintModel> {
    match key_named(settings, segment) {
        Some(key) => {
            let list = bounds_from(bounds, key, 0);
            bound_constraints(list, list.len() as int)
        },
        None => match breakpoint(settings, segment) {
            Some(token) => constraint_of(token, true, true),
            None => match without_prefix(segment, "max-"@) {
                Some(rest) => match breakpoint(settings, rest) {
                    Some(token) => constraint_of(token, false, false),
                    None => match bracketed(Some(rest)) {
                        Some(value) => constraint_of(value, true, false),
                        None => seq![],
                    },
                },
                None => match bracketed(without_prefix(segment, "min-"@)) {
                    Some(value) => constraint_of(value, true, true),
                    None => seq![],
                },
            },
        },
    }
}

/// The constraints of the first `n` variants.
pub open spec fn constraints_of(
    settings: SettingsModel,
    bounds: Seq<ConditionModel>,
    segments: Seq<Seq<char>>,
    n: int,
) -> Seq<ConstraintModel>
    decreases n,
{
    if n <= 0 {
        seq![]
    } else {
        constraints_of(settings, bounds, segments, n - 1) + segment_constraints(settings, bounds, segments[n - 1])
    }
}

fn push_constraint(list: &mut Vec<WidthConstraint>, value: &str, inclusive: bool, lower: bool)
    ensures
        views(final(list)@) == views(old(list)@) + constraint_of(value@, inclusive, lower),
{
    let ghost before = list@;
    if let Some((number, unit)) = parse_dimension(value) {
        let rank = rank_decimal(number.as_str());
        let constraint = WidthConstraint { rank, unit, inclusive, lower };
        let ghost model = constraint@;
        list.push(constraint);
        assert(views(list@) =~= views(before) + seq![model]);
        return;
    }
    assert(views(list@) =~= views(before) + Seq::empty());
}

fn push_bounds(list: &mut Vec<WidthConstraint>, bounds: &Vec<WidthBound>)
    ensures
        views(final(list)@) == views(old(list)@) + bound_constraints(views(bounds@), bounds@.len() as int),
{
    let ghost start = views(list@);
    assert(start + bound_constraints(views(bounds@), 0) =~= start);
    let mut n: usize = 0;
    while n < bounds.len()
        invariant
            n <= bounds@.len(),
            views(list@) == start + bound_constraints(views(bounds@), n as int),
        decreases bounds.len() - n,
    {
        let bound = &bounds[n];
        assert(views(bounds@)[n as int] == bound@);
        push_constraint(list, bound.value.as_str(), bound.inclusive, bound.lower);
        n += 1;
        assert(views(list@) =~= start + bound_constraints(views(bounds@), n as int));
    }
}

fn find_bracketed(text: Option<String>) -> (result: Option<String>)
    ensures
        crate::text::maybe(result) == bracketed(crate::text::maybe(text)),
{
    match text {
        Some(text) => match strip_prefix(text.as_str(), "[") {
            Some(inner) => strip_suffix(inner.as_str(), "]"),
            None => None,
        },
        None => None,
    }
}

fn push_segment(list: &mut Vec<WidthConstraint>, settings: &Settings, bounds: &Vec<ConditionBounds>, segment: &str)
    ensures
        views(final(list)@) == views(old(list)@) + segment_constraints(settings@, views(bounds@), segment@),
{
    let ghost start = views(list@);
    if let Some(key) = find_key(settings, segment) {
        match find_bounds(bounds, key.as_str()) {
            Some(found) => {
                push_bounds(list, found);
                assert(views(found@).len() == found@.len());
            },
            None => {
                assert(start + Seq::<ConstraintModel>::empty() =~= start);
            },
        }
        return;
    }
    if let Some(token) = find_breakpoint(settings, segment) {
        push_constraint(list, token.as_str(), true, true);
        return;
    }
    match strip_prefix(segment, "max-") {
        Some(rest) => {
            if let Some(token) = find_breakpoint(settings, rest.as_str()) {
                push_constraint(list, token.as_str(), false, false);
                return;
            }
            match find_bracketed(Some(rest)) {
                Some(value) => {
                    push_constraint(list, value.as_str(), true, false);
                },
                None => {
                    assert(start + Seq::<ConstraintModel>::empty() =~= start);
                },
            }
        },
        None => match find_bracketed(strip_prefix(segment, "min-")) {
            Some(value) => {
                push_constraint(list, value.as_str(), true, true);
            },
            None => {
                assert(start + Seq::<ConstraintModel>::empty() =~= start);
            },
        },
    }
}

fn collect_constraints(settings: &Settings, bounds: &Vec<ConditionBounds>, segments: &Vec<String>) -> (result: Vec<
    WidthConstraint,
>)
    ensures
        views(result@) == constraints_of(settings@, views(bounds@), texts(segments@), segments@.len() as int),
{
    let mut list: Vec<WidthConstraint> = Vec::new();
    assert(views(list@) =~= Seq::empty());
    let mut n: usize = 0;
    while n < segments.len()
        invariant
            n <= segments@.len(),
            views(list@) == constraints_of(settings@, views(bounds@), texts(segments@), n as int),
        decreases segments.len() - n,
    {
        assert(texts(segments@)[n as int] == segments@[n as int]@);
        push_segment(&mut list, settings, bounds, segments[n].as_str());
        n += 1;
    }
    list
}

/// The upper bound lies below the lower one.
pub open spec fn apart(upper: ConstraintModel, lower: ConstraintModel) -> bool {
    &&& !upper.lower
    &&& lower.lower
    &&& upper.unit == lower.unit
    &&& (upper.rank < lower.rank || (upper.rank == lower.rank && !(upper.inclusive && lower.inclusive)))
}

/// Some upper bound of one side lies below a lower bound of the other.
pub open spec fn below(uppers: Seq<ConstraintModel>, lowers: Seq<ConstraintModel>) -> bool {
    exists|i: int, j: int|
        0 <= i < uppers.len() && 0 <= j < lowers.len() && apart(#[trigger] uppers[i], #[trigger] lowers[j])
}

/// The two sides can never match together.
pub open spec fn exclusive(
    settings: SettingsModel,
    bounds: Seq<ConditionModel>,
    left: Seq<Seq<char>>,
    right: Seq<Seq<char>>,
) -> bool {
    let a = constraints_of(settings, bounds, left, left.len() as int);
    let b = constraints_of(settings, bounds, right, right.len() as int);
    below(a, b) || below(b, a)
}

fn is_below(uppers: &Vec<WidthConstraint>, lowers: &Vec<WidthConstraint>) -> (result: bool)
    ensures
        result == below(views(uppers@), views(lowers@)),
{
    let ghost a = views(uppers@);
    let ghost b = views(lowers@);
    let mut i: usize = 0;
    while i < uppers.len()
        invariant
            i <= uppers@.len(),
            a == views(uppers@),
            b == views(lowers@),
            forall|k: int, l: int| 0 <= k < i && 0 <= l < b.len() ==> !apart(#[trigger] a[k], #[trigger] b[l]),
        decreases uppers.len() - i,
    {
        let upper = &uppers[i];
        assert(a[i as int] == upper@);
        let mut j: usize = 0;
        while j < lowers.len()
            invariant
                i < uppers@.len(),
                j <= lowers@.len(),
                a == views(uppers@),
                b == views(lowers@),
                a[i as int] == upper@,
                forall|l: int| 0 <= l < j ==> !apart(a[i as int], #[trigger] b[l]),
            decreases lowers.len() - j,
        {
            let lower = &lowers[j];
            assert(b[j as int] == lower@);
            if !upper.lower && lower.lower && same(upper.unit.as_str(), lower.unit.as_str()) && (upper.rank
                < lower.rank || (upper.rank == lower.rank && !(upper.inclusive && lower.inclusive))) {
                assert(apart(a[i as int], b[j as int]));
                return true;
            }
            j += 1;
        }
        i += 1;
    }
    false
}

fn is_exclusive(settings: &Settings, bounds: &Vec<ConditionBounds>, left: &Vec<String>, right: &Vec<String>) -> (result:
    bool)
    ensures
        result == exclusive(settings@, views(bounds@), texts(left@), texts(right@)),
{
    let a = collect_constraints(settings, bounds, left);
    let b = collect_constraints(settings, bounds, right);
    assert(texts(left@).len() == left@.len() && texts(right@).len() == right@.len());
    is_below(&a, &b) || is_below(&b, &a)
}

// ---------------------------------------------------------------------------
// Pairs
// ---------------------------------------------------------------------------

/// A candidate that a rule puts on an element.
#[derive(Debug)]
pub struct BatchMatch {
    pub stylesheet: usize,
    pub candidate: String,
    pub rule: RuleId,
    pub properties: Vec<String>,
}

/// The model of a [`BatchMatch`].
pub struct BatchMatchModel {
    pub stylesheet: int,
    pub candidate: Seq<char>,
    pub rule: RuleId,
    pub properties: Seq<Seq<char>>,
}

impl View for BatchMatch {
    type V = BatchMatchModel;

    open spec fn view(&self) -> BatchMatchModel {
        BatchMatchModel {
            stylesheet: self.stylesheet as int,
            candidate: self.candidate@,
            rule: self.rule,
            properties: texts(self.properties@),
        }
    }
}

/// The utilities set conflicting declarations, whatever their variants.
pub open spec fn utilities_conflict(known: UtilitiesModel, left: BatchMatchModel, right: BatchMatchModel) -> bool {
    conflict(
        known.conflicts,
        "probe:"@ + parts_from(known.parts, left.candidate, 0).utility,
        "probe:"@ + parts_from(known.parts, right.candidate, 0).utility,
    ) || lists_conflict(known.property_conflicts, left.properties, right.properties)
}

/// One of the two has no media variant, and the other comes from a later rule.
pub open spec fn base_comes_first(
    left_media: Seq<Seq<char>>,
    right_media: Seq<Seq<char>>,
    left: BatchMatchModel,
    right: BatchMatchModel,
) -> bool {
    left.stylesheet == right.stylesheet && if left_media.len() == 0 {
        right.rule.start > left.rule.start
    } else if right_media.len() == 0 {
        left.rule.start > right.rule.start
    } else {
        false
    }
}

/// Conflicting declarations under distinct, possibly co-matching media
/// conditions whose emitted order is unproven.
pub open spec fn ordering_sensitive(
    settings: SettingsModel,
    known: UtilitiesModel,
    left: BatchMatchModel,
    right: BatchMatchModel,
) -> bool {
    let a = parts_from(known.parts, left.candidate, 0).variants;
    let b = parts_from(known.parts, right.candidate, 0).variants;
    let left_media = segments_of(settings, a, true, a.len() as int);
    let right_media = segments_of(settings, b, true, b.len() as int);
    &&& settings.media_names is Some
    &&& left_media != right_media
    &&& segments_of(settings, a, false, a.len() as int) == segments_of(settings, b, false, b.len() as int)
    &&& utilities_conflict(known, left, right)
    &&& !exclusive(settings, known.bounds, left_media, right_media)
    &&& !base_comes_first(left_media, right_media, left, right)
}

/// Whether a pair depends on the order of its media variants.
pub fn is_ordering_sensitive(settings: &Settings, known: &Utilities, left: &BatchMatch, right: &BatchMatch) -> (result:
    bool)
    ensures
        result == ordering_sensitive(settings@, known@, left@, right@),
{
    if settings.media_names.is_none() {
        return false;
    }
    let left_parts = find_parts(&known.parts, left.candidate.as_str());
    let right_parts = find_parts(&known.parts, right.candidate.as_str());
    assert(left_parts@.variants.len() == left_parts.variants@.len());
    assert(right_parts@.variants.len() == right_parts.variants@.len());
    let (left_media, left_residual) = split_candidate(settings, &left_parts.variants);
    let (right_media, right_residual) = split_candidate(settings, &right_parts.variants);
    assert(texts(left_media@).len() == left_media@.len());
    assert(texts(right_media@).len() == right_media@.len());
    if same_texts(&left_media, &right_media) || !same_texts(&left_residual, &right_residual) {
        return false;
    }
    let mut left_probe = "probe:".to_owned();
    left_probe.append(left_parts.utility.as_str());
    let mut right_probe = "probe:".to_owned();
    right_probe.append(right_parts.utility.as_str());
    if !known.conflicts.conflict(left_probe.as_str(), right_probe.as_str()) && !do_lists_conflict(
        &known.property_conflicts,
        &left.properties,
        &right.properties,
    ) {
        return false;
    }
    if is_exclusive(settings, &known.bounds, &left_media, &right_media) {
        return false;
    }
    let base_first = left.stylesheet == right.stylesheet && if left_media.len() == 0 {
        right.rule.start > left.rule.start
    } else if right_media.len() == 0 {
        left.rule.start > right.rule.start
    } else {
        false
    };
    !base_first
}

/// The pair cannot both be written: two stylesheets give one element
/// conflicting utilities, or the order of media variants decides.
pub open spec fn clash(
    settings: SettingsModel,
    known: UtilitiesModel,
    left: BatchMatchModel,
    right: BatchMatchModel,
) -> bool {
    (left.stylesheet != right.stylesheet && (conflict(known.conflicts, left.candidate, right.candidate) || (conflict(
        known.same_variants,
        left.candidate,
        right.candidate,
    ) && lists_conflict(known.property_conflicts, left.properties, right.properties)))) || ordering_sensitive(
        settings,
        known,
        left,
        right,
    )
}

/// Whether a pair cannot both be written.
pub fn do_clash(settings: &Settings, known: &Utilities, left: &BatchMatch, right: &BatchMatch) -> (result: bool)
    ensures
        result == clash(settings@, known@, left@, right@),
{
    (left.stylesheet != right.stylesheet && (known.conflicts.conflict(
        left.candidate.as_str(),
        right.candidate.as_str(),
    ) || (known.same_variants.conflict(left.candidate.as_str(), right.candidate.as_str()) && do_lists_conflict(
        &known.property_conflicts,
        &left.properties,
        &right.properties,
    )))) || is_ordering_sensitive(settings, known, left, right)
}

// ---------------------------------------------------------------------------
// Laws
// ---------------------------------------------------------------------------

/// A width satisfies a constraint of its unit.
pub open spec fn satisfies(rank: int, unit: Seq<char>, constraint: ConstraintModel) -> bool {
    constraint.unit == unit ==> if constraint.lower {
        rank > constraint.rank || (constraint.inclusive && rank == constraint.rank)
    } else {
        rank < constraint.rank || (constraint.inclusive && rank == constraint.rank)
    }
}

/// Exclusivity is proof: no width satisfies every constraint of two sides of
/// which one lies below the other.
pub proof fn exclusive_sides_share_no_width(
    left: Seq<ConstraintModel>,
    right: Seq<ConstraintModel>,
    widths: spec_fn(Seq<char>) -> int,
)
    requires
        below(left, right) || below(right, left),
    ensures
        !((forall|i: int| 0 <= i < left.len() ==> satisfies(widths(left[i].unit), left[i].unit, #[trigger] left[i]))
            && (forall|i: int|
            0 <= i < right.len() ==> satisfies(widths(right[i].unit), right[i].unit, #[trigger] right[i]))),
{
    if below(left, right) {
        let (i, j) = choose|i: int, j: int|
            0 <= i < left.len() && 0 <= j < right.len() && apart(#[trigger] left[i], #[trigger] right[j]);
        assert(apart(left[i], right[j]));
    } else {
        let (i, j) = choose|i: int, j: int|
            0 <= i < right.len() && 0 <= j < left.len() && apart(#[trigger] right[i], #[trigger] left[j]);
        assert(apart(right[i], left[j]));
    }
}

} // verus!
