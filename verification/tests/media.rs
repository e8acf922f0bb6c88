//! Media conditions: keys, classification and generated names.
use tw_migrate::media::{
    breakpoint_name, condition_digest, digest_suffixed_name, limit_name, normalize_value, parse_media_condition,
    parse_media_condition_with, sanitize_value, valid_variant_name, Comparison, MediaCondition, MAX_NAME_LENGTH,
};
use tw_migrate::number::{rank_decimal, rank_number, show_number, Numbers};

fn parsed(query: &str) -> MediaCondition {
    parse_media_condition(query).expect(query)
}

#[test]
fn legacy_min_width_and_range_form_share_one_key() {
    let legacy = parsed("(min-width: 52rem)");
    let range = parsed("(width >= 52rem)");
    let flipped = parsed("(52rem <= width)");
    assert_eq!(legacy.key, "(width >= 52rem)");
    assert_eq!(legacy.key, range.key);
    assert_eq!(legacy.key, flipped.key);
}

#[test]
fn classifies_simple_minimum_width_queries() {
    let condition = parsed("(min-width: 52rem)");
    let simple = condition.simple_min_width.expect("simple");
    assert_eq!(simple.value, "52rem");
    assert_eq!(simple.unit, "rem");
    assert!((simple.number.parse::<f64>().unwrap() - 52.0).abs() < f64::EPSILON);
}

#[test]
fn media_type_disqualifies_simple_classification() {
    let condition = parsed("screen and (min-width: 52rem)");
    assert!(condition.simple_min_width.is_none());
    assert_eq!(condition.key, "screen and (width >= 52rem)");
    assert_eq!(condition.preferred_custom_name, "screen-width-gte-52rem");
}

#[test]
fn upper_bounds_lists_and_extra_features_are_not_simple() {
    for query in [
        "(min-width: 52rem) and (max-width: 60rem)",
        "(min-width: 52rem), print",
        "(min-width: 52rem) and (hover: hover)",
        "not (min-width: 52rem)",
        "(max-width: 52rem)",
        "(min-width: 0)",
    ] {
        assert!(parsed(query).simple_min_width.is_none(), "{query}");
    }
}

#[test]
fn preserves_media_type_and_inclusive_boundary() {
    let condition = parsed("screen and (width <= 768px)");
    assert_eq!(condition.key, "screen and (width <= 768px)");
    assert_eq!(condition.preferred_custom_name, "screen-width-lte-768px");
}

#[test]
fn double_range_reads_operators_from_the_feature_side() {
    let condition = parsed("(48rem <= width < 60rem)");
    assert_eq!(condition.key, "(48rem <= width < 60rem)");
    assert_eq!(condition.preferred_custom_name, "width-gte-48rem-lt-60rem");
}

#[test]
fn compound_feature_conditions_join_with_and() {
    let condition = parsed("(hover: hover) and (pointer: fine)");
    assert_eq!(condition.key, "(hover: hover) and (pointer: fine)");
    assert_eq!(
        condition.preferred_custom_name,
        "hover-hover-and-pointer-fine"
    );
}

#[test]
fn inclusive_and_exclusive_operators_stay_distinct() {
    let inclusive = parsed("(width <= 768px)");
    let exclusive = parsed("(width < 768px)");
    assert_ne!(inclusive.key, exclusive.key);
    assert_eq!(inclusive.preferred_custom_name, "width-lte-768px");
    assert_eq!(exclusive.preferred_custom_name, "width-lt-768px");
}

#[test]
fn decimal_values_produce_stable_identifiers() {
    assert_eq!(breakpoint_name("47.5rem"), "min-47p5rem");
    assert_eq!(breakpoint_name("52rem"), "min-52rem");
    assert_eq!(breakpoint_name("768px"), "min-768px");
    let condition = parsed("(width <= 47.5rem)");
    assert_eq!(condition.preferred_custom_name, "width-lte-47p5rem");
}

#[test]
fn unit_differences_never_share_a_key() {
    assert_ne!(
        parsed("(min-width: 48rem)").key,
        parsed("(min-width: 768px)").key
    );
}

#[test]
fn normalization_is_case_insensitive_and_whitespace_stable() {
    assert_eq!(
        parsed("SCREEN AND (MIN-WIDTH:  52rem)").key,
        parsed("screen and (min-width: 52rem)").key
    );
}

#[test]
fn branch_order_is_preserved() {
    assert_ne!(parsed("screen, print").key, parsed("print, screen").key);
    assert_eq!(
        parsed("screen, print").preferred_custom_name,
        "screen-or-print"
    );
}

#[test]
fn unrepresentable_conditions_are_rejected() {
    for query in [
        "",
        "(--narrow)",
        "((min-width: 5em) and (max-width: 10em))",
        "(min-width: 5em) or (max-width: 10em)",
        "layer and (min-width: 5em)",
        "or",
        "only (min-width: 5em)",
        "(width < 5em < 10em < 20em)",
        "{ }",
    ] {
        assert!(parse_media_condition(query).is_none(), "{query}");
    }
}

#[test]
fn calc_values_stay_unsimplified() {
    let condition = parsed("(min-width: calc(100vw - 2rem))");
    assert_eq!(condition.key, "(width >= calc(100vw - 2rem))");
    assert!(condition.simple_min_width.is_none());
}

#[test]
fn over_long_names_keep_a_readable_prefix_and_digest() {
    let long = "a".repeat(80);
    let limited = limit_name(&long, "(key)");
    assert!(limited.len() <= MAX_NAME_LENGTH);
    assert!(limited.starts_with("aaaa"));
    assert!(limited.contains('-'));
    assert_eq!(limited, limit_name(&long, "(key)"));
    assert_ne!(limit_name(&long, "(key)"), limit_name(&long, "(other)"));
}

#[test]
fn parses_the_full_css_number_grammar() {
    let exponent = parsed("(min-width: 1e3px)");
    let simple = exponent.simple_min_width.expect("exponent");
    assert_eq!(simple.unit, "px");
    assert!((simple.number.parse::<f64>().unwrap() - 1000.0).abs() < f64::EPSILON);
    assert!(parsed("(min-width: +52rem)").simple_min_width.is_some());
    let cased = parsed("(min-width: 52REM)");
    assert_eq!(cased.key, "(width >= 52rem)");
    assert_eq!(cased.simple_min_width.expect("cased").unit, "rem");
}

#[test]
fn preserves_case_sensitive_value_tokens() {
    let condition = parsed("(min-width: env(MyInset))");
    assert_eq!(condition.key, "(width >= env(MyInset))");
    assert!(condition.simple_min_width.is_none());
}

#[test]
fn normalizes_descending_ranges_to_the_ascending_form() {
    let descending = parsed("(60rem > width >= 48rem)");
    assert_eq!(descending.key, "(48rem <= width < 60rem)");
    assert_eq!(descending.key, parsed("(48rem <= width < 60rem)").key);
    assert!(parse_media_condition("(60rem > width <= 48rem)").is_none());
}

#[test]
fn non_ascii_whitespace_stays_in_the_condition() {
    let condition = parsed("(orientation:\u{a0}landscape)");
    assert_eq!(condition.key, "(orientation: \u{a0}landscape)");
    assert_ne!(condition.key, parsed("(orientation: landscape)").key);
}

#[test]
fn non_css_whitespace_around_a_feature_rejects_the_condition() {
    // A U+00A0 attached to the feature name is identifier content; the
    // authored condition names an unknown feature and stays false, so it
    // must not become a live `(orientation: landscape)`.
    assert!(parse_media_condition("(\u{a0}orientation: landscape)").is_none());
    assert!(parse_media_condition("(orientation\u{a0}: landscape)").is_none());
}

#[test]
fn equivalent_dimension_spellings_share_one_key() {
    let canonical = parsed("(min-width: 52rem)");
    for query in [
        "(min-width: +52rem)",
        "(min-width: 052rem)",
        "(min-width: 5.2e1rem)",
    ] {
        assert_eq!(parsed(query).key, canonical.key, "{query}");
    }
    assert_eq!(canonical.simple_min_width.expect("simple").value, "52rem");
    assert_eq!(parsed("(width <= 47.50rem)").key, "(width <= 47.5rem)");
}

#[test]
fn custom_media_types_are_preserved_verbatim() {
    let condition = parsed("tv and (color)");
    assert_eq!(condition.key, "tv and (color)");
    assert_eq!(condition.preferred_custom_name, "tv-color");
    assert_eq!(parsed("only projection").key, "only projection");
}

#[test]
fn overflowing_dimensions_keep_their_authored_spelling() {
    let condition = parsed("(max-width: 1e999px)");
    assert_eq!(condition.key, "(width <= 1e999px)");
    assert!(parsed("(min-width: 1e999rem)").simple_min_width.is_none());
}

#[test]
fn equivalent_ratio_spellings_share_one_key() {
    let canonical = parsed("(aspect-ratio: 16/9)");
    for query in [
        "(aspect-ratio: 16 / 9)",
        "(aspect-ratio: 16.0/9)",
        "(aspect-ratio: +16/09)",
    ] {
        assert_eq!(parsed(query).key, canonical.key, "{query}");
    }
    assert_eq!(canonical.key, "(aspect-ratio: 16/9)");
    assert_ne!(parsed("(aspect-ratio: 16/10)").key, canonical.key);
    assert_eq!(parsed("(aspect-ratio: 1.50)").key, "(aspect-ratio: 1.5)");
}

#[test]
fn vertical_tab_is_identifier_content_not_whitespace() {
    // Rust's is_ascii_whitespace matches exactly the CSS whitespace set
    // (space, tab, LF, FF, CR); U+000B stays in the condition.
    let condition = parsed("(orientation:\u{b}landscape)");
    assert_eq!(condition.key, "(orientation: \u{b}landscape)");
    assert_ne!(condition.key, parsed("(orientation: landscape)").key);
}

#[test]
fn function_tokens_are_not_keyword_condition_pairs() {
    for query in ["not(color)", "screen and(color)", "only screen and(color)"] {
        assert!(parse_media_condition(query).is_none(), "{query}");
    }
}

#[test]
fn vendor_prefixed_features_are_representable() {
    let condition = parsed("(-webkit-min-device-pixel-ratio: 2)");
    assert_eq!(condition.key, "(-webkit-min-device-pixel-ratio: 2)");
    assert_eq!(
        condition.preferred_custom_name,
        "webkit-min-device-pixel-ratio-2"
    );
    assert!(parse_media_condition("(--narrow)").is_none());
}

#[test]
fn digests_are_stable_and_key_dependent() {
    assert_eq!(condition_digest("(width >= 52rem)").len(), 8);
    assert_eq!(
        condition_digest("(width >= 52rem)"),
        condition_digest("(width >= 52rem)")
    );
    assert_ne!(
        condition_digest("(width >= 52rem)"),
        condition_digest("(width >= 60rem)")
    );
}

#[test]
fn spellings_can_be_given_instead_of_computed() {
    let numbers = Numbers::Known(vec![("52".to_string(), "fifty-two".to_string())]);
    let condition = parse_media_condition_with(&numbers, "(min-width: 52rem)").unwrap();
    assert_eq!(condition.key, "(width >= fifty-tworem)");
    assert!(condition.simple_min_width.is_none());
    let unknown = parse_media_condition_with(&numbers, "(min-width: 5.0rem)").unwrap();
    assert_eq!(unknown.key, "(width >= 5.0rem)");
    assert!(unknown.simple_min_width.is_none());
}

#[test]
fn equal_numbers_share_one_spelling() {
    for text in ["0.5", ".5", "+.5", "5e-1", "00.50"] {
        assert_eq!(show_number(&Numbers::Computed, text), Some("0.5".to_string()), "{text}");
    }
    assert_eq!(show_number(&Numbers::Computed, "-0"), Some("-0".to_string()));
    assert_eq!(show_number(&Numbers::Computed, "007"), Some("7".to_string()));
    assert_eq!(show_number(&Numbers::Computed, "1e21"), Some("1000000000000000000000".to_string()));
    assert_eq!(show_number(&Numbers::Computed, "1e999"), None);
    for text in ["0.1", "123456789.125", "1e-7", "9007199254740993", "2.5e10"] {
        let expected = text.parse::<f64>().unwrap().to_string();
        assert_eq!(show_number(&Numbers::Computed, text), Some(expected), "{text}");
    }
}

#[test]
fn numbers_are_ranked_by_value() {
    let ordered = ["-2", "-1.5", "-0", ".5", "1", "1.25", "47.5", "48", "1e3"];
    for pair in ordered.windows(2) {
        assert!(rank_number(pair[0]) < rank_number(pair[1]), "{} {}", pair[0], pair[1]);
    }
    assert_eq!(rank_number("-0"), rank_number("0"));
    assert_eq!(rank_number("1.0"), rank_number("1"));
    assert_eq!(rank_number("1e999"), None);
}

#[test]
fn numbers_out_of_range_rank_as_infinities() {
    let huge = "9".repeat(400);
    assert_eq!(rank_decimal(&huge), f64::INFINITY.to_bits() as i64);
    assert_eq!(rank_decimal(&format!("-{huge}")), -(f64::INFINITY.to_bits() as i64));
    assert_eq!(rank_decimal("47.5"), 47.5f64.to_bits() as i64);
    assert!(rank_decimal(&f64::MAX.to_string()) < rank_decimal(&huge));
}

#[test]
fn reading_a_key_again_gives_the_same_condition() {
    for query in [
        "(min-width: 52rem)",
        "(5.2e1REM <= width)",
        "(60rem > width >= 048rem)",
        "only screen and (min-width:600px) and (orientation : Landscape)",
        "not print, (color) , (aspect-ratio: 16 / 9)",
        "(width >= calc(1px + 2px))",
        "(height < env(MyInset))",
        "(width <= 1e999px)",
    ] {
        let first = parsed(query);
        let again = parsed(&first.key);
        assert_eq!(again.key, first.key, "{query}");
        assert_eq!(again.preferred_custom_name, first.preferred_custom_name, "{query}");
        assert_eq!(again.simple_min_width.is_some(), first.simple_min_width.is_some(), "{query}");
    }
    // A bound that is a comparison itself reads as a chain in the key.
    let bound = parsed("(min-width: a > b)");
    assert_eq!(bound.key, "(width >= a > b)");
    assert_eq!(parsed(&bound.key).key, "(b < a <= width)");
}

#[test]
fn flipping_a_comparison_twice_changes_nothing() {
    for op in [Comparison::Lt, Comparison::Lte, Comparison::Gt, Comparison::Gte, Comparison::Eq] {
        assert!(op.flipped().flipped() == op);
    }
    assert_eq!(Comparison::Lte.flipped().symbol(), ">=");
    assert_eq!(Comparison::Lt.name(), "lt");
}

#[test]
fn names_are_cut_at_character_boundaries() {
    let long = "\u{e9}".repeat(40);
    let limited = limit_name(&long, "(key)");
    assert!(limited.len() <= MAX_NAME_LENGTH);
    assert_eq!(limited.len(), 38 + 9);
    assert_eq!(condition_digest("(key)").len(), 8);
    let dashed = format!("{}{}", "a".repeat(30), "-".repeat(30));
    assert_eq!(
        digest_suffixed_name(&dashed, "(key)"),
        format!("{}-{}", "a".repeat(30), condition_digest("(key)"))
    );
    assert_eq!(condition_digest(""), "84222325");
}

#[test]
fn values_and_names_are_sanitized() {
    assert_eq!(sanitize_value("33%"), "33pct");
    assert_eq!(sanitize_value("calc(100vw - 2rem)"), "calc-100vw-2rem");
    assert_eq!(valid_variant_name("-2x-"), "mq-2x");
    assert_eq!(valid_variant_name("-webkit"), "webkit");
    assert_eq!(normalize_value(&Numbers::Computed, " Portrait "), "portrait");
    assert_eq!(normalize_value(&Numbers::Computed, "env(A)"), "env(A)");
}
