//! Rewriting class attributes of HTML-like sources.
use tw_migrate::edit::Edit;
use tw_migrate::html_attribute::{
    candidates_fit_attribute, escape_js_content, render_js_site, unescape_js_content,
};
use tw_migrate::html_live::{live_attribute_end, live_synthetic_class, rebase_attribute};
use tw_migrate::html_rewrite::{contextual_candidate, plan_html_file};
use tw_migrate::plan::{Candidates, Conflicts};
use tw_migrate::selector::SelectorKey;
use tw_migrate::source::{HtmlAttribute, HtmlElement, HtmlStylesheet, SourceFile};

fn candidates_of(entries: Vec<(SelectorKey, Vec<String>)>) -> Candidates {
    Candidates { entries }
}

fn no_conflicts() -> Conflicts {
    Conflicts { pairs: Vec::new() }
}

fn conflicts_of(pairs: Vec<(&str, &str)>) -> Conflicts {
    Conflicts { pairs: pairs.into_iter().map(|(a, b)| (a.to_string(), b.to_string())).collect() }
}

fn quoted_fixture(source: &str, value_start: usize, value: &str) -> SourceFile {
    SourceFile {
        path: "/project/index.html".to_string(),
        source: source.to_string(),
        writable: true,
        html_elements: vec![HtmlElement {
            class_attribute: Some(HtmlAttribute {
                value: value.to_string(),
                start: value_start,
                end: value_start + value.len(),
                synthetic: false,
                writable: true,
                raw_value: None,
                js_quote: None,
                html_quote: None,
                quote_key: false,
                object_shorthand: false,
            }),
            id_attribute: None,
            node_start: None,
            match_classes: None,
            write_classes: None,
            match_ids: None,
            match_tag: None,
            tag: None,
            css_paths: Vec::new(),
            class_opaque: false,
            module_binding: None,
        }],
        html_stylesheets: vec![HtmlStylesheet {
            css_path: "/project/site.css".to_string(),
            variants: Vec::new(),
            direct: true,
            analyzable: true,
        }],
        html_references_safe: true,
        html_script_text: String::new(),
        prior_edits: Vec::new(),
    }
}

#[test]
fn skips_candidates_containing_the_enclosing_quote_and_blocks_removal() {
    let source = "<div class=\"card\"></div>";
    let file = quoted_fixture(source, source.find("card").unwrap(), "card");
    let candidates = candidates_of(vec![(
        SelectorKey::Class("card".to_string()),
        vec!["[font-family:\"My_Font\"]".to_string(), "p-[13px]".to_string()],
    )]);
    let plan = plan_html_file(&file, "/project/site.css", &candidates, &None, &no_conflicts());
    // The quote-bearing candidate is withheld; the safe one still lands.
    assert_eq!(plan.candidates, vec!["p-[13px]".to_string()]);
    assert_eq!(plan.edits.len(), 1);
    assert!(!plan.edits[0].replacement.contains("My_Font"));
    // The reference stays partially unmigrated, so removal must stay blocked.
    assert_eq!(plan.module_refs.get("card"), Some(1));
    assert_eq!(plan.matched_module_refs.get("card"), None);
}

#[test]
fn treats_only_dom_ascii_whitespace_as_class_separators() {
    let source = "<div class=\"a\u{a0}b\"></div>";
    let value = "a\u{a0}b";
    let file = quoted_fixture(source, source.find(value).unwrap(), value);
    let candidates = candidates_of(vec![(
        SelectorKey::Class("a".to_string()),
        vec!["m-2".to_string()],
    )]);

    let plan = plan_html_file(&file, "/project/site.css", &candidates, &None, &no_conflicts());

    assert!(plan.edits.is_empty());
    assert!(plan.module_refs.is_empty());
}

#[test]
fn warns_when_a_generated_utility_conflicts_with_an_existing_class() {
    let source = "<div class=\"card p-4\"></div>";
    let file = quoted_fixture(source, source.find("card").unwrap(), "card p-4");
    let candidates = candidates_of(vec![(
        SelectorKey::Class("card".to_string()),
        vec!["p-[13px]".to_string()],
    )]);
    let plan = plan_html_file(&file, "/project/site.css", &candidates, &None, &conflicts_of(vec![("p-[13px]", "p-4")]));
    // Parity with the JS path: append with a warning, do not block.
    assert_eq!(plan.edits.len(), 1);
    assert_eq!(plan.edits[0].replacement, "card p-4 p-[13px]");
    assert_eq!(plan.warnings.len(), 1);
    assert_eq!(plan.warnings[0].code, "existing-tailwind-conflict");
}

#[test]
fn appends_double_quoted_candidates_inside_single_quoted_attributes() {
    let source = "<div class='card'></div>";
    let file = quoted_fixture(source, source.find("card").unwrap(), "card");
    let candidates = candidates_of(vec![(
        SelectorKey::Class("card".to_string()),
        vec!["[font-family:\"My_Font\"]".to_string()],
    )]);
    let plan = plan_html_file(&file, "/project/site.css", &candidates, &None, &no_conflicts());
    assert_eq!(plan.edits.len(), 1);
    assert_eq!(plan.edits[0].replacement, "card [font-family:\"My_Font\"]");
    assert_eq!(plan.matched_module_refs.get("card"), Some(1));
}

#[test]
fn keeps_conditional_class_candidates_on_their_own_sites() {
    let source = r#"<p :class="{ first: a, second: b }"></p>"#;
    let first = source.find("first").unwrap();
    let second = source.find("second").unwrap();
    let site = |value: &str, start| HtmlElement {
        class_attribute: Some(HtmlAttribute {
            value: value.to_string(),
            start,
            end: start + value.len(),
            synthetic: false,
            writable: true,
            raw_value: Some(value.to_string()),
            js_quote: Some("'".to_string()),
            html_quote: Some("\"".to_string()),
            quote_key: true,
            object_shorthand: false,
        }),
        id_attribute: None,
        node_start: Some(source.find("<p").unwrap()),
        match_classes: Some(vec!["first".to_string(), "second".to_string()]),
        write_classes: Some(vec![value.to_string()]),
        match_ids: None,
        match_tag: None,
        tag: Some("p".to_string()),
        css_paths: Vec::new(),
        class_opaque: false,
            module_binding: None,
    };
    let mut file = quoted_fixture(source, first, "first");
    file.html_elements = vec![site("first", first), site("second", second)];
    let candidates = candidates_of(vec![
        (SelectorKey::Class("first".to_string()), vec!["p-4".to_string()]),
        (SelectorKey::Class("second".to_string()), vec!["m-2".to_string()]),
    ]);

    let plan = plan_html_file(&file, "/project/site.css", &candidates, &None, &no_conflicts());

    assert_eq!(plan.edits.len(), 2);
    assert_eq!(plan.edits[0].replacement, "'first p-4'");
    assert_eq!(plan.edits[1].replacement, "'second m-2'");
    assert_eq!(plan.matches[0].start, first);
    assert_eq!(plan.matches[0].end, first + "first".len());
    assert_eq!(plan.matches[0].element_start, Some(source.find("<p").unwrap()));
    assert_eq!(plan.matches[1].start, second);
    assert_eq!(plan.matches[1].end, second + "second".len());
    assert_eq!(plan.matches[1].element_start, Some(source.find("<p").unwrap()));
}

#[test]
fn rejects_object_key_quotes_that_match_the_html_attribute() {
    let source = r#"<p :class="{ btn: ok }"></p>"#;
    let btn = source.find("btn").unwrap();
    let mut file = quoted_fixture(source, btn, "btn");
    file.html_elements = vec![HtmlElement {
        class_attribute: Some(HtmlAttribute {
            value: "btn".to_string(),
            start: btn,
            end: btn + "btn".len(),
            synthetic: false,
            writable: true,
            raw_value: Some("btn".to_string()),
            js_quote: Some("\"".to_string()),
            html_quote: Some("\"".to_string()),
            quote_key: true,
            object_shorthand: false,
        }),
        id_attribute: None,
        node_start: None,
        match_classes: None,
        write_classes: Some(vec!["btn".to_string()]),
        match_ids: None,
        match_tag: None,
        tag: Some("p".to_string()),
        css_paths: Vec::new(),
        class_opaque: false,
            module_binding: None,
    }];
    let candidates = candidates_of(vec![(
        SelectorKey::Class("btn".to_string()),
        vec!["p-4".to_string()],
    )]);

    let plan = plan_html_file(&file, "/project/site.css", &candidates, &None, &no_conflicts());

    assert!(plan.edits.is_empty());
    assert!(plan.matches.is_empty());
    assert_eq!(plan.module_refs.get("btn"), Some(1));
    assert_eq!(plan.matched_module_refs.get("btn"), None);
}

#[test]
fn rejects_html_entity_candidates_inside_directive_expressions() {
    let source = r#"<p :class="['btn']"></p>"#;
    let btn = source.find("btn").unwrap();
    let mut file = quoted_fixture(source, btn, "btn");
    file.html_elements = vec![HtmlElement {
        class_attribute: Some(HtmlAttribute {
            value: "btn".to_string(),
            start: btn,
            end: btn + "btn".len(),
            synthetic: false,
            writable: true,
            raw_value: Some("btn".to_string()),
            js_quote: Some("'".to_string()),
            html_quote: Some("\"".to_string()),
            quote_key: false,
            object_shorthand: false,
        }),
        id_attribute: None,
        node_start: None,
        match_classes: None,
        write_classes: Some(vec!["btn".to_string()]),
        match_ids: None,
        match_tag: None,
        tag: Some("p".to_string()),
        css_paths: Vec::new(),
        class_opaque: false,
            module_binding: None,
    }];
    let candidates = candidates_of(vec![(
        SelectorKey::Class("btn".to_string()),
        vec!["content-['&quot;']".to_string()],
    )]);

    let plan = plan_html_file(&file, "/project/site.css", &candidates, &None, &no_conflicts());

    assert!(plan.edits.is_empty());
    assert!(plan.matches.is_empty());
    assert_eq!(plan.module_refs.get("btn"), Some(1));
    assert_eq!(plan.matched_module_refs.get("btn"), None);
}

#[test]
fn invalid_directive_metadata_never_counts_as_a_matched_reference() {
    let source = r#"<p :class="['btn']"></p>"#;
    let btn = source.find("btn").unwrap();
    let mut file = quoted_fixture(source, btn, "btn");
    file.html_elements = vec![HtmlElement {
        class_attribute: Some(HtmlAttribute {
            value: "btn".to_string(),
            start: btn,
            end: btn + "btn".len(),
            synthetic: false,
            writable: true,
            raw_value: None,
            js_quote: Some("'".to_string()),
            html_quote: Some("\"".to_string()),
            quote_key: false,
            object_shorthand: false,
        }),
        id_attribute: None,
        node_start: None,
        match_classes: None,
        write_classes: Some(vec!["btn".to_string()]),
        match_ids: None,
        match_tag: None,
        tag: Some("p".to_string()),
        css_paths: Vec::new(),
        class_opaque: false,
            module_binding: None,
    }];
    let candidates = candidates_of(vec![(
        SelectorKey::Class("btn".to_string()),
        vec!["p-4".to_string()],
    )]);

    let plan = plan_html_file(&file, "/project/site.css", &candidates, &None, &no_conflicts());

    assert!(plan.edits.is_empty());
    assert!(plan.matches.is_empty());
    assert_eq!(plan.module_refs.get("btn"), Some(1));
    assert_eq!(plan.matched_module_refs.get("btn"), None);
}

#[test]
fn a_distinct_unconditional_site_receives_id_candidates_only() {
    let source = r#"<p id="hero" :class="{ btn: ok }"></p>"#;
    let hero = source.find("hero").unwrap();
    let btn = source.find("btn").unwrap();
    let insertion = source.find(" :class").unwrap();
    let id = HtmlAttribute {
        value: "hero".to_string(),
        start: hero,
        end: hero + "hero".len(),
        synthetic: false,
        writable: true,
        raw_value: None,
        js_quote: None,
        html_quote: None,
        quote_key: false,
        object_shorthand: false,
    };
    let conditional = HtmlElement {
        class_attribute: Some(HtmlAttribute {
            value: "btn".to_string(),
            start: btn,
            end: btn + "btn".len(),
            synthetic: false,
            writable: true,
            raw_value: Some("btn".to_string()),
            js_quote: Some("'".to_string()),
            html_quote: Some("\"".to_string()),
            quote_key: true,
            object_shorthand: false,
        }),
        id_attribute: Some(id.clone()),
        node_start: Some(source.find("<p").unwrap()),
        match_classes: Some(vec!["btn".to_string()]),
        write_classes: Some(vec!["btn".to_string()]),
        match_ids: Some(vec!["hero".to_string()]),
        match_tag: None,
        tag: Some("p".to_string()),
        css_paths: Vec::new(),
        class_opaque: false,
            module_binding: None,
    };
    let unconditional = HtmlElement {
        class_attribute: Some(HtmlAttribute {
            value: String::new(),
            start: insertion,
            end: insertion,
            synthetic: true,
            writable: true,
            raw_value: None,
            js_quote: None,
            html_quote: None,
            quote_key: false,
            object_shorthand: false,
        }),
        id_attribute: Some(id),
        node_start: Some(source.find("<p").unwrap()),
        match_classes: Some(vec!["btn".to_string()]),
        write_classes: Some(Vec::new()),
        match_ids: Some(vec!["hero".to_string()]),
        match_tag: None,
        tag: Some("p".to_string()),
        css_paths: Vec::new(),
        class_opaque: false,
            module_binding: None,
    };
    let mut file = quoted_fixture(source, btn, "btn");
    file.html_elements = vec![conditional, unconditional];
    let candidates = candidates_of(vec![
        (SelectorKey::Class("btn".to_string()), vec!["p-4".to_string()]),
        (SelectorKey::Id("hero".to_string()), vec!["m-2".to_string()]),
    ]);

    let plan = plan_html_file(&file, "/project/site.css", &candidates, &None, &no_conflicts());

    assert_eq!(plan.edits.len(), 2);
    assert_eq!(
        plan.edits
            .iter()
            .find(|edit| edit.start == insertion)
            .unwrap()
            .replacement,
        " class=\"m-2\""
    );
    assert_eq!(
        plan.edits.iter().find(|edit| edit.start == btn).unwrap().replacement,
        "'btn p-4'"
    );
    assert!(plan
        .edits
        .iter()
        .all(|edit| !edit.replacement.contains("p-4 m-2")));
}

#[test]
fn escapes_javascript_literal_delimiters_without_touching_authored_content() {
    let source = r#"<p :class="['card\\x', `tick`] "></p>"#;
    let card = source.find("card").unwrap();
    let tick = source.find("tick").unwrap();
    let mut file = quoted_fixture(source, card, "card\\x");
    file.html_elements = vec![
        HtmlElement {
            class_attribute: Some(HtmlAttribute {
                value: "card\\x".to_string(),
                start: card,
                end: card + r"card\\x".len(),
                synthetic: false,
                writable: true,
                raw_value: Some(r"card\\x".to_string()),
                js_quote: Some("'".to_string()),
                html_quote: Some("\"".to_string()),
                quote_key: false,
                object_shorthand: false,
            }),
            id_attribute: None,
            node_start: None,
            match_classes: None,
            write_classes: Some(vec!["card\\x".to_string()]),
            match_ids: None,
            match_tag: None,
            tag: Some("p".to_string()),
            css_paths: Vec::new(),
            class_opaque: false,
            module_binding: None,
        },
        HtmlElement {
            class_attribute: Some(HtmlAttribute {
                value: "tick".to_string(),
                start: tick,
                end: tick + "tick".len(),
                synthetic: false,
                writable: true,
                raw_value: Some("tick".to_string()),
                js_quote: Some("`".to_string()),
                html_quote: Some("\"".to_string()),
                quote_key: false,
                object_shorthand: false,
            }),
            id_attribute: None,
            node_start: None,
            match_classes: None,
            write_classes: Some(vec!["tick".to_string()]),
            match_ids: None,
            match_tag: None,
            tag: Some("p".to_string()),
            css_paths: Vec::new(),
            class_opaque: false,
            module_binding: None,
        },
    ];
    let candidates = candidates_of(vec![
        (
            SelectorKey::Class("card\\x".to_string()),
            vec![
                "content-['x']".to_string(),
                "content-[\"blocked\"]".to_string(),
            ],
        ),
        (
            SelectorKey::Class("tick".to_string()),
            vec!["content-[`${x}`]".to_string()],
        ),
    ]);

    let plan = plan_html_file(&file, "/project/site.css", &candidates, &None, &no_conflicts());

    assert_eq!(plan.edits[0].replacement, r"card\\x content-[\'x\']");
    assert!(!plan.edits[0].replacement.contains("blocked"));
    assert_eq!(plan.edits[1].replacement, r"tick content-[\`\${x}\`]" );
    assert_eq!(plan.matched_module_refs.get("card\\x"), None);
}

#[test]
fn preserves_object_shorthand_values_when_quoting_keys() {
    let source = r#"<p :class="{ active }"></p>"#;
    let start = source.find("active").unwrap();
    let mut file = quoted_fixture(source, start, "active");
    file.html_elements[0].class_attribute = Some(HtmlAttribute {
        value: "active".to_string(),
        start,
        end: start + "active".len(),
        synthetic: false,
        writable: true,
        raw_value: Some("active".to_string()),
        js_quote: Some("'".to_string()),
        html_quote: Some("\"".to_string()),
        quote_key: true,
        object_shorthand: true,
    });
    file.html_elements[0].write_classes = Some(vec!["active".to_string()]);
    let candidates = candidates_of(vec![(
        SelectorKey::Class("active".to_string()),
        vec!["m-2".to_string()],
    )]);

    let plan = plan_html_file(&file, "/project/site.css", &candidates, &None, &no_conflicts());
    assert_eq!(plan.edits[0].replacement, "'active m-2': active");
    let rebased = rebase_attribute(
        file.html_elements[0].class_attribute.clone().unwrap(),
        &plan.edits,
    )
    .unwrap();
    assert_eq!(rebased.value, "active m-2");
    assert_eq!(rebased.raw_value.as_deref(), Some("active m-2"));
    assert!(!rebased.object_shorthand);
}

#[test]
fn canonicalizes_numeric_object_keys_before_rebasing() {
    let source = r#"<p :class="{ [0x10]: on }"></p>"#;
    let start = source.find("0x10").unwrap();
    let mut file = quoted_fixture(source, start, "16");
    file.html_elements[0].class_attribute = Some(HtmlAttribute {
        value: "16".to_string(),
        start,
        end: start + "0x10".len(),
        synthetic: false,
        writable: true,
        raw_value: Some("0x10".to_string()),
        js_quote: Some("'".to_string()),
        html_quote: Some("\"".to_string()),
        quote_key: true,
        object_shorthand: false,
    });
    file.html_elements[0].write_classes = Some(vec!["16".to_string()]);
    let candidates = candidates_of(vec![(
        SelectorKey::Class("16".to_string()),
        vec!["m-2".to_string()],
    )]);

    let plan = plan_html_file(&file, "/project/site.css", &candidates, &None, &no_conflicts());
    assert_eq!(plan.edits[0].replacement, "'16 m-2'");
    let rebased = rebase_attribute(
        file.html_elements[0].class_attribute.clone().unwrap(),
        &plan.edits,
    )
    .unwrap();
    assert_eq!(rebased.value, "16 m-2");
    assert_eq!(rebased.raw_value.as_deref(), Some("16 m-2"));
}

#[test]
fn rebases_quoted_object_keys_without_losing_runtime_classes_or_spans() {
    let attribute = HtmlAttribute {
        value: "btn".to_string(),
        start: 10,
        end: 13,
        synthetic: false,
        writable: true,
        raw_value: Some("btn".to_string()),
        js_quote: Some("'".to_string()),
        html_quote: Some("\"".to_string()),
        quote_key: true,
        object_shorthand: false,
    };
    let first = rebase_attribute(
        attribute,
        &vec![Edit {
            start: 10,
            end: 13,
            replacement: "'btn p-4'".to_string(),
        }],
    )
    .unwrap();
    assert_eq!((first.start, first.end), (11, 18));
    assert_eq!(first.value, "btn p-4");
    assert_eq!(first.raw_value.as_deref(), Some("btn p-4"));
    assert!(!first.quote_key);

    let second = rebase_attribute(
        first,
        &vec![Edit {
            start: 11,
            end: 18,
            replacement: "btn p-4 m-2".to_string(),
        }],
    )
    .unwrap();
    assert_eq!((second.start, second.end), (11, 22));
    assert_eq!(second.value, "btn p-4 m-2");
}

#[test]
fn preserves_html_bytes_around_literal_value_edits() {
    let file = SourceFile {
        path: "/project/index.html".to_string(),
        source: "<main class='card featured' id=hero></main>".to_string(),
        writable: true,
        html_elements: vec![HtmlElement {
            class_attribute: Some(HtmlAttribute {
                value: "card featured".to_string(),
                start: 13,
                end: 26,
                synthetic: false,
                writable: true,
                raw_value: None,
                js_quote: None,
                html_quote: None,
                quote_key: false,
                object_shorthand: false,
            }),
            id_attribute: Some(HtmlAttribute {
                value: "hero".to_string(),
                start: 31,
                end: 35,
                synthetic: false,
                writable: true,
                raw_value: None,
                js_quote: None,
                html_quote: None,
                quote_key: false,
                object_shorthand: false,
            }),
            node_start: None,
            match_classes: None,
            write_classes: None,
            match_ids: None,
            match_tag: None,
            tag: None,
            css_paths: Vec::new(),
            class_opaque: false,
            module_binding: None,
        }],
        html_stylesheets: vec![HtmlStylesheet {
            css_path: "/project/site.css".to_string(),
            variants: vec!["print".to_string()],
            direct: true,
            analyzable: true,
        }],
        html_references_safe: true,
        html_script_text: String::new(),
        prior_edits: Vec::new(),
    };
    let candidates = candidates_of(vec![
        (
            SelectorKey::Class("card".to_string()),
            vec!["p-4".to_string()],
        ),
        (
            SelectorKey::Id("hero".to_string()),
            vec!["h-screen".to_string()],
        ),
    ]);
    let plan = plan_html_file(&file, "/project/site.css", &candidates, &None, &no_conflicts());
    let edit = &plan.edits[0];
    let mut output = file.source.clone();
    output.replace_range(edit.start..edit.end, &edit.replacement);
    assert_eq!(
        output,
        "<main class='card featured print:p-4 print:h-screen' id=hero></main>"
    );
}

#[test]
fn matched_references_never_exceed_references() {
    let source = "<div class=\"card card wide\"></div>";
    let file = quoted_fixture(source, source.find("card").unwrap(), "card card wide");
    let candidates = candidates_of(vec![
        (SelectorKey::Class("card".to_string()), vec!["p-4".to_string()]),
        (SelectorKey::Class("wide".to_string()), vec!["[font-family:\"X\"]".to_string()]),
    ]);
    let plan = plan_html_file(&file, "/project/site.css", &candidates, &None, &no_conflicts());
    assert_eq!(plan.module_refs.get("card"), Some(2));
    assert_eq!(plan.matched_module_refs.get("card"), Some(2));
    assert_eq!(plan.module_refs.get("wide"), Some(1));
    assert_eq!(plan.matched_module_refs.get("wide"), None);
    assert_eq!(plan.edits[0].replacement, "card card wide p-4");
    assert_eq!(plan.candidates, vec!["p-4".to_string()]);
}

#[test]
fn a_stylesheet_without_a_link_changes_nothing() {
    let source = "<div class=\"card\"></div>";
    let file = quoted_fixture(source, source.find("card").unwrap(), "card");
    let candidates = candidates_of(vec![(SelectorKey::Class("card".to_string()), vec!["p-4".to_string()])]);
    let plan = plan_html_file(&file, "/project/other.css", &candidates, &None, &no_conflicts());
    assert!(plan.edits.is_empty());
    assert!(plan.matches.is_empty());
    assert!(plan.module_refs.is_empty());
}

#[test]
fn read_only_sites_still_warn_of_conflicts() {
    let source = "<div class=\"card p-4\"></div>";
    let mut file = quoted_fixture(source, source.find("card").unwrap(), "card p-4");
    file.html_elements[0].class_attribute.as_mut().unwrap().writable = false;
    let candidates = candidates_of(vec![(SelectorKey::Class("card".to_string()), vec!["p-2".to_string()])]);
    let plan = plan_html_file(
        &file,
        "/project/site.css",
        &candidates,
        &None,
        &conflicts_of(vec![("p-2", "p-4")]),
    );
    assert!(plan.edits.is_empty());
    assert_eq!(plan.warnings.len(), 1);
    assert_eq!(
        plan.warnings[0].message,
        "Generated utility `p-2` may conflict with existing `p-4`."
    );
    assert_eq!((plan.warnings[0].start, plan.warnings[0].end), (12, 20));
}

#[test]
fn unescaping_gives_back_what_was_escaped() {
    for value in ["a'b", "a\"b", "`${x}`", "\\\\ \\'", "$ {", ""] {
        for quote in ['\'', '"', '`'] {
            let escaped = escape_js_content(value, quote);
            assert_eq!(unescape_js_content(&escaped, quote), Some(value.to_string()));
        }
    }
    assert_eq!(escape_js_content("a${b}", '`'), "a\\${b}");
    assert_eq!(escape_js_content("a${b}", '\''), "a${b}");
    assert_eq!(unescape_js_content("a\\n", '\''), None);
    assert_eq!(unescape_js_content("a\\", '\''), None);
}

#[test]
fn rendering_quotes_keys_and_keeps_shorthand_values() {
    let additions = vec!["m-2".to_string()];
    assert_eq!(render_js_site("btn", "btn", '\'', false, false, &additions), "btn m-2");
    assert_eq!(render_js_site("btn", "btn", '\'', true, false, &additions), "'btn m-2'");
    assert_eq!(render_js_site("btn", "btn", '"', true, true, &additions), "\"btn m-2\": btn");
}

#[test]
fn variants_stand_behind_the_utility_prefix() {
    let variants = vec!["print".to_string(), "md".to_string()];
    assert_eq!(contextual_candidate("p-4", &variants, &None), "print:md:p-4");
    assert_eq!(contextual_candidate("tw:p-4", &variants, &Some("tw".to_string())), "tw:print:md:p-4");
    assert_eq!(contextual_candidate("p-4", &variants, &Some("tw".to_string())), "print:md:p-4");
    assert_eq!(contextual_candidate("p-4", &Vec::new(), &Some("tw".to_string())), "p-4");
}

#[test]
fn live_values_end_at_their_delimiter() {
    assert_eq!(live_attribute_end("<a class=\"x y\" id=z>", 10), Some(13));
    assert_eq!(live_attribute_end("<a class=\"x y", 10), None);
    assert_eq!(live_attribute_end("<a id=z>", 6), Some(7));
    assert_eq!(live_attribute_end("<a id=zz", 6), Some(8));
    assert_eq!(live_attribute_end("\u{e9}", 1), None);
    let (live, inserted) = live_synthetic_class("<p class=\"m-2\">", 2).unwrap();
    assert_eq!((live.value.as_str(), live.start, live.end, inserted), ("m-2", 10, 13, 12));
    let (fresh, inserted) = live_synthetic_class("<p>", 2).unwrap();
    assert_eq!((fresh.synthetic, fresh.start, inserted), (true, 2, 0));
    assert!(live_synthetic_class("<p>", 9).is_none());
}

#[test]
fn candidates_that_would_end_the_attribute_do_not_fit() {
    let source = "<div class=\"card\"></div>";
    let file = quoted_fixture(source, 12, "card");
    let attribute = file.html_elements[0].class_attribute.clone().unwrap();
    assert!(candidates_fit_attribute(source, &attribute, &vec!["a'b".to_string()]));
    assert!(!candidates_fit_attribute(source, &attribute, &vec!["a\"b".to_string()]));
}

#[test]
fn an_edit_inside_a_site_loses_it() {
    let source = "<div class=\"card\"></div>";
    let file = quoted_fixture(source, 12, "card");
    let attribute = file.html_elements[0].class_attribute.clone().unwrap();
    let inside = vec![Edit { start: 13, end: 14, replacement: "x".to_string() }];
    assert!(rebase_attribute(attribute.clone(), &inside).is_none());
    let before = vec![Edit { start: 0, end: 1, replacement: "abc".to_string() }];
    let moved = rebase_attribute(attribute, &before).unwrap();
    assert_eq!((moved.start, moved.end), (14, 18));
}
