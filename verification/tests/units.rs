//! Edits, positions, Vue blocks, source maps and the other parts of a plan.
use tw_migrate::animations::{animation_candidate, append_keyframes, is_animation_keyword, KeyframePlan};
use tw_migrate::css::{Halt, Parse, StylesheetSyntax};
use tw_migrate::edit::{apply_edits, original_offset, shift_offset, sort_edits, Edit};
use tw_migrate::errors::ErrorKind;
use tw_migrate::media_gate::{do_clash, is_ordering_sensitive, BatchMatch, CandidateParts, ConditionBounds, Utilities, WidthBound};
use tw_migrate::names::{insert_names, References};
use tw_migrate::plan::Conflicts;
use tw_migrate::position::{has_byte_at, line_column_to_offset, mentions_word, offset_to_line_column};
use tw_migrate::request::{is_stylesheet_module, is_vue_path, Settings, VueBlock};
use tw_migrate::request_rules::are_neighbours;
use tw_migrate::rules::RuleId;
use tw_migrate::source_map::{decode_source_map, render_mappings};
use tw_migrate::staging::{
    capture_file, capture_link, entry_action, installed_bin, is_tarball, npm_command, npm_pack, setup_failure,
    stage_manifest, unique_dir, EntryAction, EntryKind, Manifest,
};
use tw_migrate::text::{join, split_words, Separator};
use tw_migrate::theme::{exact_theme_token, find_spacing_numbers};
use tw_migrate::tree::Tree;
use tw_migrate::vue::{mask_vue_source, rebase_vue_blocks, vue_retention_warning};

fn texts(list: &[&str]) -> Vec<String> {
    list.iter().map(|item| item.to_string()).collect()
}

fn pairs(list: &[(&str, &str)]) -> Vec<(String, String)> {
    list.iter().map(|(a, b)| (a.to_string(), b.to_string())).collect()
}

fn edit(start: usize, end: usize, replacement: &str) -> Edit {
    Edit { start, end, replacement: replacement.to_string() }
}

// ---------------------------------------------------------------------------
// Edits and positions
// ---------------------------------------------------------------------------

#[test]
fn edits_are_applied_in_order() {
    let edits = vec![edit(6, 11, "there"), edit(0, 5, "Hello"), edit(11, 11, "!")];
    assert_eq!(apply_edits("hello world", &edits).unwrap(), "Hello there!");
    let sorted = sort_edits(&edits);
    assert_eq!(sorted.iter().map(|edit| edit.start).collect::<Vec<_>>(), vec![0, 6, 11]);
}

#[test]
fn overlapping_and_cutting_edits_are_refused() {
    assert_eq!(
        apply_edits("abcdef", &vec![edit(0, 3, ""), edit(2, 4, "")]).unwrap_err(),
        "Overlapping source edits were produced"
    );
    assert_eq!(apply_edits("abc", &vec![edit(2, 9, "")]).unwrap_err(), "Invalid source edit span");
    assert_eq!(apply_edits("é", &vec![edit(1, 2, "")]).unwrap_err(), "Invalid source edit span");
}

#[test]
fn tracing_an_offset_undoes_shifting_it() {
    let edits = vec![edit(0, 2, "xxxx"), edit(4, 5, "")];
    assert_eq!(shift_offset(&edits, 3), 5);
    assert_eq!(shift_offset(&edits, 8), 9);
    let batches = vec![edits];
    assert_eq!(original_offset(&batches, 5), 3);
    assert_eq!(original_offset(&batches, 9), 8);
}

#[test]
fn the_end_of_a_text_moves_to_the_end_of_the_edited_text() {
    let edits = vec![edit(0, 2, "xxxx"), edit(4, 5, ""), edit(6, 6, "!!")];
    let edited = apply_edits("abcdef", &edits).unwrap();
    assert_eq!(edited, "xxxxcdf!!");
    assert_eq!(shift_offset(&edits, 6), edited.len());
    assert_eq!(original_offset(&vec![edits], edited.len()), 6);
}

#[test]
fn lines_and_columns_count_utf16_units() {
    let source = "a\n😀b\n";
    assert_eq!(offset_to_line_column(source, 6), Some((1, 2)));
    assert_eq!(line_column_to_offset(source, 1, 2), Some(6));
    assert_eq!(offset_to_line_column(source, 3), None);
    assert_eq!(offset_to_line_column(source, 99), None);
    assert_eq!(line_column_to_offset(source, 1, 1), None);
    assert_eq!(line_column_to_offset(source, 2, 0), Some(8));
    assert!(has_byte_at(source, 0, b'a'));
    assert!(!has_byte_at(source, 8, b'\n'));
}

#[test]
fn words_are_bounded_by_identifier_bytes() {
    assert!(mentions_word("a .card {", "card"));
    assert!(!mentions_word("cardio card-x", "card"));
    assert!(mentions_word("cardio card", "card"));
}

#[test]
fn splitting_a_joined_list_gives_it_back() {
    let list = texts(&["card", "p-[4px]", "md:flex"]);
    let line = join(&list, " ");
    assert_eq!(line, "card p-[4px] md:flex");
    assert_eq!(split_words(&line, Separator::Whitespace), list);
    assert_eq!(split_words("  card\t p-[4px]\n\u{2003}md:flex ", Separator::Whitespace), list);
    assert_eq!(split_words(&join(&Vec::new(), " "), Separator::Whitespace), texts(&[]));
}

#[test]
fn references_are_counted_by_name() {
    let mut references = References::new();
    references.record("a");
    references.record("b");
    references.record("a");
    assert_eq!(references.get("a"), Some(2));
    assert_eq!(references.get("c"), None);
    let mut names = texts(&["b"]);
    insert_names(&mut names, &texts(&["c", "a", "b"]));
    assert_eq!(names, texts(&["a", "b", "c"]));
}

// ---------------------------------------------------------------------------
// Source maps
// ---------------------------------------------------------------------------

#[test]
fn decodes_source_map_mappings() {
    let decoded =
        decode_source_map(r#"{"version":3,"sources":["input.scss"],"names":[],"mappings":"AAAA"}"#).unwrap();
    assert_eq!(
        decoded,
        r#"[{"generatedLine":0,"generatedColumn":0,"source":"input.scss","originalLine":0,"originalColumn":0}]"#
    );
}

#[test]
fn source_maps_that_do_not_decode_are_refused() {
    let error = decode_source_map("{").unwrap_err();
    assert!(error.message.starts_with("Failed to decode source map: "));
    assert_eq!(error.kind, ErrorKind::SourceMap);
    assert!(!error.is_recoverable());
}

#[test]
fn mappings_without_a_source_are_left_out() {
    let tokens = vec![(1, 2, 3, 4, Some("a\"b".to_string())), (5, 6, 7, 8, None)];
    assert_eq!(
        render_mappings(Ok(tokens)).unwrap(),
        r#"[{"generatedLine":1,"generatedColumn":2,"source":"a\"b","originalLine":3,"originalColumn":4}]"#
    );
    assert_eq!(render_mappings(Ok(Vec::new())).unwrap(), "[]");
}

// ---------------------------------------------------------------------------
// Vue
// ---------------------------------------------------------------------------

fn block(outer: (usize, usize), content: (usize, usize)) -> VueBlock {
    VueBlock {
        outer_start: outer.0,
        outer_end: outer.1,
        content_start: content.0,
        content_end: content.1,
        syntax: StylesheetSyntax::Css,
        analysis_source: None,
        source_path: None,
        source_mappings: Vec::new(),
    }
}

#[test]
fn masking_keeps_offsets() {
    let source = "<p>é</p>\n<style>\n.a {}\n</style>\n";
    let start = source.find("\n.a").unwrap();
    let end = source.find("</style>").unwrap();
    let outer = (source.find("<style>").unwrap(), end + "</style>".len());
    let masked = mask_vue_source(source, &vec![block(outer, (start, end))]).unwrap();
    assert_eq!(masked.len(), source.len());
    assert_eq!(&masked[start..end], "\n.a {}\n");
    assert!(masked[..start].trim().is_empty());
    assert_eq!(
        mask_vue_source(source, &vec![block((0, 99), (start, end))]).unwrap_err(),
        "Invalid Vue style block span"
    );
}

#[test]
fn blocks_follow_edits_before_them() {
    let blocks = vec![block((10, 30), (15, 25))];
    let moved = rebase_vue_blocks(&vec![vec![edit(0, 2, "12345")]], &blocks).unwrap();
    assert_eq!((moved[0].outer_start, moved[0].outer_end), (13, 33));
    assert_eq!((moved[0].content_start, moved[0].content_end), (18, 28));
    assert_eq!(
        rebase_vue_blocks(&vec![vec![edit(12, 13, "")]], &blocks).unwrap_err(),
        "A Vue style block changed during batch planning"
    );
}

#[test]
fn retention_codes_are_known() {
    for code in ["dynamic-template-class", "component-class-target", "open-root-fallthrough"] {
        assert!(vue_retention_warning(code).unwrap().ends_with("is retained."));
    }
    assert_eq!(vue_retention_warning("other").unwrap_err(), "Unknown Vue retention code: other");
}

#[test]
fn paths_tell_modules_and_components() {
    assert!(is_stylesheet_module("/a/b.module.scss"));
    assert!(!is_stylesheet_module("/a/module.scss"));
    assert!(is_vue_path("/a/b.vue"));
    assert!(!is_vue_path("/a/b.vue.ts"));
    assert!(are_neighbours("/a/b.css", "/a/c.css"));
    assert!(!are_neighbours("/a/b.css", "/a/d/c.css"));
}

// ---------------------------------------------------------------------------
// Theme, animations and media
// ---------------------------------------------------------------------------

#[test]
fn theme_tokens_are_exact() {
    let tokens = pairs(&[("spacing", "0.25rem"), ("spacing-card", "13px"), ("spacing-a", "13px"), ("color-red", "red")]);
    assert_eq!(exact_theme_token("spacing", "13px", &tokens, &None), Some("a".to_string()));
    assert_eq!(exact_theme_token("color", "red", &tokens, &None), Some("red".to_string()));
    assert_eq!(exact_theme_token("color", "blue", &tokens, &None), None);
    assert_eq!(
        find_spacing_numbers("1rem", &tokens),
        Some(("1".to_string(), "0.25".to_string()))
    );
    assert_eq!(exact_theme_token("spacing", "1rem", &tokens, &Some("4".to_string())), Some("4".to_string()));
    assert_eq!(exact_theme_token("spacing", "1px", &tokens, &Some("4".to_string())), None);
    assert_eq!(find_spacing_numbers("1rem", &pairs(&[("spacing", "0rem")])), None);
}

fn spin() -> KeyframePlan {
    KeyframePlan {
        span: (0, 24),
        name: "spin".to_string(),
        migrated_name: "tw-migrate-1-spin".to_string(),
        source: "@keyframes tw-migrate-1-spin {}".to_string(),
    }
}

#[test]
fn animations_name_one_set_of_keyframes() {
    let keyframes = vec![spin()];
    assert_eq!(
        animation_candidate("animation", "spin 1s linear", &keyframes),
        Some("[animation:tw-migrate-1-spin_1s_linear]".to_string())
    );
    assert_eq!(
        animation_candidate("animation-name", "spin", &keyframes),
        Some("[animation-name:tw-migrate-1-spin]".to_string())
    );
    assert_eq!(animation_candidate("animation", "spin 1s, spin 2s", &keyframes), None);
    assert_eq!(animation_candidate("animation", "other 1s", &keyframes), None);
    assert_eq!(animation_candidate("animation-name", "spin spin", &keyframes), None);
    assert!(is_animation_keyword("ease-in-out"));
    assert!(!is_animation_keyword("spin"));
}

#[test]
fn keyframes_need_the_tree_of_the_entry() {
    let keyframes = vec![spin()];
    assert!(matches!(
        append_keyframes(&Vec::new(), "a", &keyframes),
        Err(Halt::Unparsed(text, StylesheetSyntax::Css)) if text == "a"
    ));
    let failed = vec![Parse { text: "a".to_string(), syntax: StylesheetSyntax::Css, outcome: Err("no".to_string()) }];
    assert!(matches!(
        append_keyframes(&failed, "a", &keyframes),
        Err(Halt::Failed(error)) if error.message == "Failed to parse Tailwind CSS: no"
    ));
    let parsed = vec![Parse { text: "a".to_string(), syntax: StylesheetSyntax::Css, outcome: Ok(Tree::Null) }];
    assert_eq!(append_keyframes(&parsed, "a", &keyframes).unwrap(), "a\n\n@keyframes tw-migrate-1-spin {}\n");
}

fn matched(stylesheet: usize, candidate: &str, property: &str) -> BatchMatch {
    BatchMatch {
        stylesheet,
        candidate: candidate.to_string(),
        rule: RuleId { start: 0, end: 1 },
        properties: texts(&[property]),
    }
}

fn bound(value: &str, lower: bool, inclusive: bool) -> WidthBound {
    WidthBound { value: value.to_string(), inclusive, lower }
}

fn parts(variant: &str) -> CandidateParts {
    CandidateParts {
        candidate: format!("{variant}:p-2"),
        variants: texts(&[variant]),
        utility: "p-2".to_string(),
    }
}

#[test]
fn exclusive_media_conditions_do_not_clash() {
    let settings = Settings {
        tailwind_path: None,
        tailwind_source: None,
        utility_prefix: None,
        theme_tokens: Vec::new(),
        media_names: Some(pairs(&[("(width < 600px)", "narrow"), ("(width >= 600px)", "wide"), ("(width >= 500px)", "mid")])),
        entry_writable: true,
        global_at_rule_moves: true,
    };
    let known = Utilities {
        conflicts: Conflicts { pairs: pairs(&[("probe:p-2", "probe:p-2")]) },
        property_conflicts: Conflicts { pairs: pairs(&[("padding", "padding")]) },
        same_variants: Conflicts { pairs: Vec::new() },
        parts: vec![parts("narrow"), parts("wide"), parts("mid")],
        bounds: vec![
            ConditionBounds { key: "(width < 600px)".to_string(), bounds: vec![bound("600px", false, false)] },
            ConditionBounds { key: "(width >= 600px)".to_string(), bounds: vec![bound("600px", true, true)] },
            ConditionBounds { key: "(width >= 500px)".to_string(), bounds: vec![bound("500px", true, true)] },
        ],
    };
    let narrow = matched(0, "narrow:p-2", "padding");
    let wide = matched(0, "wide:p-2", "padding");
    let mid = matched(0, "mid:p-2", "padding");
    assert!(!is_ordering_sensitive(&settings, &known, &narrow, &wide));
    assert!(is_ordering_sensitive(&settings, &known, &narrow, &mid));
    assert!(do_clash(&settings, &known, &mid, &narrow));
    assert!(!do_clash(&settings, &known, &narrow, &narrow));
}

#[test]
fn bounds_out_of_range_are_infinite() {
    let huge = format!("{}px", "9".repeat(400));
    let settings = Settings {
        tailwind_path: None,
        tailwind_source: None,
        utility_prefix: None,
        theme_tokens: pairs(&[("breakpoint-huge", &huge), ("breakpoint-md", "48px")]),
        media_names: Some(Vec::new()),
        entry_writable: true,
        global_at_rule_moves: true,
    };
    let known = Utilities {
        conflicts: Conflicts { pairs: pairs(&[("probe:p-2", "probe:p-2")]) },
        property_conflicts: Conflicts { pairs: pairs(&[("padding", "padding")]) },
        same_variants: Conflicts { pairs: Vec::new() },
        parts: vec![parts("huge"), parts("max-md"), parts("max-huge"), parts("md")],
        bounds: Vec::new(),
    };
    let huge = matched(0, "huge:p-2", "padding");
    let below = matched(0, "max-md:p-2", "padding");
    let finite = matched(0, "max-huge:p-2", "padding");
    let md = matched(0, "md:p-2", "padding");
    assert!(!is_ordering_sensitive(&settings, &known, &below, &huge));
    assert!(!is_ordering_sensitive(&settings, &known, &finite, &huge));
    assert!(is_ordering_sensitive(&settings, &known, &finite, &md));
}

// ---------------------------------------------------------------------------
// Staging
// ---------------------------------------------------------------------------

fn manifest() -> Manifest {
    Manifest {
        version: Some("1.2.3".to_string()),
        optional: Some(texts(&["a", "b"])),
        files: Some(vec![Some("dist".to_string())]),
    }
}

#[test]
fn manifests_are_staged_at_their_own_version() {
    let staged = stage_manifest(&manifest()).unwrap();
    assert_eq!(staged.optional, pairs(&[("a", "1.2.3"), ("b", "1.2.3")]));
    assert_eq!(staged.files, texts(&["dist", "README.md", "LICENSE"]));
    let message = |manifest: Manifest| stage_manifest(&manifest).unwrap_err();
    assert_eq!(message(Manifest { version: None, ..manifest() }), "tracked package.json has no string version");
    assert_eq!(
        message(Manifest { optional: None, ..manifest() }),
        "tracked package.json has no optionalDependencies object"
    );
    assert_eq!(message(Manifest { files: None, ..manifest() }), "tracked package.json has no files array");
    assert_eq!(
        message(Manifest { files: Some(vec![None]), ..manifest() }),
        "package files entries must be strings"
    );
}

#[test]
fn packing_creates_one_tarball() {
    let before = texts(&["/t/a.tgz"]);
    assert_eq!(npm_pack("/p", &before, &texts(&["/t/a.tgz", "/t/b.tgz"])).unwrap(), "/t/b.tgz");
    assert_eq!(
        npm_pack("/p", &before, &texts(&["/t/a.tgz"])).unwrap_err(),
        "npm pack in /p created 0 tarballs, expected one"
    );
    assert!(is_tarball("/t/a.tgz"));
    assert!(!is_tarball("/t/a.tgz.tmp"));
    assert_eq!(npm_command(true), "npm.cmd");
    assert_eq!(npm_command(false), "npm");
    assert_eq!(installed_bin(false), texts(&["node_modules", ".bin", "tw-migrate"]));
    assert_eq!(installed_bin(true)[2], "tw-migrate.cmd");
    assert_eq!(
        setup_failure("pack /p", "exit status: 1", "npm", "out", "err"),
        "pack /p failed with exit status: 1\ncommand: npm\nstdout:\nout\nstderr:\nerr"
    );
    assert_eq!(unique_dir("case", 12, 0), "case-12-0");
}

#[test]
fn workspaces_are_captured_without_version_control() {
    assert_eq!(entry_action(&texts(&[".git", "config"]), EntryKind::File), EntryAction::Skip);
    assert_eq!(entry_action(&texts(&["a", ".git"]), EntryKind::Directory), EntryAction::Descend);
    assert_eq!(entry_action(&texts(&["a"]), EntryKind::File), EntryAction::ReadFile);
    assert_eq!(entry_action(&texts(&["a"]), EntryKind::Link), EntryAction::ReadLink);
    assert_eq!(entry_action(&texts(&["a"]), EntryKind::Other), EntryAction::Reject);
    let mut tree = tw_migrate::snapshots::Tree::new();
    capture_file(&mut tree, &texts(&["b", "c.css"]), "x\r\ny\r");
    capture_link(&mut tree, &texts(&["a"]), &texts(&["b", "c.css"]));
    assert_eq!(tree.entries, pairs(&[("a", "<symlink:b/c.css>"), ("b/c.css", "x\ny\n")]));
}
