//! Facts about expressions and modules.
use tw_migrate::errors::{native_error_reason, ErrorKind};
use tw_migrate::source_analysis::{expression_analysis, source_analysis, SourceAnalysis};

fn imports(source: &str, path: &str) -> Vec<(String, bool, bool)> {
    source_analysis(path, source)
        .unwrap()
        .imports
        .into_iter()
        .map(|import| (import.specifier, import.type_only, import.dynamic))
        .collect()
}

fn module(path: &str, source: &str) -> SourceAnalysis {
    source_analysis(path, source).unwrap()
}

fn check_template_expressions() {
    for (source, static_string, member, uses_css_module) in [
        ("'card'", Some("card"), None, false),
        ("`card`", Some("card"), None, false),
        ("$style.card", None, Some("card"), true),
        ("active ? $style.card : ''", None, None, true),
        ("'$style.card useCssModule()'", Some("$style.card useCssModule()"), None, false),
    ] {
        let analysis = expression_analysis("Component.js", source).unwrap();
        assert_eq!(analysis.static_string.as_deref(), static_string);
        assert_eq!(analysis.vue_module_member.as_deref(), member);
        assert_eq!(analysis.uses_css_module, uses_css_module);
    }
}

fn check_runtime_and_type_only_imports() {
    let collected = imports(
        "import '../globals.css';\n\
         import type { A } from './a.ts';\n\
         import { type B } from './b.ts';\n\
         import Mixed, { type C } from './c.ts';\n\
         export type { D } from './d.ts';\n\
         export { E } from './e.ts';\n\
         const f = await import('./f.ts');\n\
         const g = require('./g.cjs');\n\
         import H = require('./h.ts');\n\
         import sheet from './i.css' with { type: 'css' };\n\
         // import './commented.css';\n\
         const dead = '../dead.css';\n",
        "/project/main.ts",
    );
    assert_eq!(
        collected,
        vec![
            ("../globals.css".to_string(), false, false),
            ("./a.ts".to_string(), true, false),
            ("./b.ts".to_string(), true, false),
            ("./c.ts".to_string(), false, false),
            ("./d.ts".to_string(), true, false),
            ("./e.ts".to_string(), false, false),
            ("./f.ts".to_string(), false, true),
            ("./g.cjs".to_string(), false, true),
            ("./h.ts".to_string(), false, false),
            ("./i.css".to_string(), false, true),
        ]
    );
}

fn check_unparseable_sources() {
    assert!(source_analysis("/p/x.ts", "import from from;").is_err());
}

fn check_vue_syntax() {
    let analysis = module(
        "/p/registry.ts",
        "import Child from './Child.vue';\n\
         import { useCssModule as css } from 'vue';\n\
         import * as Vue from 'vue';\n\
         const patterns = import.meta.glob(['./*.vue', `./nested/*`]);\n\
         const lazy = import('./Lazy.vue');\n\
         defineProps<{ class?: string }>();\n\
         const getStyles = css;\n\
         getStyles();\n\
         Vue.useCssModule();\n",
    );
    assert_eq!(analysis.default_imports.len(), 1);
    assert_eq!(analysis.default_imports[0].source, "./Child.vue");
    assert_eq!(analysis.default_imports[0].local, "Child");
    assert_eq!(analysis.vue_glob_patterns, vec!["./*.vue", "./nested/*"]);
    assert_eq!(analysis.has_dynamic_import, true);
    assert_eq!(analysis.vue_glob_unverifiable, false);
    assert_eq!(analysis.has_vue_fallthrough_macro, true);
    assert_eq!(analysis.uses_css_module, true);
}

fn check_unused_use_css_module_imports() {
    let analysis = module("/p/Card.vue.js", "import { useCssModule } from 'vue';");
    assert_eq!(analysis.uses_css_module, false);
}

fn check_destructured_options_api() {
    for source in [
        "export default { mounted() { const { $style: styles } = this; void styles.card; } };",
        "export default { mounted() { const { $style } = this; void $style.card; } };",
        "export default { mounted() { const vm = this; void vm.$style.card; } };",
        "export default { mounted() { const vm = this; const self = vm; void self['$style'].card; } };",
        "const vm = this as ComponentPublicInstance; void vm.$style.card;",
        "const vm = this satisfies ComponentPublicInstance; void vm.$style.card;",
        "const vm = this!; void vm.$style.card;",
    ] {
        assert_eq!(module("/p/Card.vue.ts", source).uses_css_module, true);
    }

    let unrelated = module(
        "/p/Card.vue.js",
        "const value = {}; const { $style } = value; void $style.card;",
    );
    assert_eq!(unrelated.uses_css_module, false);
}

fn check_computed_vue_namespace() {
    for source in [
        "import * as Vue from 'vue'; Vue['useCssModule']();",
        "import * as Vue from 'vue'; const { useCssModule } = Vue; useCssModule();",
        "import * as Vue from 'vue'; const { useCssModule: css } = Vue; css();",
    ] {
        assert_eq!(module("/p/Card.vue.ts", source).uses_css_module, true);
    }

    let shadowed = module("/p/Card.vue.ts", "const Vue = {}; Vue['useCssModule']();");
    assert_eq!(shadowed.uses_css_module, false);
}

fn check_unreadable_vue_globs() {
    let analysis = module("/p/registry.ts", "const pattern = './*.vue'; import.meta.glob(pattern);");
    assert!(analysis.vue_glob_patterns.is_empty());
    assert_eq!(analysis.vue_glob_unverifiable, true);
}

fn check_ignored_vue_names() {
    let analysis = module(
        "/p/component.ts",
        "// import('./Comment.vue'); defineProps(); useCssModule(); $style\n\
         const text = \"defineOptions inheritAttrs useCssModule $style\";\n\
         const defineProps = () => {};\n\
         const useCssModule = () => {};\n\
         const unrelated = { $style: true };\n\
         defineProps();\n\
         useCssModule();\n\
         unrelated.$style;\n",
    );
    assert_eq!(analysis.has_dynamic_import, false);
    assert_eq!(analysis.has_vue_fallthrough_macro, false);
    assert_eq!(analysis.uses_css_module, false);
}

#[test]
fn analyzes_template_expressions_structurally() {
    check_template_expressions();
}

#[test]
fn source_analysis_analyzes_template_expressions_structurally() {
    check_template_expressions();
}

#[test]
fn collects_runtime_and_type_only_imports() {
    check_runtime_and_type_only_imports();
}

#[test]
fn source_analysis_collects_runtime_and_type_only_imports() {
    check_runtime_and_type_only_imports();
}

#[test]
fn rejects_unparseable_sources() {
    check_unparseable_sources();
}

#[test]
fn source_analysis_rejects_unparseable_sources() {
    check_unparseable_sources();
}

#[test]
fn analyzes_vue_syntax_semantically() {
    check_vue_syntax();
}

#[test]
fn source_analysis_analyzes_vue_syntax_semantically() {
    check_vue_syntax();
}

#[test]
fn ignores_unused_use_css_module_imports() {
    check_unused_use_css_module_imports();
}

#[test]
fn source_analysis_ignores_unused_use_css_module_imports() {
    check_unused_use_css_module_imports();
}

#[test]
fn recognizes_destructured_options_api_css_module_references() {
    check_destructured_options_api();
}

#[test]
fn source_analysis_recognizes_destructured_options_api_css_module_references() {
    check_destructured_options_api();
}

#[test]
fn recognizes_computed_vue_namespace_css_module_references() {
    check_computed_vue_namespace();
}

#[test]
fn source_analysis_recognizes_computed_vue_namespace_css_module_references() {
    check_computed_vue_namespace();
}

#[test]
fn marks_unreadable_vue_globs_unverifiable() {
    check_unreadable_vue_globs();
}

#[test]
fn source_analysis_marks_unreadable_vue_globs_unverifiable() {
    check_unreadable_vue_globs();
}

#[test]
fn ignores_vue_names_in_comments_strings_and_shadowed_bindings() {
    check_ignored_vue_names();
}

#[test]
fn source_analysis_ignores_vue_names_in_comments_strings_and_shadowed_bindings() {
    check_ignored_vue_names();
}

#[test]
fn expressions_count_references_and_not_names() {
    for (source, uses) in [
        ("{ $style: 1 }.$style", false),
        ("{ a: $style }", true),
        ("{ $style }", true),
        ("{ [$style]: 1 }", true),
        ("x.$style", false),
        ("x[$style]", true),
        ("($style) => 1", false),
        ("(a = $style) => 1", true),
        ("[$style] = b", true),
        ("function $style() {}", false),
    ] {
        let text = format!("({source})");
        assert_eq!(expression_analysis("A.ts", &text).unwrap().uses_css_module, uses, "{source}");
    }
}

#[test]
fn expressions_that_do_not_parse_are_errors() {
    let error = expression_analysis("A.ts", "a +").unwrap_err();
    assert!(error.message.starts_with("Failed to parse A.ts: "), "{error:?}");
    assert_eq!(error.kind, ErrorKind::SourceParse);
    assert_eq!(native_error_reason(&error, false), error.message);
    assert!(expression_analysis("A.css", "a").is_err());
    assert_eq!(expression_analysis("A.ts", "a +").is_err(), true);
    assert_eq!(expression_analysis("A.ts", "'a' b").unwrap().static_string.as_deref(), Some("a"));
}

#[test]
fn modules_that_do_not_read_are_errors() {
    let error = source_analysis("/p/x.ts", "import from from;").unwrap_err();
    assert_eq!((error.kind, error.message.as_str()), (ErrorKind::SourceParse, "Failed to parse /p/x.ts"));
    let error = source_analysis("/p/x.ts", "let a; let a;").unwrap_err();
    assert_eq!((error.kind, error.message.as_str()), (ErrorKind::SourceAnalysis, "Failed to analyze /p/x.ts"));
    let error = source_analysis("app.js", "const =").unwrap_err();
    assert_eq!(native_error_reason(&error, false), "Failed to parse app.js");
    assert_eq!(source_analysis("/p/x.css", "").unwrap_err().kind, ErrorKind::UnsupportedSource);
}

#[test]
fn attribute_clauses_are_seen_behind_comments() {
    assert_eq!(
        imports(
            "import './a.css' /* { */;\nimport './b.css' // with\n;\nimport './c.css' /* x */ with {};\nimport './d.css'\n",
            "/p/a.ts"
        ),
        vec![
            ("./a.css".to_string(), false, false),
            ("./b.css".to_string(), false, false),
            ("./c.css".to_string(), false, true),
            ("./d.css".to_string(), false, false),
        ]
    );
}
