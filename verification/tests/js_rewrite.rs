//! Rewriting class names in JavaScript and TypeScript sources.
use tw_migrate::edit::apply_edits;
use tw_migrate::js_rewrite::{
    consume_following_newline, jsx_attribute_value, opaque_reference_plan, plan_batch_source_file, plan_source_file,
};
use tw_migrate::plan::{Candidates, Conflicts, SourcePlan};
use tw_migrate::selector::SelectorKey;
use tw_migrate::source::SourceFile;
use tw_migrate::syntax::validate_js;

const CSS: &str = "/app/card.module.css";

fn file(path: &str, source: &str) -> SourceFile {
    SourceFile {
        path: path.to_string(),
        source: source.to_string(),
        writable: true,
        html_elements: Vec::new(),
        html_stylesheets: Vec::new(),
        html_references_safe: true,
        html_script_text: String::new(),
        prior_edits: Vec::new(),
    }
}

fn class(name: &str, candidates: &[&str]) -> (SelectorKey, Vec<String>) {
    (SelectorKey::Class(name.to_string()), candidates.iter().map(|text| text.to_string()).collect())
}

fn no_conflicts() -> Conflicts {
    Conflicts { pairs: Vec::new() }
}

fn plan(source: &str, entries: Vec<(SelectorKey, Vec<String>)>) -> SourcePlan {
    plan_source_file(&file("/app/Card.tsx", source), CSS, true, &Candidates { entries }, &no_conflicts()).unwrap()
}

fn applied(source: &str, plan: &SourcePlan) -> String {
    let mut edits = Vec::new();
    for edit in plan.edits.iter().chain(plan.removable_import_edits.iter()) {
        edits.push(edit.clone());
    }
    apply_edits(source, &edits).unwrap()
}

fn codes(plan: &SourcePlan) -> Vec<String> {
    plan.warnings.iter().map(|warning| warning.code.clone()).collect()
}

#[test]
fn a_member_becomes_its_candidates_and_the_import_goes() {
    let source = "import styles from \"./card.module.css\";\nexport const A = () => <div className={styles.card} />;\n";
    let plan = plan(source, vec![class("card", &["p-4", "m-2"])]);
    assert!(plan.module_references_safe);
    assert_eq!(plan.module_refs.get("card"), Some(1));
    assert_eq!(plan.matched_module_refs.get("card"), Some(1));
    assert_eq!(plan.candidates, vec!["m-2".to_string(), "p-4".to_string()]);
    assert_eq!(plan.matches.len(), 2);
    assert!(plan.warnings.is_empty());
    let output = applied(source, &plan);
    assert_eq!(output, "export const A = () => <div className=\"p-4 m-2\" />;\n");
    assert!(validate_js("/app/Card.tsx", &output).is_ok());
    assert!(validate_js("/app/Card.tsx", "const = ;").is_err());
}

#[test]
fn an_unmatched_member_keeps_the_import() {
    let source = "import styles from \"./card.module.css\";\nexport const A = () => <div className={styles.other} />;\n";
    let plan = plan(source, vec![class("card", &["p-4"])]);
    assert!(plan.module_references_safe);
    assert_eq!(plan.module_refs.get("other"), Some(1));
    assert!(plan.matched_module_refs.is_empty());
    assert!(plan.removable_import_edits.is_empty());
    assert!(plan.edits.is_empty());
}

#[test]
fn templates_are_rewritten_as_one_class_list() {
    let source = "import s from \"./card.module.css\";\nexport const A = () => <p className={`lead ${s.a}  ${s.b}`} />;\n";
    let plan = plan(source, vec![class("a", &["p-4"]), class("b", &["m-2"])]);
    assert_eq!(applied(source, &plan), "export const A = () => <p className=\"lead p-4 m-2\" />;\n");
}

#[test]
fn a_dynamic_template_only_warns() {
    let source = "import s from \"./card.module.css\";\nexport const A = ({x}) => <p className={`${s.a} ${x}`} />;\n";
    let plan = plan(source, vec![class("a", &["p-4"])]);
    assert!(plan.edits.is_empty());
    assert_eq!(codes(&plan), vec!["dynamic-class-name".to_string()]);
    assert!(plan.removable_import_edits.is_empty());
}

#[test]
fn references_outside_class_names_retain_the_module() {
    let source = "import s from \"./card.module.css\";\nconst a = s.card;\nconst b = f(s.card);\nconst c = s[a];\n";
    let plan = plan(source, vec![class("card", &["p-4"])]);
    assert!(!plan.module_references_safe);
    assert_eq!(plan.module_refs.get("card"), Some(2));
    assert_eq!(
        codes(&plan),
        vec![
            "aliased-css-module-reference".to_string(),
            "non-classname-css-module-reference".to_string(),
            "computed-css-module-reference".to_string(),
        ]
    );
}

#[test]
fn unsupported_imports_and_bare_references_retain_the_module() {
    for source in [
        "import * as s from \"./card.module.css\";\n",
        "import \"./card.module.css\";\n",
        "export * from \"./card.module.css\";\n",
        "export { a } from \"./card.module.css\";\n",
        "const s = require(\"./card.module.css\");\n",
        "const s = import(\"./card.module.css\");\n",
        "import s from \"./card.module.css\";\nuse(s);\n",
    ] {
        let plan = plan(source, vec![class("card", &["p-4"])]);
        assert!(!plan.module_references_safe, "{source}");
        assert_eq!(codes(&plan), vec!["unsupported-css-module-reference".to_string()], "{source}");
    }
}

#[test]
fn overlapping_members_are_not_migrated() {
    let source = "import s from \"./card.module.css\";\nexport const A = () => <p className={`${s.a} ${s.b}`} />;\n";
    let entries = vec![class("a", &["p-4"]), class("b", &["p-2"])];
    let conflicts = Conflicts { pairs: vec![("p-4".to_string(), "p-2".to_string())] };
    let plan =
        plan_source_file(&file("/app/Card.tsx", source), CSS, true, &Candidates { entries }, &conflicts).unwrap();
    assert!(plan.edits.is_empty());
    assert_eq!(plan.matches.len(), 2);
    assert_eq!(codes(&plan), vec!["module-utilities-conflict".to_string()]);
    assert_eq!(
        plan.warnings[0].message,
        "Generated utilities `p-4` and `p-2` overlap; the CSS Module source order would be lost."
    );
}

#[test]
fn an_overlap_with_an_existing_class_warns() {
    let source = "import s from \"./card.module.css\";\nexport const A = () => <p className={`p-2 ${s.a}`} />;\n";
    let entries = vec![class("a", &["p-4"])];
    let conflicts = Conflicts { pairs: vec![("p-4".to_string(), "p-2".to_string())] };
    let plan =
        plan_source_file(&file("/app/Card.tsx", source), CSS, true, &Candidates { entries }, &conflicts).unwrap();
    assert_eq!(codes(&plan), vec!["existing-tailwind-conflict".to_string()]);
    assert_eq!(applied(source, &plan), "export const A = () => <p className=\"p-2 p-4\" />;\n");
}

#[test]
fn preserved_classes_stay_referenced() {
    let source = "import s from \"./card.module.css\";\nexport const A = () => <p className={s.a} />;\n";
    let entries = vec![class("a", &["p-4"])];
    let plan = plan_batch_source_file(
        &file("/app/Card.tsx", source),
        CSS,
        true,
        &Candidates { entries },
        &vec!["a".to_string()],
        &no_conflicts(),
    )
    .unwrap();
    assert_eq!(plan.edits[0].replacement, "{`${s.a}${\" p-4\"}`}");
    // A second run finds the appended segment and adds nothing.
    let again = "import s from \"./card.module.css\";\nexport const A = () => <p className={`${s.a}${\" p-4\"}`} />;\n";
    let entries = vec![class("a", &["p-4"])];
    let plan = plan_batch_source_file(
        &file("/app/Card.tsx", again),
        CSS,
        true,
        &Candidates { entries },
        &vec!["a".to_string()],
        &no_conflicts(),
    )
    .unwrap();
    assert!(plan.edits.is_empty());
}

#[test]
fn batches_rewrite_members_beside_foreign_ones() {
    let source = "import s from \"./card.module.css\";\nimport o from \"./other.module.css\";\nexport const A = () => <p className={`${s.a} ${o.b}`} />;\n";
    let entries = vec![class("a", &["p-4"])];
    let plan = plan_batch_source_file(
        &file("/app/Card.tsx", source),
        CSS,
        true,
        &Candidates { entries },
        &Vec::new(),
        &no_conflicts(),
    )
    .unwrap();
    assert_eq!(plan.edits.len(), 1);
    assert_eq!(plan.edits[0].replacement, "\"p-4\"");
    assert!(applied(source, &plan).contains("`${\"p-4\"} ${o.b}`"));
}

#[test]
fn global_classes_join_static_class_names() {
    let source = "export const A = () => <p className=\"card wide\"><b className={`x`} id=\"hero\" /><i id=\"hero\" /></p>;\n";
    let entries = vec![
        class("card", &["p-4"]),
        (SelectorKey::Id("hero".to_string()), vec!["h-full".to_string()]),
    ];
    let target = file("/app/Card.jsx", source);
    let plan = plan_source_file(&target, "/app/site.css", false, &Candidates { entries }, &no_conflicts()).unwrap();
    assert_eq!(
        applied(source, &plan),
        "export const A = () => <p className=\"card wide p-4\"><b className=\"x h-full\" id=\"hero\" /><i id=\"hero\" className=\"h-full\" /></p>;\n"
    );
}

#[test]
fn module_members_are_no_dynamic_class_names_on_the_global_path() {
    let source = "import s from \"./card.module.css\";\nexport const A = ({x}) => <p className={s.a}><b className={s[x]} /><i className={x} /></p>;\n";
    let target = file("/app/Card.jsx", source);
    let candidates = Candidates { entries: vec![class("card", &["p-4"])] };
    let plan = plan_source_file(&target, "/app/site.css", false, &candidates, &no_conflicts()).unwrap();
    assert_eq!(codes(&plan), vec!["dynamic-class-name".to_string()]);
    assert_eq!(plan.warnings[0].start, source.find("{x} />").unwrap());
}

#[test]
fn files_that_do_not_parse_are_data_only_where_nothing_is_written() {
    let source = "import s from './card.module.css'; const = ;";
    let candidates = Candidates { entries: Vec::new() };
    let mut target = file("/app/Card.tsx", source);
    let error = plan_source_file(&target, CSS, true, &candidates, &no_conflicts()).err().unwrap();
    assert!(error.message.starts_with("Failed to parse /app/Card.tsx: "), "{error:?}");
    target.writable = false;
    let plan = plan_source_file(&target, CSS, true, &candidates, &no_conflicts()).unwrap();
    assert!(!plan.module_references_safe);
    assert_eq!(codes(&plan), vec!["unsupported-css-module-reference".to_string()]);
    let unrelated = opaque_reference_plan(&target, "/app/other.module.css", true);
    assert!(unrelated.module_references_safe);
    let analyzed = file("/app/Card.ts", "let a = 1; let a = 2;");
    let error = plan_source_file(&analyzed, CSS, true, &candidates, &no_conflicts()).err().unwrap();
    assert!(error.message.starts_with("Failed to "), "{error:?}");
    let unknown = file("/app/Card.txt", "");
    let error = plan_source_file(&unknown, CSS, true, &candidates, &no_conflicts()).err().unwrap();
    assert!(error.message.starts_with("Unsupported source file /app/Card.txt: "), "{error:?}");
}

#[test]
fn attribute_values_pick_a_quote_that_the_list_does_not_hold() {
    assert_eq!(jsx_attribute_value("p-4"), "\"p-4\"");
    assert_eq!(jsx_attribute_value("content-[\"x\"]"), "'content-[\"x\"]'");
    assert_eq!(jsx_attribute_value("a\"b'c"), "{\"a\\\"b'c\"}");
}

#[test]
fn a_removed_import_takes_its_line_break() {
    assert_eq!(consume_following_newline("ab\r\nc", 2), 4);
    assert_eq!(consume_following_newline("ab\nc", 2), 3);
    assert_eq!(consume_following_newline("abc", 2), 2);
    assert_eq!(consume_following_newline("ab", 2), 2);
}
