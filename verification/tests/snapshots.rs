use tw_migrate::snapshots::{
    check_status, current_addon, current_platform, default_setup, document_head, normalize_output,
    normalize_transaction_tokens, render_delta, render_step, run_case, run_case_with, validate_cwd, CaseContext, Suite,
    Tree,
};

fn tree(entries: &[(&str, &str)]) -> Tree {
    let mut tree = Tree::new();
    for (path, content) in entries {
        tree.insert(path.to_string(), content.to_string());
    }
    tree
}

fn suite(repo_root: &str, install_root: &str) -> Suite {
    Suite { repo_root: repo_root.to_string(), install_root: install_root.to_string() }
}

#[test]
fn delta_is_ordered_and_preserves_full_contents() {
    let before = tree(&[("b.txt", "old\n"), ("c.txt", "gone\n")]);
    let after = tree(&[("a.txt", "new\n"), ("b.txt", "changed\n")]);
    assert_eq!(
        render_delta(&before, &after),
        "  added a.txt\n    after: \"new\\n\"\n  modified b.txt\n    before: \"old\\n\"\n    after: \"changed\\n\"\n  deleted c.txt\n    before: \"gone\\n\"\n"
    );
}

#[test]
fn an_unchanged_workspace_is_reported_as_such() {
    let before = tree(&[("a.txt", "same\n")]);
    let after = tree(&[("a.txt", "same\n")]);
    assert_eq!(render_delta(&before, &after), "  unchanged\n");
    assert_eq!(render_delta(&Tree::new(), &Tree::new()), "  unchanged\n");
}

#[test]
fn a_tree_keeps_its_paths_in_order_and_the_last_content() {
    let tree = tree(&[("b", "1"), ("a", "2"), ("c", "3"), ("b", "4"), ("a/b", "5")]);
    let entries: Vec<(&str, &str)> = tree.entries.iter().map(|(path, text)| (path.as_str(), text.as_str())).collect();
    assert_eq!(entries, vec![("a", "2"), ("a/b", "5"), ("b", "4"), ("c", "3")]);
}

#[test]
fn output_normalization_only_replaces_known_roots_and_separators() {
    let suite = suite(r"C:\repo", r"C:\repo\install");
    let workspace = r"C:\repo\install\workspaces\case";
    assert_eq!(
        normalize_output(
            "C:\\repo\\install\\workspaces\\case\\nested\\file.css\r\nfile:///C:/repo/install/workspaces/case/url.css\nC:\\repo\\other.css escaped\\_value\n",
            &suite,
            workspace,
            &Vec::new(),
        ),
        "[WORKSPACE]/nested/file.css\nfile:[WORKSPACE]/url.css\n[REPO]/other.css escaped\\_value\n"
    );
}

#[test]
fn output_normalization_strips_windows_verbatim_prefixes() {
    let own = suite(r"\\?\C:\repo", r"\\?\C:\repo\install");
    let workspace = r"\\?\C:\repo\install\workspaces\case";
    assert_eq!(
        normalize_output(r"C:\repo\install\workspaces\case\file.css", &own, workspace, &Vec::new()),
        "[WORKSPACE]/file.css"
    );

    let own = suite(r"\\?\UNC\server\share\repo", r"\\?\UNC\server\share\repo\install");
    let workspace = r"\\?\UNC\server\share\repo\install\workspaces\case";
    assert_eq!(
        normalize_output(r"\\server\share\repo\install\workspaces\case\file.css", &own, workspace, &Vec::new()),
        "[WORKSPACE]/file.css"
    );
}

#[test]
fn output_normalization_knows_resolved_roots() {
    let own = suite("/repo", "/repo/install");
    let known = vec![("/tmp/case".to_string(), "/private/tmp/case".to_string())];
    assert_eq!(
        normalize_output("/private/tmp/case/a.css /tmp/case/b.css", &own, "/tmp/case", &known),
        "[WORKSPACE]/a.css [WORKSPACE]/b.css"
    );
}

#[test]
fn output_normalization_replaces_transaction_tokens() {
    assert_eq!(
        normalize_transaction_tokens(
            "a/.file.tw-migrate-backup-123-456-0' b/.file.tw-migrate-stage-9-8-7\n".to_string()
        ),
        "a/.file.tw-migrate-backup-[TOKEN]' b/.file.tw-migrate-stage-[TOKEN]\n"
    );
    assert_eq!(
        normalize_transaction_tokens(".tw-migrate-backup-x .tw-migrate-stage-".to_string()),
        ".tw-migrate-backup-x .tw-migrate-stage-"
    );
}

#[test]
fn a_case_reports_every_failure_it_can() {
    let ok = || Ok("doc".to_string());
    let bad = |text: &str| Err(text.to_string());
    assert_eq!(run_case(Ok(()), ok(), Ok(()), "/case"), ok());
    assert_eq!(run_case(Err("setup".to_string()), ok(), Ok(()), "/case"), bad("setup"));
    assert_eq!(run_case(Ok(()), bad("run"), Err("busy".to_string()), "/case"), bad("run"));
    assert_eq!(run_case(Ok(()), ok(), Err("busy".to_string()), "/case"), bad("clean up /case: busy"));
    assert_eq!(run_case_with(Ok(()), ok(), Err("verify".to_string()), Ok(()), "/case"), bad("verify"));
    assert_eq!(
        run_case_with(Ok(()), bad("run"), Err("verify".to_string()), Ok(()), "/case"),
        bad("run\nverification/teardown also failed: verify")
    );
    let context = CaseContext { workspace: "/w", home: "/h", install_root: "/i" };
    assert_eq!(default_setup(&context), Ok(()));
}

#[test]
fn a_step_is_written_down_with_quoted_output() {
    assert_eq!(document_head("basic"), "case: basic\n");
    assert_eq!(
        render_step("dry", -12, "a\"b\u{1}\n", "", &Tree::new(), &Tree::new()),
        "\n--- step: dry ---\nstatus: -12\nstdout: \"a\\\"b\\u0001\\n\"\nstderr: \"\"\nworkspace delta:\n  unchanged\n"
    );
    assert_eq!(check_status("c", "s", 0, Some(0), "", ""), Ok(0));
    assert_eq!(
        check_status("c", "s", 0, Some(102), "out", "err"),
        Err("case c, step s: expected status 0, got 102\nstdout:\nout\nstderr:\nerr".to_string())
    );
    assert_eq!(
        check_status("c", "s", 0, None, "", ""),
        Err("case c, step s: CLI terminated without an integer exit status".to_string())
    );
}

#[test]
fn platforms_name_their_addon() {
    assert_eq!(current_platform("linux", "x86_64"), Ok("linux-x64-gnu"));
    assert_eq!(current_addon("macos", "aarch64"), Ok("tw-migrate.darwin-arm64.node".to_string()));
    assert_eq!(current_addon("windows", "x86_64"), Ok("tw-migrate.win32-x64-msvc.node".to_string()));
    assert_eq!(
        current_platform("plan9", "mips"),
        Err("unsupported snapshot platform: plan9-mips".to_string())
    );
}

#[test]
fn a_working_directory_stays_inside() {
    assert_eq!(validate_cwd("packages/app"), Ok(()));
    assert_eq!(validate_cwd("."), Ok(()));
    assert_eq!(
        validate_cwd("packages/../.."),
        Err("fixture cwd must stay within the workspace: packages/../..".to_string())
    );
    assert_eq!(validate_cwd("/etc"), Err("fixture cwd must stay within the workspace: /etc".to_string()));
}
