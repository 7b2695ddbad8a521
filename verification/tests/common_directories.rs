use tracer::directories::{ci_markers, common_directory_lines};

fn s(x: &str) -> String {
    x.to_string()
}

#[test]
fn common_directories_group_by_kind_in_fixed_order() {
    let markers = ci_markers();
    assert_eq!(markers.len(), 8);
    assert_eq!(markers[0], (".github/workflows", "GitHub Actions"));
    let mut present = vec![false; 8];
    present[0] = true;
    let dirs = vec![
        (s("web"), vec![("frontend", s("5 tsx/jsx/vue/svelte files"))]),
        (s("tests"), vec![("tests", s("3 test files"))]),
        (s("web"), vec![("frontend", s("again"))]),
        (s("api"), vec![("backend", s("Flask")), ("tests", s("config: pytest.ini"))]),
    ];
    let lines = common_directory_lines(&present, &dirs);
    assert_eq!(
        lines,
        vec![
            s("## Common Directories"),
            s("  frontend:"),
            s("    web  (5 tsx/jsx/vue/svelte files)"),
            s("  backend:"),
            s("    api  (Flask)"),
            s("  tests:"),
            s("    tests  (3 test files)"),
            s("    api  (config: pytest.ini)"),
            s("  continuous-integration:"),
            s("    .github/workflows  (GitHub Actions)"),
        ]
    );
}

#[test]
fn no_common_directories_says_so() {
    let lines = common_directory_lines(&vec![false; 8], &Vec::new());
    assert_eq!(lines, vec![s("## Common Directories"), s("  (no common directories detected)")]);
}
