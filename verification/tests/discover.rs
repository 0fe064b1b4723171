use customs_core::{
    debounce_ms, DEFAULT_DEBOUNCE_MS,
    exit_status, is_python_file, is_pyproject, is_skipped_dir, point_to_position,
    pyproject_candidates, pyproject_for_file, syntax_nodes, Position,
};

fn s(x: &str) -> String {
    x.to_string()
}

fn path(p: &str) -> Vec<String> {
    let mut out = vec![];
    if p.starts_with('/') {
        out.push(s("/"));
    }
    out.extend(p.split('/').filter(|c| !c.is_empty()).map(s));
    out
}

#[test]
fn python_files() {
    assert!(is_python_file(&path("/a/b.py")));
    assert!(is_python_file(&path("b.pyi")));
    assert!(!is_python_file(&path("/a/.py")));
    assert!(!is_python_file(&path("/a/b.pyc")));
    assert!(!is_python_file(&path("/a/b")));
    assert!(is_python_file(&path("/a/x.tar.py")));
    assert!(is_pyproject(&path("/a/pyproject.toml")));
    assert!(!is_pyproject(&path("/a/pyproject.toml.bak")));
}

#[test]
fn skipped_dirs() {
    assert!(is_skipped_dir(".git"));
    assert!(is_skipped_dir("__pycache__"));
    assert!(!is_skipped_dir("src"));
}

#[test]
fn nearest_pyproject_governs() {
    let roots = vec![
        (path("/r"), path("/r/pyproject.toml")),
        (path("/r/pkg"), path("/r/pkg/pyproject.toml")),
    ];
    assert_eq!(
        pyproject_for_file(&path("/r/pkg/app.py"), &roots),
        Some(&path("/r/pkg/pyproject.toml"))
    );
    assert_eq!(
        pyproject_for_file(&path("/r/app.py"), &roots),
        Some(&path("/r/pyproject.toml"))
    );
    assert_eq!(pyproject_for_file(&path("/other/app.py"), &roots), None);
}

#[test]
fn pyproject_search_walks_up() {
    let got = pyproject_candidates(&path("/r/src/pkg/mod.py"), true);
    assert_eq!(
        got,
        vec![
            path("/r/src/pkg/pyproject.toml"),
            path("/r/src/pyproject.toml"),
            path("/r/pyproject.toml"),
            path("/pyproject.toml"),
        ]
    );
    let got = pyproject_candidates(&path("a"), false);
    assert_eq!(got, vec![path("a/pyproject.toml"), path("pyproject.toml")]);
    assert!(pyproject_candidates(&path("/"), true).is_empty());
}

#[test]
fn exit_statuses() {
    assert_eq!(exit_status(true, 3), 2);
    assert_eq!(exit_status(false, 3), 1);
    assert_eq!(exit_status(false, 0), 0);
}

#[test]
fn positions_count_utf16() {
    let src = "ab\r\nx😀é=1\nlast";
    assert_eq!(point_to_position(src, 0, 1), Position { line: 0, character: 1 });
    // Past the end of the line: its end.
    assert_eq!(point_to_position(src, 0, 9), Position { line: 0, character: 2 });
    // x (1 byte), 😀 (4 bytes, 2 units), é (2 bytes).
    assert_eq!(point_to_position(src, 1, 5), Position { line: 1, character: 3 });
    // Inside the emoji: back to its start.
    assert_eq!(point_to_position(src, 1, 3), Position { line: 1, character: 1 });
    assert_eq!(point_to_position(src, 1, 7), Position { line: 1, character: 4 });
    // A row past the end.
    assert_eq!(point_to_position(src, 9, 4), Position { line: 9, character: 0 });
    assert_eq!(point_to_position(src, 2, 4), Position { line: 2, character: 4 });
}

#[test]
fn syntax_listing_starts_at_the_module() {
    let nodes = syntax_nodes("import a\n").unwrap();
    assert_eq!(nodes[0].kind, "module");
    assert_eq!(nodes[0].depth, 0);
    assert!(nodes.iter().any(|n| n.kind == "dotted_name" && n.text == "a"));
    assert!(nodes.iter().any(|n| n.field.as_deref() == Some("name")));
}

#[test]
fn debounce_setting() {
    assert_eq!(debounce_ms(Some(50), Some(50)), 50);
    assert_eq!(debounce_ms(None, Some(-1)), u64::MAX);
    assert_eq!(debounce_ms(None, None), DEFAULT_DEBOUNCE_MS);
    assert_eq!(DEFAULT_DEBOUNCE_MS, 300);
}
