use customs_core::{
    file_to_module, is_ignored, is_package_file, relative_to_module, CustomsConfig,
};

fn s(x: &str) -> String {
    x.to_string()
}

fn path(p: &str) -> Vec<String> {
    let mut out = vec![];
    if p.starts_with('/') {
        out.push(s("/"));
    }
    out.extend(p.split('/').filter(|c| !c.is_empty()).map(s));
    out
}

#[test]
fn longest_src_root_wins() {
    let roots = vec![path("/r/src"), path("/r")];
    let module = file_to_module(&path("/r/src/my_project/foo/bar.py"), &roots).unwrap();
    assert_eq!(module, "my_project.foo.bar");
}

#[test]
fn longest_root_wins_in_any_order() {
    let roots = vec![path("/r"), path("/r/src")];
    let module = file_to_module(&path("/r/src/my_project/foo/bar.py"), &roots).unwrap();
    assert_eq!(module, "my_project.foo.bar");
}

#[test]
fn init_py_maps_to_package() {
    let roots = vec![path("/r/src")];
    let module = file_to_module(&path("/r/src/my_project/foo/__init__.py"), &roots).unwrap();
    assert_eq!(module, "my_project.foo");
}

#[test]
fn outside_src_roots_is_none() {
    let roots = vec![path("/r/src")];
    assert!(file_to_module(&path("/r/other/x.py"), &roots).is_none());
}

#[test]
fn stub_files_and_non_python_files() {
    let roots = vec![path("/r")];
    assert_eq!(file_to_module(&path("/r/a/b.pyi"), &roots).unwrap(), "a.b");
    assert!(file_to_module(&path("/r/a/b.txt"), &roots).is_none());
    assert!(file_to_module(&path("/r/__init__.py"), &roots).is_none());
    assert!(file_to_module(&path("/r"), &roots).is_none());
}

#[test]
fn relative_paths_to_modules() {
    assert_eq!(relative_to_module(&[s("a"), s("b.py")]).unwrap(), "a.b");
    assert_eq!(relative_to_module(&[s("a"), s("__init__.pyi")]).unwrap(), "a");
    assert!(relative_to_module(&[]).is_none());
    assert!(relative_to_module(&[s("a"), s("b")]).is_none());
}

#[test]
fn package_files() {
    assert!(is_package_file(&path("pkg/sub/__init__.py")));
    assert!(is_package_file(&path("pkg/sub/__init__.pyi")));
    assert!(!is_package_file(&path("pkg/sub.py")));
    assert!(!is_package_file(&path("/")));
}

#[test]
fn ignore_is_prefix_not_string_prefix() {
    let config = CustomsConfig {
        ignore: vec![s("tests")],
        ..CustomsConfig::default()
    };
    assert!(is_ignored("tests", &config));
    assert!(is_ignored("tests.test_foo", &config));
    assert!(!is_ignored("testsuite", &config));
    assert!(!is_ignored("my_project.tests", &config));
}
