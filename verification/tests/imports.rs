use customs_core::extract_imports;

fn path(file: &str) -> Vec<String> {
    file.split('/').map(|s| s.to_string()).collect()
}

fn extract(source: &str, module: &str) -> Vec<Vec<String>> {
    extract_at(source, module, "pkg/mod.py")
}

fn extract_at(source: &str, module: &str, file: &str) -> Vec<Vec<String>> {
    extract_imports(source, &path(file), module)
        .into_iter()
        .map(|i| i.modules)
        .collect()
}

#[test]
fn import_dotted() {
    let got = extract("import a.b.c\n", "pkg.mod");
    assert_eq!(got, vec![vec!["a.b.c".to_string()]]);
}

#[test]
fn import_alias() {
    let got = extract("import a.b as c\n", "pkg.mod");
    assert_eq!(got, vec![vec!["a.b".to_string()]]);
}

#[test]
fn from_import_is_conservative() {
    let got = extract("from my_project.apps import service\n", "pkg.mod");
    assert_eq!(
        got,
        vec![vec![
            "my_project.apps".to_string(),
            "my_project.apps.service".to_string()
        ]]
    );
}

#[test]
fn from_import_star() {
    let got = extract("from a.b import *\n", "pkg.mod");
    assert_eq!(got, vec![vec!["a.b".to_string()]]);
}

#[test]
fn nested_and_type_checking() {
    let source = r#"
from typing import TYPE_CHECKING

def f():
    import hidden.mod

if TYPE_CHECKING:
    from a import b
"#;
    let got = extract(source, "pkg.mod");
    assert!(got.iter().any(|m| m == &vec!["hidden.mod".to_string()]));
    assert!(got
        .iter()
        .any(|m| m.contains(&"a".to_string()) && m.contains(&"a.b".to_string())));
}

#[test]
fn relative_from_module_file() {
    // pkg/sub.py → package is pkg
    let got = extract_at("from . import foo\n", "pkg.sub", "pkg/sub.py");
    assert_eq!(got, vec![vec!["pkg".to_string(), "pkg.foo".to_string()]]);
}

#[test]
fn relative_from_package_init() {
    let got = extract_at("from . import foo\n", "pkg.sub", "pkg/sub/__init__.py");
    assert_eq!(
        got,
        vec![vec!["pkg.sub".to_string(), "pkg.sub.foo".to_string()]]
    );
}

#[test]
fn relative_parent() {
    let got = extract_at("from ..foo import bar\n", "pkg.sub.mod", "pkg/sub/mod.py");
    assert_eq!(
        got,
        vec![vec!["pkg.foo".to_string(), "pkg.foo.bar".to_string()]]
    );
}
