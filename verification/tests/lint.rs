use customs_core::{lint_imports, lint_source, CustomsConfig, Import, ModuleRule, Point, Violation};

fn s(x: &str) -> String {
    x.to_string()
}

fn rule(module: &str, allow: Option<&[&str]>) -> ModuleRule {
    ModuleRule {
        module: s(module),
        allow: allow.map(|a| a.iter().map(|e| s(e)).collect()),
    }
}

/// A project root, as the components of a normalized path.
fn root() -> Vec<String> {
    vec![s("/"), s("tmp"), s("proj")]
}

fn under(base: &[String], rel: &str) -> Vec<String> {
    let mut p = base.to_vec();
    p.extend(rel.split('/').map(s));
    p
}

/// The source roots of a configuration, resolved against `root()`.
fn roots(config: &CustomsConfig) -> Vec<Vec<String>> {
    config
        .src_roots
        .iter()
        .map(|r| if r == "." { root() } else { under(&root(), r) })
        .collect()
}

/// [tool.customs] src-roots = ["src", "."], ignore = ["examples", "tests"],
/// my-service controls my_project.apps.service, libraries-utils controls
/// my_project.libraries.utils and allows $submodules and my_project.apps.service.
fn prd_config() -> CustomsConfig {
    CustomsConfig {
        src_roots: vec![s("src"), s(".")],
        ignore: vec![s("examples"), s("tests")],
        module: vec![
            (
                s("libraries-utils"),
                rule(
                    "my_project.libraries.utils",
                    Some(&["$submodules", "my_project.apps.service"]),
                ),
            ),
            (s("my-service"), rule("my_project.apps.service", None)),
        ],
    }
}

fn messages(file: &str, source: &str, config: &CustomsConfig) -> Vec<String> {
    let path = under(&root(), file);
    lint_source(&path, &path, source, &roots(config), config)
        .into_iter()
        .map(|v| v.message())
        .collect()
}

#[test]
fn outsider_cannot_import_controlled_module() {
    let msgs = messages(
        "src/my_project/other.py",
        "from my_project.apps import service\n",
        &prd_config(),
    );
    assert_eq!(
        msgs,
        vec!["Customs: Forbidden import of my_project.apps.service [my-service]"]
    );
}

#[test]
fn submodules_may_import_each_other_by_default() {
    let msgs = messages(
        "src/my_project/apps/service/app.py",
        "from my_project.apps.service import handlers\n",
        &prd_config(),
    );
    assert!(msgs.is_empty());
}

#[test]
fn explicit_allow_grants_subtree() {
    let msgs = messages(
        "src/my_project/apps/service/app.py",
        "from my_project.libraries.utils import client\n",
        &prd_config(),
    );
    assert!(msgs.is_empty());
}

#[test]
fn outsider_cannot_import_launchdarkly() {
    let msgs = messages(
        "src/my_project/other.py",
        "import my_project.libraries.utils.client\n",
        &prd_config(),
    );
    assert_eq!(
        msgs,
        vec!["Customs: Forbidden import of my_project.libraries.utils [libraries-utils]"]
    );
}

#[test]
fn ignored_importer_is_skipped() {
    let msgs = messages(
        "tests/test_model.py",
        "from my_project.apps.service import app\n",
        &prd_config(),
    );
    assert!(msgs.is_empty());
}

#[test]
fn longest_prefix_wins() {
    let config = CustomsConfig {
        src_roots: vec![s("src")],
        ignore: vec![],
        module: vec![
            (
                s("libraries-utils"),
                rule("my_project.libraries.utils", Some(&["$submodules", "my_project.other"])),
            ),
            (s("services"), rule("my_project.services", None)),
        ],
    };
    // Longest rule is libraries-utils, which allows my_project.other
    let msgs = messages("src/my_project/other.py", "import my_project.libraries.utils\n", &config);
    assert!(msgs.is_empty());

    let msgs = messages("src/my_project/other.py", "import my_project.services.other\n", &config);
    assert_eq!(
        msgs,
        vec!["Customs: Forbidden import of my_project.services [services]"]
    );
}

#[test]
fn explicit_allow_without_submodules_blocks_internal() {
    let config = CustomsConfig {
        src_roots: vec![s("src")],
        ignore: vec![],
        module: vec![(s("locked"), rule("pkg.locked", Some(&["pkg.trusted"])))],
    };
    let msgs = messages("src/pkg/locked/inner.py", "from pkg.locked import sibling\n", &config);
    assert_eq!(msgs, vec!["Customs: Forbidden import of pkg.locked [locked]"]);
}

#[test]
fn one_violation_per_statement_and_rule() {
    // Both modules of the from-import fall under my-service: one report.
    let msgs = messages(
        "src/my_project/other.py",
        "from my_project.apps.service import a, b\n",
        &prd_config(),
    );
    assert_eq!(
        msgs,
        vec!["Customs: Forbidden import of my_project.apps.service [my-service]"]
    );
}

#[test]
fn nested_rule_is_the_longer_one() {
    let config = CustomsConfig {
        src_roots: vec![s(".")],
        ignore: vec![],
        module: vec![
            (s("inner"), rule("a.b", Some(&["x"]))),
            (s("outer"), rule("a", Some(&["y"]))),
        ],
    };
    let imports = vec![Import {
        modules: vec![s("a.b.c"), s("a.z")],
        start: Point { row: 3, column: 4 },
        end: Point { row: 3, column: 20 },
    }];
    let got = lint_imports("y", &imports, &config);
    assert_eq!(
        got,
        vec![Violation {
            rule_name: s("inner"),
            controlled_module: s("a.b"),
            start: Point { row: 3, column: 4 },
            end: Point { row: 3, column: 20 },
        }]
    );
    let got = lint_imports("x", &imports, &config);
    assert_eq!(got.len(), 1);
    assert_eq!(got[0].rule_name, "outer");
}

#[test]
fn file_outside_roots_has_no_violations() {
    let config = prd_config();
    let file = vec![s("/"), s("elsewhere"), s("x.py")];
    let got = lint_source(&file, &file, "import my_project.apps.service\n", &roots(&config), &config);
    assert!(got.is_empty());
}

#[test]
fn violation_texts() {
    let v = Violation {
        rule_name: s("r"),
        controlled_module: s("m.n"),
        start: Point { row: 0, column: 0 },
        end: Point { row: 0, column: 1 },
    };
    assert_eq!(v.message(), "Customs: Forbidden import of m.n [r]");
    assert_eq!(v.diagnostic_message(), "Forbidden import of m.n");
}

#[test]
fn violation_positions_come_from_the_statement() {
    let path = under(&root(), "src/my_project/other.py");
    let msgs = lint_source(
        &path,
        &path,
        "x = 1\n  \nimport my_project.apps.service.api\n",
        &roots(&prd_config()),
        &prd_config(),
    );
    assert_eq!(msgs.len(), 1);
    assert_eq!(msgs[0].start, Point { row: 2, column: 0 });
    assert_eq!(msgs[0].end, Point { row: 2, column: 34 });
}

#[test]
fn package_is_read_from_the_path_as_given() {
    // A link named `__init__.py` whose target, once normalized, is `pkg/mod.py`:
    // the module comes from the target, the package reading from the link.
    let config = CustomsConfig {
        src_roots: vec![s("src")],
        ignore: vec![],
        module: vec![(s("locked"), rule("pkg.mod.x", Some(&["other"])))],
    };
    let given = under(&root(), "links/__init__.py");
    let normalized = under(&root(), "src/pkg/mod.py");
    let got = lint_source(&given, &normalized, "from . import x\n", &roots(&config), &config);
    assert_eq!(got.len(), 1);
    assert_eq!(got[0].message(), "Customs: Forbidden import of pkg.mod.x [locked]");
    // Read as a plain module, `.` is `pkg` and nothing is forbidden.
    let got = lint_source(&normalized, &normalized, "from . import x\n", &roots(&config), &config);
    assert!(got.is_empty());
}

#[test]
fn equally_long_rules_greatest_name_governs() {
    let mut config = CustomsConfig { src_roots: vec![s("src")], ignore: vec![], module: vec![] };
    config.insert_rule(s("beta"), rule("pkg.core", Some(&["pkg.none"])));
    config.insert_rule(s("alpha"), rule("pkg.core", Some(&["pkg.app"])));
    let msgs = messages("src/pkg/app.py", "import pkg.core\n", &config);
    assert_eq!(msgs, vec!["Customs: Forbidden import of pkg.core [beta]"]);
}
