use customs_core::{
    config_from_document, default_src_roots, is_module_or_submodule, is_submodules_token,
    ConfigError, CustomsConfig, ModuleRule, PyProject, ToolSection,
};

fn s(x: &str) -> String {
    x.to_string()
}

fn config_with(rules: Vec<(&str, &str, Option<Vec<&str>>)>) -> CustomsConfig {
    CustomsConfig {
        module: rules
            .into_iter()
            .map(|(n, m, a)| {
                (
                    s(n),
                    ModuleRule {
                        module: s(m),
                        allow: a.map(|v| v.into_iter().map(s).collect()),
                    },
                )
            })
            .collect(),
        ..CustomsConfig::default()
    }
}

#[test]
fn module_or_submodule_uses_dot_boundary() {
    assert!(is_module_or_submodule("a.b", "a.b"));
    assert!(is_module_or_submodule("a.b.c", "a.b"));
    assert!(!is_module_or_submodule("a.bc", "a.b"));
    assert!(!is_module_or_submodule("a", "a.b"));
}

#[test]
fn missing_tool_customs_is_default() {
    let config = config_from_document(PyProject { tool: None }).unwrap();
    assert_eq!(config, CustomsConfig::default());
    let config = config_from_document(PyProject { tool: Some(ToolSection { customs: None }) }).unwrap();
    assert_eq!(config, CustomsConfig::default());
    assert_eq!(config.src_roots, vec!["."]);
    assert!(config.ignore.is_empty());
    assert!(config.module.is_empty());
}

#[test]
fn unknown_dollar_token_is_error() {
    let config = config_with(vec![("foo", "foo", Some(vec!["$unknown"]))]);
    let err = config_from_document(PyProject {
        tool: Some(ToolSection { customs: Some(config) }),
    })
    .unwrap_err();
    assert!(matches!(err, ConfigError::UnknownToken { .. }));
    assert_eq!(err.message(), "rule 'foo' uses unknown token '$unknown'");
}

#[test]
fn blank_module_is_error() {
    let config = config_with(vec![("a", "ok", None), ("b", " \t", Some(vec!["$bad"]))]);
    let err = config.validate().unwrap_err();
    assert_eq!(err, ConfigError::MissingModule { rule: s("b") });
    assert_eq!(err.message(), "rule 'b' is missing a module path");
}

#[test]
fn first_bad_rule_is_reported() {
    let config = config_with(vec![
        ("a", "x", Some(vec!["$submodules", "$first"])),
        ("b", "", None),
    ]);
    assert_eq!(
        config.validate().unwrap_err(),
        ConfigError::UnknownToken { rule: s("a"), token: s("$first") }
    );
}

#[test]
fn valid_config_passes() {
    let config = config_with(vec![
        ("a", "x", Some(vec!["$submodules", "y.z"])),
        ("b", "q", None),
    ]);
    assert!(config.validate().is_ok());
    let kept = config.clone();
    assert_eq!(
        config_from_document(PyProject { tool: Some(ToolSection { customs: Some(config) }) }).unwrap(),
        kept
    );
}

#[test]
fn resolved_allow_defaults_to_submodules() {
    let r = ModuleRule { module: s("m"), allow: None };
    assert_eq!(r.resolved_allow(), vec!["$submodules"]);
    let r = ModuleRule { module: s("m"), allow: Some(vec![s("x")]) };
    assert_eq!(r.resolved_allow(), vec!["x"]);
    let r = ModuleRule { module: s("m"), allow: Some(vec![]) };
    assert!(r.resolved_allow().is_empty());
}

#[test]
fn submodules_token() {
    assert!(is_submodules_token("$submodules"));
    assert!(!is_submodules_token("$submodule"));
    assert!(!is_submodules_token("submodules"));
    assert_eq!(default_src_roots(), vec!["."]);
}

#[test]
fn error_texts() {
    assert_eq!(
        ConfigError::Io { path: s("/p/pyproject.toml"), message: s("denied") }.message(),
        "failed to read /p/pyproject.toml: denied"
    );
    assert_eq!(
        ConfigError::Toml { message: s("bad") }.message(),
        "failed to parse pyproject.toml: bad"
    );
}

#[test]
fn insert_rule_keeps_names_in_order_and_replaces() {
    let mut config = CustomsConfig::default();
    config.insert_rule(s("b"), ModuleRule { module: s("pkg.b"), allow: None });
    config.insert_rule(s("a"), ModuleRule { module: s("pkg.a"), allow: None });
    config.insert_rule(s("c"), ModuleRule { module: s("pkg.c"), allow: None });
    config.insert_rule(s("b"), ModuleRule { module: s("pkg.b2"), allow: Some(vec![s("x")]) });
    let names: Vec<&str> = config.module.iter().map(|(n, _)| n.as_str()).collect();
    assert_eq!(names, vec!["a", "b", "c"]);
    assert_eq!(config.module[1].1.module, "pkg.b2");
    assert_eq!(config.module[1].1.allow, Some(vec![s("x")]));
    assert_eq!(config.src_roots, vec!["."]);
    assert!(config.ignore.is_empty());
}

#[test]
fn parses_prd_example() {
    // [tool.customs] of the README's example, as the TOML reader hands it over.
    let mut customs = CustomsConfig {
        src_roots: vec![s("src"), s(".")],
        ignore: vec![s("examples"), s("tests")],
        module: Vec::new(),
    };
    customs.insert_rule(
        s("my-service"),
        ModuleRule { module: s("my_project.apps.service"), allow: None },
    );
    customs.insert_rule(
        s("libraries-utils"),
        ModuleRule {
            module: s("my_project.libraries.utils"),
            allow: Some(vec![s("$submodules"), s("my_project.apps.service")]),
        },
    );
    let config = config_from_document(PyProject {
        tool: Some(ToolSection { customs: Some(customs) }),
    })
    .unwrap();
    assert_eq!(config.src_roots, vec!["src", "."]);
    assert_eq!(config.ignore, vec!["examples", "tests"]);
    let rule = |name: &str| &config.module.iter().find(|(n, _)| n == name).unwrap().1;
    let ms = rule("my-service");
    assert_eq!(ms.module, "my_project.apps.service");
    assert!(ms.allow.is_none());
    assert_eq!(ms.resolved_allow(), vec!["$submodules"]);
    let ld = rule("libraries-utils");
    assert_eq!(
        ld.allow.as_deref(),
        Some(
            [
                "$submodules".to_string(),
                "my_project.apps.service".to_string()
            ]
            .as_slice()
        )
    );
}

#[test]
fn least_named_bad_rule_is_reported() {
    let mut config = CustomsConfig::default();
    config.insert_rule(s("zeta"), ModuleRule { module: s(""), allow: None });
    config.insert_rule(s("eta"), ModuleRule { module: s("m"), allow: Some(vec![s("$x")]) });
    assert_eq!(
        config.validate().unwrap_err(),
        ConfigError::UnknownToken { rule: s("eta"), token: s("$x") }
    );
}
