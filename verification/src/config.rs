//! The `[tool.customs]` configuration: source roots, ignored importers and
//! named rules, with the checks that a configuration must pass.
use vstd::prelude::*;

use crate::text::{
    blank, chars_of, chars_precede, copy_strings, is_blank, lemma_precedes_irreflexive,
    lemma_precedes_total, lemma_precedes_transitive, module_under, precedes, strictly_sorted,
    strings_view, text_is,
};

verus! {

/// One named rule: the controlled module and who may import it.
#[derive(Clone, Debug, PartialEq, Eq)]
pub struct ModuleRule {
    /// Controlled module path. The rule applies to this module and its submodules.
    pub module: String,
    /// Who may import the controlled tree. `None` means `["$submodules"]`.
    /// When present, `$submodules` is not implied.
    pub allow: Option<Vec<String>>,
}

/// The mathematical content of a [`ModuleRule`].
pub struct RuleView {
    pub module: Seq<char>,
    pub allow: Option<Seq<Seq<char>>>,
}

impl View for ModuleRule {
    type V = RuleView;

    open spec fn view(&self) -> RuleView {
        RuleView {
            module: self.module@,
            allow: match self.allow {
                Some(a) => Some(strings_view(a@)),
                None => None,
            },
        }
    }
}

/// The configuration of one project.
///
/// `module` lists the rules with their names. Kept in increasing order of
/// the names with no name twice ([`rules_ordered`], which
/// [`CustomsConfig::insert_rule`] keeps), it is a map keyed by name, walked
/// in order; where two rules are equally good for an import, the later one
/// is used.
#[derive(Clone, Debug, PartialEq, Eq)]
pub struct CustomsConfig {
    /// Source roots relative to the pyproject.toml directory.
    pub src_roots: Vec<String>,
    /// Importer module prefixes to skip entirely.
    pub ignore: Vec<String>,
    /// Named rules, with their names.
    pub module: Vec<(String, ModuleRule)>,
}

/// The mathematical content of a [`CustomsConfig`].
pub struct ConfigView {
    pub src_roots: Seq<Seq<char>>,
    pub ignore: Seq<Seq<char>>,
    pub rules: Seq<(Seq<char>, RuleView)>,
}

/// The names and rules of a list of named rules.
pub open spec fn rules_view(v: Seq<(String, ModuleRule)>) -> Seq<(Seq<char>, RuleView)> {
    v.map_values(|e: (String, ModuleRule)| (e.0@, e.1@))
}

impl View for CustomsConfig {
    type V = ConfigView;

    open spec fn view(&self) -> ConfigView {
        ConfigView {
            src_roots: strings_view(self.src_roots@),
            ignore: strings_view(self.ignore@),
            rules: rules_view(self.module@),
        }
    }
}

/// The names of a list of named rules, in order.
pub open spec fn rule_names(rules: Seq<(Seq<char>, RuleView)>) -> Seq<Seq<char>> {
    rules.map_values(|e: (Seq<char>, RuleView)| e.0)
}

/// The rules are in strictly increasing order of their names, so that no
/// name occurs twice: the shape of a map keyed by name, walked in order.
pub open spec fn rules_ordered(c: ConfigView) -> bool {
    strictly_sorted(rule_names(c.rules))
}

/// The rules as a map from name to rule.
pub open spec fn rule_map(rules: Seq<(Seq<char>, RuleView)>) -> Map<Seq<char>, RuleView>
    decreases rules.len(),
{
    if rules.len() == 0 {
        Map::empty()
    } else {
        rule_map(rules.drop_last()).insert(rules.last().0, rules.last().1)
    }
}

/// The map holds exactly the names of the list, and where no name occurs
/// twice, each name's own rule.
proof fn lemma_rule_map(rules: Seq<(Seq<char>, RuleView)>)
    ensures
        forall|x: Seq<char>| #[trigger] rule_map(rules).dom().contains(x) <==> rule_names(rules).contains(x),
        strictly_sorted(rule_names(rules)) ==> forall|k: int|
            0 <= k < rules.len() ==> rule_map(rules)[#[trigger] rules[k].0] == rules[k].1,
    decreases rules.len(),
{
    if rules.len() > 0 {
        let init = rules.drop_last();
        lemma_rule_map(init);
        let names = rule_names(rules);
        assert(rule_names(init) =~= names.drop_last());
        assert(rule_map(rules) == rule_map(init).insert(rules.last().0, rules.last().1));
        assert forall|x: Seq<char>| #[trigger] rule_map(rules).dom().contains(x) <==> names.contains(x) by {
            assert(rule_map(init).dom().contains(x) <==> rule_names(init).contains(x));
            if names.contains(x) {
                let k = choose|k: int| 0 <= k < names.len() && names[k] == x;
                if k < names.len() - 1 {
                    assert(rule_names(init)[k] == x);
                }
            }
            if rule_names(init).contains(x) {
                let k = choose|k: int| 0 <= k < init.len() && rule_names(init)[k] == x;
                assert(names[k] == x);
            }
            if x == rules.last().0 {
                assert(names[rules.len() - 1] == x);
            }
        }
        if strictly_sorted(names) {
            assert forall|k: int| 0 <= k < rules.len() implies rule_map(rules)[#[trigger] rules[k].0]
                == rules[k].1 by {
                if k < rules.len() - 1 {
                    assert(names[k] == rules[k].0 && names[rules.len() - 1] == rules.last().0);
                    if rules[k].0 == rules.last().0 {
                        lemma_precedes_irreflexive(rules[k].0);
                    }
                    assert(init[k] == rules[k]);
                }
            }
        }
    }
}

/// The configuration of a project that says nothing: the project directory
/// is the one source root, nothing is ignored and there are no rules.
pub open spec fn default_config() -> ConfigView {
    ConfigView { src_roots: seq!["."@], ignore: Seq::empty(), rules: Seq::empty() }
}

/// The source roots used when none are given: the project directory.
pub fn default_src_roots() -> (r: Vec<String>)
    ensures
        strings_view(r@) == seq!["."@],
{
    let mut r: Vec<String> = Vec::new();
    r.push(".".to_owned());
    assert(strings_view(r@) =~= seq!["."@]);
    r
}

impl Default for CustomsConfig {
    fn default() -> (r: Self)
        ensures
            r@ == default_config(),
    {
        let r = CustomsConfig { src_roots: default_src_roots(), ignore: Vec::new(), module: Vec::new() };
        assert(r@.ignore =~= Seq::<Seq<char>>::empty());
        assert(r@.rules =~= Seq::<(Seq<char>, RuleView)>::empty());
        r
    }
}

impl CustomsConfig {
    /// Adds a named rule, in its place by name; a rule of the same name is
    /// replaced (`BTreeMap::insert`). Source roots and ignores stay.
    pub fn insert_rule(&mut self, name: String, rule: ModuleRule)
        requires
            rules_ordered(old(self)@),
        ensures
            rules_ordered(final(self)@),
            rule_map(final(self)@.rules) == rule_map(old(self)@.rules).insert(name@, rule@),
            final(self)@.src_roots == old(self)@.src_roots,
            final(self)@.ignore == old(self)@.ignore,
    {
        let ghost rules = old(self)@.rules;
        let ghost names = rule_names(rules);
        let n = chars_of(name.as_str());
        let mut p: usize = 0;
        while p < self.module.len() && chars_precede(
            chars_of(self.module[p].0.as_str()).as_slice(),
            n.as_slice(),
        )
            invariant
                p <= self.module.len(),
                self@ == old(self)@,
                rules == self@.rules,
                names == rule_names(rules),
                n@ == name@,
                forall|k: int| 0 <= k < p ==> precedes(names[k], name@),
            decreases self.module.len() - p,
        {
            assert(names[p as int] == self.module[p as int].0@);
            p = p + 1;
        }
        proof {
            lemma_rule_map(rules);
            if p < names.len() {
                assert(names[p as int] == self.module[p as int].0@);
            }
        }
        let ghost nr = (name@, rule@);
        if p < self.module.len() && text_is(self.module[p].0.as_str(), name.as_str()) {
            self.module.set(p, (name, rule));
            proof {
                let new_rules = self@.rules;
                assert(new_rules =~= rules.update(p as int, nr));
                assert(rule_names(new_rules) =~= names);
                lemma_rule_map(new_rules);
                assert(rule_map(new_rules) =~= rule_map(rules).insert(nr.0, nr.1)) by {
                    assert forall|x: Seq<char>| rule_map(new_rules).dom().contains(x) implies rule_map(
                        new_rules,
                    )[x] == rule_map(rules).insert(nr.0, nr.1)[x] by {
                        assert(names.contains(x));
                        let k = choose|k: int| 0 <= k < names.len() && names[k] == x;
                        assert(new_rules[k].0 == x && rules[k].0 == x);
                    }
                    assert forall|x: Seq<char>| rule_map(rules).insert(nr.0, nr.1).dom().contains(x)
                        implies rule_map(new_rules).dom().contains(x) by {
                        if x != nr.0 {
                            assert(rule_map(rules).dom().contains(x));
                        } else {
                            assert(names[p as int] == x);
                        }
                    }
                }
            }
        } else {
            proof {
                if p < names.len() {
                    lemma_precedes_total(names[p as int], name@);
                }
                assert forall|k: int| p <= k < names.len() implies precedes(name@, names[k]) by {
                    if k > p {
                        lemma_precedes_transitive(name@, names[p as int], names[k]);
                    }
                }
            }
            self.module.insert(p, (name, rule));
            proof {
                let new_rules = self@.rules;
                assert(new_rules =~= rules.insert(p as int, nr));
                let nn = rule_names(new_rules);
                assert(nn =~= names.insert(p as int, nr.0));
                assert forall|a: int, b: int| 0 <= a < b < nn.len() implies precedes(nn[a], nn[b]) by {
                    if a < p && b > p {
                        lemma_precedes_transitive(names[a], nr.0, names[b - 1]);
                    }
                }
                lemma_rule_map(new_rules);
                assert(!names.contains(nr.0)) by {
                    if names.contains(nr.0) {
                        let k = choose|k: int| 0 <= k < names.len() && names[k] == nr.0;
                        lemma_precedes_irreflexive(nr.0);
                    }
                }
                assert(rule_map(new_rules) =~= rule_map(rules).insert(nr.0, nr.1)) by {
                    assert forall|x: Seq<char>| rule_map(new_rules).dom().contains(x) implies rule_map(
                        new_rules,
                    )[x] == rule_map(rules).insert(nr.0, nr.1)[x] by {
                        assert(nn.contains(x));
                        let k = choose|k: int| 0 <= k < nn.len() && nn[k] == x;
                        assert(new_rules[k].0 == x);
                        if k < p {
                            assert(rules[k] == new_rules[k]);
                        } else if k > p {
                            assert(rules[k - 1] == new_rules[k]);
                        }
                    }
                    assert forall|x: Seq<char>| rule_map(rules).insert(nr.0, nr.1).dom().contains(x)
                        implies rule_map(new_rules).dom().contains(x) by {
                        if x != nr.0 {
                            assert(names.contains(x));
                            let k = choose|k: int| 0 <= k < names.len() && names[k] == x;
                            if k < p {
                                assert(nn[k] == x);
                            } else {
                                assert(nn[k + 1] == x);
                            }
                        } else {
                            assert(nn[p as int] == x);
                        }
                    }
                }
            }
        }
    }
}

/// The allow list that a rule stands for: its own list, or `["$submodules"]`.
pub open spec fn resolved_allow_view(rule: RuleView) -> Seq<Seq<char>> {
    match rule.allow {
        Some(a) => a,
        None => seq!["$submodules"@],
    }
}

impl ModuleRule {
    /// Returns the allow list, applying the default when `allow` is omitted.
    pub fn resolved_allow(&self) -> (r: Vec<String>)
        ensures
            strings_view(r@) == resolved_allow_view(self@),
    {
        match &self.allow {
            Some(a) => copy_strings(a),
            None => {
                let mut r: Vec<String> = Vec::new();
                r.push("$submodules".to_owned());
                assert(strings_view(r@) =~= seq!["$submodules"@]);
                r
            },
        }
    }
}

/// Whether an allow entry is the `$submodules` token.
pub fn is_submodules_token(entry: &str) -> (r: bool)
    ensures
        r == (entry@ == "$submodules"@),
{
    text_is(entry, "$submodules")
}

/// Why a configuration cannot be used.
#[derive(Clone, Debug, PartialEq, Eq)]
pub enum ConfigError {
    /// The file could not be read.
    Io { path: String, message: String },
    /// The file is not a TOML document of the expected shape.
    Toml { message: String },
    /// A rule names no module (its `module` is blank).
    MissingModule { rule: String },
    /// An allow entry starts with `$` but is not `$submodules`.
    UnknownToken { rule: String, token: String },
}

/// The mathematical content of a [`ConfigError`].
pub enum ConfigErrorView {
    Io { path: Seq<char>, message: Seq<char> },
    Toml { message: Seq<char> },
    MissingModule { rule: Seq<char> },
    UnknownToken { rule: Seq<char>, token: Seq<char> },
}

impl View for ConfigError {
    type V = ConfigErrorView;

    open spec fn view(&self) -> ConfigErrorView {
        match self {
            ConfigError::Io { path, message } => ConfigErrorView::Io {
                path: path@,
                message: message@,
            },
            ConfigError::Toml { message } => ConfigErrorView::Toml { message: message@ },
            ConfigError::MissingModule { rule } => ConfigErrorView::MissingModule { rule: rule@ },
            ConfigError::UnknownToken { rule, token } => ConfigErrorView::UnknownToken {
                rule: rule@,
                token: token@,
            },
        }
    }
}

/// The text of an error.
pub open spec fn error_text(e: ConfigErrorView) -> Seq<char> {
    match e {
        ConfigErrorView::Io { path, message } => "failed to read "@ + path + ": "@ + message,
        ConfigErrorView::Toml { message } => "failed to parse pyproject.toml: "@ + message,
        ConfigErrorView::MissingModule { rule } => "rule '"@ + rule + "' is missing a module path"@,
        ConfigErrorView::UnknownToken { rule, token } => "rule '"@ + rule
            + "' uses unknown token '"@ + token + "'"@,
    }
}

/// Appends the characters of `s`.
pub fn extend_chars(v: &mut Vec<char>, s: &str)
    ensures
        final(v)@ == old(v)@ + s@,
{
    let mut w = chars_of(s);
    v.append(&mut w);
}

impl ConfigError {
    /// The error's text.
    pub fn message(&self) -> (r: String)
        ensures
            r@ == error_text(self@),
    {
        let mut v: Vec<char> = Vec::new();
        match self {
            ConfigError::Io { path, message } => {
                extend_chars(&mut v, "failed to read ");
                extend_chars(&mut v, path.as_str());
                extend_chars(&mut v, ": ");
                extend_chars(&mut v, message.as_str());
            },
            ConfigError::Toml { message } => {
                extend_chars(&mut v, "failed to parse pyproject.toml: ");
                extend_chars(&mut v, message.as_str());
            },
            ConfigError::MissingModule { rule } => {
                extend_chars(&mut v, "rule '");
                extend_chars(&mut v, rule.as_str());
                extend_chars(&mut v, "' is missing a module path");
            },
            ConfigError::UnknownToken { rule, token } => {
                extend_chars(&mut v, "rule '");
                extend_chars(&mut v, rule.as_str());
                extend_chars(&mut v, "' uses unknown token '");
                extend_chars(&mut v, token.as_str());
                extend_chars(&mut v, "'");
            },
        }
        crate::text::string_of(v.as_slice())
    }
}

/// An allow entry that starts with `$` but is not `$submodules`.
pub open spec fn unknown_token(entry: Seq<char>) -> bool {
    entry.len() > 0 && entry[0] == '$' && entry != "$submodules"@
}

/// The first unknown token among `allow[k..]`, reported for rule `name`.
pub open spec fn token_error_from(name: Seq<char>, allow: Seq<Seq<char>>, k: int) -> Option<
    ConfigErrorView,
>
    decreases allow.len() - k,
{
    if k < 0 || k >= allow.len() {
        None
    } else if unknown_token(allow[k]) {
        Some(ConfigErrorView::UnknownToken { rule: name, token: allow[k] })
    } else {
        token_error_from(name, allow, k + 1)
    }
}

/// What is wrong with one named rule, if anything: a blank module comes
/// first, then the first unknown token of its allow list.
pub open spec fn rule_error(name: Seq<char>, rule: RuleView) -> Option<ConfigErrorView> {
    if blank(rule.module) {
        Some(ConfigErrorView::MissingModule { rule: name })
    } else {
        match rule.allow {
            Some(a) => token_error_from(name, a, 0),
            None => None,
        }
    }
}

/// The first error among `rules[k..]`.
pub open spec fn config_error_from(rules: Seq<(Seq<char>, RuleView)>, k: int) -> Option<
    ConfigErrorView,
>
    decreases rules.len() - k,
{
    if k < 0 || k >= rules.len() {
        None
    } else {
        match rule_error(rules[k].0, rules[k].1) {
            Some(e) => Some(e),
            None => config_error_from(rules, k + 1),
        }
    }
}

/// The error of a configuration: that of the first rule, in order, that has one.
pub open spec fn config_error(c: ConfigView) -> Option<ConfigErrorView> {
    config_error_from(c.rules, 0)
}

proof fn lemma_config_error_from(rules: Seq<(Seq<char>, RuleView)>, k: int)
    requires
        0 <= k <= rules.len(),
    ensures
        config_error_from(rules, k) is None <==> forall|j: int|
            k <= j < rules.len() ==> (#[trigger] rule_error(rules[j].0, rules[j].1)) is None,
    decreases rules.len() - k,
{
    if k < rules.len() {
        lemma_config_error_from(rules, k + 1);
    }
}

/// Law: a configuration passes exactly when each of its rules does: its
/// module is not blank, and no allow entry is a `$` token other than
/// `$submodules`.
pub proof fn lemma_valid_config(c: ConfigView)
    ensures
        config_error(c) is None <==> forall|j: int|
            0 <= j < c.rules.len() ==> (#[trigger] rule_error(c.rules[j].0, c.rules[j].1)) is None,
{
    lemma_config_error_from(c.rules, 0);
}

proof fn lemma_config_error_found(rules: Seq<(Seq<char>, RuleView)>, k: int)
    requires
        0 <= k <= rules.len(),
    ensures
        config_error_from(rules, k) matches Some(e) ==> exists|i: int|
            k <= i < rules.len() && rule_error(rules[i].0, rules[i].1) == Some(e) && forall|j: int|
                k <= j < i ==> (#[trigger] rule_error(rules[j].0, rules[j].1)) is None,
    decreases rules.len() - k,
{
    if k < rules.len() {
        lemma_config_error_from(rules, k + 1);
        lemma_config_error_found(rules, k + 1);
        if rule_error(rules[k].0, rules[k].1) is Some {
            assert(rule_error(rules[k].0, rules[k].1) == config_error_from(rules, k));
        } else if let Some(e) = config_error_from(rules, k + 1) {
            let i = choose|i: int|
                k + 1 <= i < rules.len() && rule_error(rules[i].0, rules[i].1) == Some(e) && forall|j: int|
                    k + 1 <= j < i ==> (#[trigger] rule_error(rules[j].0, rules[j].1)) is None;
            assert forall|j: int| k <= j < i implies (#[trigger] rule_error(rules[j].0, rules[j].1)) is None by {
                if j > k {
                }
            }
        }
    }
}

/// The error `e` is that of a rule, and no rule whose name comes before
/// that rule's name has an error.
pub open spec fn least_named_error(c: ConfigView, e: ConfigErrorView) -> bool {
    exists|k: int|
        0 <= k < c.rules.len() && rule_error(c.rules[k].0, c.rules[k].1) == Some(e) && forall|j: int|
            0 <= j < c.rules.len() && precedes(c.rules[j].0, c.rules[k].0) ==> (#[trigger] rule_error(
                c.rules[j].0,
                c.rules[j].1,
            )) is None
}

/// Law (the first bad rule by name is reported): for rules kept in order of
/// their names, the error of a configuration is that of the bad rule with
/// the least name.
pub proof fn lemma_config_error_by_name(c: ConfigView)
    requires
        rules_ordered(c),
    ensures
        config_error(c) matches Some(e) ==> least_named_error(c, e),
{
    lemma_config_error_found(c.rules, 0);
    if let Some(e) = config_error(c) {
        let names = rule_names(c.rules);
        let i = choose|i: int|
            0 <= i < c.rules.len() && rule_error(c.rules[i].0, c.rules[i].1) == Some(e) && forall|j: int|
                0 <= j < i ==> (#[trigger] rule_error(c.rules[j].0, c.rules[j].1)) is None;
        assert forall|j: int|
            0 <= j < c.rules.len() && precedes(c.rules[j].0, c.rules[i].0) implies (#[trigger] rule_error(
                c.rules[j].0,
                c.rules[j].1,
            )) is None by {
            assert(names[j] == c.rules[j].0 && names[i] == c.rules[i].0);
            if j == i {
                lemma_precedes_irreflexive(names[i]);
            } else if j > i {
                lemma_precedes_transitive(names[i], names[j], names[i]);
                lemma_precedes_irreflexive(names[i]);
            }
        }
        assert(least_named_error(c, e));
    }
}

fn check_rule(name: &String, rule: &ModuleRule) -> (r: Result<(), ConfigError>)
    ensures
        match r {
            Ok(()) => rule_error(name@, rule@) is None,
            Err(e) => rule_error(name@, rule@) == Some(e@),
        },
{
    if is_blank(rule.module.as_str()) {
        return Err(ConfigError::MissingModule { rule: name.clone() });
    }
    if let Some(allow) = &rule.allow {
        let ghost a = strings_view(allow@);
        let mut k: usize = 0;
        while k < allow.len()
            invariant
                k <= allow.len(),
                a == strings_view(allow@),
                rule@.allow == Some(a),
                !blank(rule@.module),
                token_error_from(name@, a, k as int) == token_error_from(name@, a, 0),
            decreases allow.len() - k,
        {
            let entry = &allow[k];
            let v = chars_of(entry.as_str());
            assert(a[k as int] == entry@);
            if v.len() > 0 && v[0] == '$' && !is_submodules_token(entry.as_str()) {
                assert(unknown_token(a[k as int]));
                let e = ConfigError::UnknownToken { rule: name.clone(), token: entry.clone() };
                return Err(e);
            }
            k = k + 1;
        }
    }
    Ok(())
}

impl CustomsConfig {
    /// Checks every rule: each names a module, and the only `$` entry of an
    /// allow list is `$submodules`. The rules are kept in order of their
    /// names ([`rules_ordered`]); the error is that of the bad rule with the
    /// least name.
    pub fn validate(&self) -> (r: Result<(), ConfigError>)
        requires
            rules_ordered(self@),
        ensures
            match r {
                Ok(()) => config_error(self@) is None,
                Err(e) => config_error(self@) == Some(e@) && least_named_error(self@, e@),
            },
    {
        proof {
            lemma_config_error_by_name(self@);
        }
        let ghost rules = self@.rules;
        let mut k: usize = 0;
        while k < self.module.len()
            invariant
                k <= self.module.len(),
                rules == rules_view(self.module@),
                config_error_from(rules, k as int) == config_error_from(rules, 0),
                config_error(self@) matches Some(e) ==> least_named_error(self@, e),
            decreases self.module.len() - k,
        {
            let (name, rule) = &self.module[k];
            check_rule(name, rule)?;
            k = k + 1;
        }
        Ok(())
    }
}

/// The `[tool]` table of a pyproject.toml document, as far as it matters here.
#[derive(Debug)]
pub struct ToolSection {
    pub customs: Option<CustomsConfig>,
}

/// A pyproject.toml document, as far as it matters here.
#[derive(Debug)]
pub struct PyProject {
    pub tool: Option<ToolSection>,
}

/// The configuration that a document gives: its `[tool.customs]` table, or
/// the default configuration where it has none.
pub open spec fn document_config(doc: PyProject) -> ConfigView {
    match doc.tool {
        Some(t) => match t.customs {
            Some(c) => c@,
            None => default_config(),
        },
        None => default_config(),
    }
}

/// The configuration of a parsed pyproject.toml document: a missing
/// `[tool.customs]` yields the default configuration; it must pass
/// [`CustomsConfig::validate`]. The document's rules are kept in order of
/// their names, as [`CustomsConfig::insert_rule`] keeps them.
pub fn config_from_document(doc: PyProject) -> (r: Result<CustomsConfig, ConfigError>)
    requires
        rules_ordered(document_config(doc)),
    ensures
        match r {
            Ok(c) => c@ == document_config(doc) && config_error(c@) is None,
            Err(e) => config_error(document_config(doc)) == Some(e@) && least_named_error(
                document_config(doc),
                e@,
            ),
        },
{
    assert(rule_names(default_config().rules) =~= Seq::<Seq<char>>::empty());
    let config = match doc.tool {
        Some(t) => match t.customs {
            Some(c) => c,
            None => CustomsConfig::default(),
        },
        None => CustomsConfig::default(),
    };
    config.validate()?;
    Ok(config)
}

/// Whether an importer is skipped: it is one of the `ignore` prefixes or
/// under one of them.
pub open spec fn ignored(importer: Seq<char>, c: ConfigView) -> bool {
    exists|k: int| 0 <= k < c.ignore.len() && module_under(importer, #[trigger] c.ignore[k])
}

/// True when the importing module is one of the ignored prefixes or a submodule of one.
pub fn is_ignored(importer_module: &str, config: &CustomsConfig) -> (r: bool)
    ensures
        r == ignored(importer_module@, config@),
{
    let ghost c = config@;
    let mut k: usize = 0;
    while k < config.ignore.len()
        invariant
            k <= config.ignore.len(),
            c == config@,
            forall|j: int| 0 <= j < k ==> !module_under(importer_module@, #[trigger] c.ignore[j]),
        decreases config.ignore.len() - k,
    {
        if crate::text::is_module_or_submodule(importer_module, config.ignore[k].as_str()) {
            assert(module_under(importer_module@, c.ignore[k as int]));
            return true;
        }
        k = k + 1;
    }
    false
}

} // verus!
