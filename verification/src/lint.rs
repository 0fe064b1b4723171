//! Which imports break which rules.
use vstd::prelude::*;

use crate::config::{
    extend_chars, ignored, is_ignored, resolved_allow_view, rule_names, rules_ordered, ConfigView,
    CustomsConfig, ModuleRule, RuleView,
};
use crate::imports::{extract_imports, source_imports, Import, ImportView};
use crate::mapping::{file_to_module, module_of_file, paths_view};
use crate::syntax::Point;
use crate::text::{
    chars_of, is_module_or_submodule, lemma_precedes_irreflexive, lemma_precedes_transitive,
    module_under, precedes, string_of, strings_view, text_is,
};

verus! {

/// An import that a rule forbids.
#[derive(Clone, Debug, PartialEq, Eq)]
pub struct Violation {
    pub rule_name: String,
    pub controlled_module: String,
    pub start: Point,
    pub end: Point,
}

/// The mathematical content of a [`Violation`].
pub struct ViolationView {
    pub rule_name: Seq<char>,
    pub controlled_module: Seq<char>,
    pub start: Point,
    pub end: Point,
}

impl View for Violation {
    type V = ViolationView;

    open spec fn view(&self) -> ViolationView {
        ViolationView {
            rule_name: self.rule_name@,
            controlled_module: self.controlled_module@,
            start: self.start,
            end: self.end,
        }
    }
}

/// The views of a list of violations.
pub open spec fn violations_view(v: Seq<Violation>) -> Seq<ViolationView> {
    v.map_values(|x: Violation| x@)
}

/// The text of a violation.
pub open spec fn violation_text(v: ViolationView) -> Seq<char> {
    "Customs: Forbidden import of "@ + v.controlled_module + " ["@ + v.rule_name + "]"@
}

/// The text of a violation as an editor shows it.
pub open spec fn diagnostic_text(v: ViolationView) -> Seq<char> {
    "Forbidden import of "@ + v.controlled_module
}

impl Violation {
    /// The violation's text as an editor shows it, beside the rule's name.
    pub fn diagnostic_message(&self) -> (r: String)
        ensures
            r@ == diagnostic_text(self@),
    {
        let mut v: Vec<char> = Vec::new();
        extend_chars(&mut v, "Forbidden import of ");
        extend_chars(&mut v, self.controlled_module.as_str());
        string_of(v.as_slice())
    }

    /// The violation's text: the controlled module and the rule's name.
    pub fn message(&self) -> (r: String)
        ensures
            r@ == violation_text(self@),
    {
        let mut v: Vec<char> = Vec::new();
        extend_chars(&mut v, "Customs: Forbidden import of ");
        extend_chars(&mut v, self.controlled_module.as_str());
        extend_chars(&mut v, " [");
        extend_chars(&mut v, self.rule_name.as_str());
        extend_chars(&mut v, "]");
        string_of(v.as_slice())
    }
}

/// Among `rules[..n]`, the rule that governs `imported`: of the rules whose
/// module is `imported` or a package above it, the one with the longest
/// module, and of equally long ones the last.
pub open spec fn governing_upto(rules: Seq<(Seq<char>, RuleView)>, imported: Seq<char>, n: int) -> Option<
    int,
>
    decreases n,
{
    if n <= 0 {
        None
    } else {
        let prev = governing_upto(rules, imported, n - 1);
        if module_under(imported, rules[n - 1].1.module) && (match prev {
            Some(b) => rules[n - 1].1.module.len() >= rules[b].1.module.len(),
            None => true,
        }) {
            Some(n - 1)
        } else {
            prev
        }
    }
}

/// The rule that governs an imported module, if any.
pub open spec fn governing_rule(c: ConfigView, imported: Seq<char>) -> Option<int> {
    governing_upto(c.rules, imported, c.rules.len() as int)
}

/// Law (the longest prefix wins): the governing rule's module is the
/// imported module or a package above it, no such rule has a longer module,
/// and a rule with a module as long comes before it; with no governing rule,
/// no rule's module covers the import.
pub proof fn lemma_governing_rule(rules: Seq<(Seq<char>, RuleView)>, imported: Seq<char>, n: int)
    requires
        0 <= n <= rules.len(),
    ensures
        match governing_upto(rules, imported, n) {
            Some(k) => 0 <= k < n && module_under(imported, rules[k].1.module) && forall|j: int|
                0 <= j < n && module_under(imported, #[trigger] rules[j].1.module) ==> rules[j].1.module.len()
                    <= rules[k].1.module.len() && (rules[j].1.module.len() == rules[k].1.module.len()
                    ==> j <= k),
            None => forall|j: int| 0 <= j < n ==> !module_under(imported, #[trigger] rules[j].1.module),
        },
    decreases n,
{
    if n > 0 {
        lemma_governing_rule(rules, imported, n - 1);
    }
}

/// Law (the longest prefix wins, and of equally long ones the greatest
/// name): for rules kept in order of their names, the governing rule's
/// module is the imported module or a package above it, no such rule has a
/// longer module, and every other one as long has a smaller name; with no
/// governing rule, no rule's module covers the import.
pub proof fn lemma_governing_by_name(c: ConfigView, imported: Seq<char>)
    requires
        rules_ordered(c),
    ensures
        match governing_rule(c, imported) {
            Some(k) => 0 <= k < c.rules.len() && module_under(imported, c.rules[k].1.module) && forall|j: int|
                0 <= j < c.rules.len() && j != k && module_under(imported, #[trigger] c.rules[j].1.module)
                    ==> c.rules[j].1.module.len() < c.rules[k].1.module.len() || (c.rules[j].1.module.len()
                    == c.rules[k].1.module.len() && precedes(c.rules[j].0, c.rules[k].0)),
            None => forall|j: int| 0 <= j < c.rules.len() ==> !module_under(imported, #[trigger] c.rules[j].1.module),
        },
{
    lemma_governing_rule(c.rules, imported, c.rules.len() as int);
    if let Some(k) = governing_rule(c, imported) {
        let names = rule_names(c.rules);
        assert forall|j: int|
            0 <= j < c.rules.len() && j != k && module_under(imported, #[trigger] c.rules[j].1.module)
                implies c.rules[j].1.module.len() < c.rules[k].1.module.len() || (c.rules[j].1.module.len()
                == c.rules[k].1.module.len() && precedes(c.rules[j].0, c.rules[k].0)) by {
            assert(names[j] == c.rules[j].0 && names[k] == c.rules[k].0);
        }
    }
}

/// Find the rule that governs `imported`.
fn matching_rule(config: &CustomsConfig, imported: &str) -> (r: Option<usize>)
    ensures
        governing_rule(config@, imported@) == (match r {
            Some(k) => Some(k as int),
            None => None::<int>,
        }),
        r matches Some(k) ==> k < config.module.len(),
{
    let ghost rules = config@.rules;
    let mut best: Option<usize> = None;
    let mut best_len: usize = 0;
    let mut k: usize = 0;
    while k < config.module.len()
        invariant
            k <= config.module.len(),
            rules == config@.rules,
            governing_upto(rules, imported@, k as int) == (match best {
                Some(b) => Some(b as int),
                None => None::<int>,
            }),
            best matches Some(b) ==> b < k && best_len == rules[b as int].1.module.len(),
        decreases config.module.len() - k,
    {
        let rule = &config.module[k].1;
        assert(rules[k as int].1 == rule@);
        if is_module_or_submodule(imported, rule.module.as_str()) {
            let len = chars_of(rule.module.as_str()).len();
            let better = match best {
                Some(_) => len >= best_len,
                None => true,
            };
            if better {
                best = Some(k);
                best_len = len;
            }
        }
        k = k + 1;
    }
    best
}

/// Whether the importer may import what the rule controls: some entry of
/// the rule's allow list covers it, `$submodules` standing for the
/// controlled module itself.
pub open spec fn allowed(importer: Seq<char>, rule: RuleView) -> bool {
    exists|k: int|
        0 <= k < resolved_allow_view(rule).len() && #[trigger] allow_entry_covers(
            importer,
            rule,
            resolved_allow_view(rule)[k],
        )
}

/// Whether one allow entry covers the importer.
pub open spec fn allow_entry_covers(importer: Seq<char>, rule: RuleView, entry: Seq<char>) -> bool {
    if entry == "$submodules"@ {
        module_under(importer, rule.module)
    } else {
        module_under(importer, entry)
    }
}

/// Law: with no allow list, exactly the controlled module and its own
/// submodules may import it.
pub proof fn lemma_default_allow(importer: Seq<char>, rule: RuleView)
    requires
        rule.allow is None,
    ensures
        allowed(importer, rule) <==> module_under(importer, rule.module),
{
    assert(resolved_allow_view(rule) =~= seq!["$submodules"@]);
    if module_under(importer, rule.module) {
        assert(allow_entry_covers(importer, rule, resolved_allow_view(rule)[0]));
    }
}

/// Law: with an allow list, an importer may import exactly when one of the
/// list's entries covers it; `$submodules` only counts when it is listed.
pub proof fn lemma_explicit_allow(importer: Seq<char>, rule: RuleView)
    requires
        rule.allow is Some,
    ensures
        allowed(importer, rule) <==> exists|k: int|
            0 <= k < rule.allow->0.len() && #[trigger] allow_entry_covers(
                importer,
                rule,
                rule.allow->0[k],
            ),
{
}

/// Law (`$submodules` lets the controlled tree in): when the allow list,
/// given or defaulted, holds `$submodules`, the controlled module and every
/// module under it may import it, whether or not the list was given.
pub proof fn lemma_submodules_allowed(importer: Seq<char>, rule: RuleView)
    requires
        resolved_allow_view(rule).contains("$submodules"@),
        module_under(importer, rule.module),
    ensures
        allowed(importer, rule),
{
    let a = resolved_allow_view(rule);
    let k = choose|k: int| 0 <= k < a.len() && a[k] == "$submodules"@;
    assert(allow_entry_covers(importer, rule, a[k]));
}

/// Law (each entry lets its own tree in): an importer that is an allow
/// entry other than `$submodules`, or under one, may import.
pub proof fn lemma_entry_allowed(importer: Seq<char>, rule: RuleView, entry: Seq<char>)
    requires
        resolved_allow_view(rule).contains(entry),
        entry != "$submodules"@,
        module_under(importer, entry),
    ensures
        allowed(importer, rule),
{
    let a = resolved_allow_view(rule);
    let k = choose|k: int| 0 <= k < a.len() && a[k] == entry;
    assert(allow_entry_covers(importer, rule, a[k]));
}

/// Law (nothing else lets an importer in): an allowed importer is under
/// some entry of the allow list, or, where `$submodules` is listed, under
/// the controlled module.
pub proof fn lemma_allowed_has_reason(importer: Seq<char>, rule: RuleView)
    requires
        allowed(importer, rule),
    ensures
        (resolved_allow_view(rule).contains("$submodules"@) && module_under(importer, rule.module))
            || exists|k: int|
            0 <= k < resolved_allow_view(rule).len() && resolved_allow_view(rule)[k] != "$submodules"@
                && module_under(importer, #[trigger] resolved_allow_view(rule)[k]),
{
    let a = resolved_allow_view(rule);
    let k = choose|k: int| 0 <= k < a.len() && #[trigger] allow_entry_covers(importer, rule, a[k]);
    if a[k] == "$submodules"@ {
        assert(a.contains("$submodules"@));
    }
}

/// Whether the importer may import what the rule controls.
fn importer_allowed(importer: &str, rule: &ModuleRule) -> (r: bool)
    ensures
        r == allowed(importer@, rule@),
{
    let entries = rule.resolved_allow();
    let ghost a = resolved_allow_view(rule@);
    let mut k: usize = 0;
    while k < entries.len()
        invariant
            k <= entries.len(),
            a == resolved_allow_view(rule@),
            a == strings_view(entries@),
            forall|j: int| 0 <= j < k ==> !allow_entry_covers(importer@, rule@, #[trigger] a[j]),
        decreases entries.len() - k,
    {
        let entry = &entries[k];
        assert(a[k as int] == entry@);
        let covers = if crate::config::is_submodules_token(entry.as_str()) {
            is_module_or_submodule(importer, rule.module.as_str())
        } else {
            is_module_or_submodule(importer, entry.as_str())
        };
        if covers {
            assert(allow_entry_covers(importer@, rule@, a[k as int]));
            return true;
        }
        k = k + 1;
    }
    false
}

/// A violation for the same import position and rule is among `v`.
pub open spec fn reported(v: Seq<ViolationView>, start: Point, name: Seq<char>) -> bool {
    exists|k: int| 0 <= k < v.len() && (#[trigger] v[k]).start == start && v[k].rule_name == name
}

/// The violations after looking at one imported module of an import at
/// `start`..`end`: if a rule governs it, the importer is not allowed, and no
/// violation of that rule at that position is known yet, a new one.
pub open spec fn lint_step(
    c: ConfigView,
    importer: Seq<char>,
    start: Point,
    end: Point,
    imported: Seq<char>,
    prev: Seq<ViolationView>,
) -> Seq<ViolationView> {
    match governing_rule(c, imported) {
        None => prev,
        Some(k) => {
            let (name, rule) = c.rules[k];
            if allowed(importer, rule) || reported(prev, start, name) {
                prev
            } else {
                prev.push(
                    ViolationView { rule_name: name, controlled_module: rule.module, start, end },
                )
            }
        },
    }
}

/// The violations after the first `j` modules of one import.
pub open spec fn lint_modules(
    c: ConfigView,
    importer: Seq<char>,
    imp: ImportView,
    prev: Seq<ViolationView>,
    j: int,
) -> Seq<ViolationView>
    decreases j,
{
    if j <= 0 {
        prev
    } else {
        lint_step(
            c,
            importer,
            imp.start,
            imp.end,
            imp.modules[j - 1],
            lint_modules(c, importer, imp, prev, j - 1),
        )
    }
}

/// The violations of the first `i` imports.
pub open spec fn lint_upto(c: ConfigView, importer: Seq<char>, imps: Seq<ImportView>, i: int) -> Seq<
    ViolationView,
>
    decreases i,
{
    if i <= 0 {
        Seq::empty()
    } else {
        let imp = imps[i - 1];
        lint_modules(c, importer, imp, lint_upto(c, importer, imps, i - 1), imp.modules.len() as int)
    }
}

/// The violations of a list of imports made by `importer`, in order.
pub open spec fn lint_all(c: ConfigView, importer: Seq<char>, imps: Seq<ImportView>) -> Seq<
    ViolationView,
> {
    lint_upto(c, importer, imps, imps.len() as int)
}

/// `v` is the violation that module `m` of import `imp` gives: the rule
/// that governs `m` does not allow the importer, and `v` names that rule
/// and the import's position.
pub open spec fn forbids(c: ConfigView, importer: Seq<char>, imp: ImportView, m: Seq<char>, v: ViolationView) -> bool {
    match governing_rule(c, m) {
        Some(k) => !allowed(importer, c.rules[k].1) && v == ViolationView {
            rule_name: c.rules[k].0,
            controlled_module: c.rules[k].1.module,
            start: imp.start,
            end: imp.end,
        },
        None => false,
    }
}

/// Module `m` of an import at `start` is forbidden to the importer by rule
/// `name`.
pub open spec fn forbidden_by(c: ConfigView, importer: Seq<char>, m: Seq<char>, name: Seq<char>) -> bool {
    match governing_rule(c, m) {
        Some(k) => !allowed(importer, c.rules[k].1) && c.rules[k].0 == name,
        None => false,
    }
}

/// No two violations have the same position and rule.
pub open spec fn no_repeats(v: Seq<ViolationView>) -> bool {
    forall|a: int, b: int|
        0 <= a < b < v.len() ==> !((#[trigger] v[a]).start == (#[trigger] v[b]).start && v[a].rule_name
            == v[b].rule_name)
}

proof fn lemma_reported_prefix(p: Seq<ViolationView>, q: Seq<ViolationView>, start: Point, name: Seq<char>)
    requires
        p.len() <= q.len(),
        q.subrange(0, p.len() as int) == p,
        reported(p, start, name),
    ensures
        reported(q, start, name),
{
    let k = choose|k: int| 0 <= k < p.len() && (#[trigger] p[k]).start == start && p[k].rule_name == name;
    assert(q[k] == p[k]);
}

proof fn lemma_lint_step(
    c: ConfigView,
    importer: Seq<char>,
    imp: ImportView,
    m: Seq<char>,
    prev: Seq<ViolationView>,
)
    requires
        no_repeats(prev),
    ensures
        ({
            let r = lint_step(c, importer, imp.start, imp.end, m, prev);
            &&& r.len() >= prev.len()
            &&& r.subrange(0, prev.len() as int) == prev
            &&& no_repeats(r)
            &&& forall|n: int| prev.len() <= n < r.len() ==> forbids(c, importer, imp, m, #[trigger] r[n])
            &&& forall|name: Seq<char>| forbidden_by(c, importer, m, name) ==> reported(r, imp.start, name)
        }),
{
    let r = lint_step(c, importer, imp.start, imp.end, m, prev);
    assert(r.subrange(0, prev.len() as int) =~= prev);
    match governing_rule(c, m) {
        None => {},
        Some(k) => {
            let (name, rule) = c.rules[k];
            if !(allowed(importer, rule) || reported(prev, imp.start, name)) {
                let nv = ViolationView { rule_name: name, controlled_module: rule.module, start: imp.start, end: imp.end };
                assert(r == prev.push(nv));
                assert forall|a: int, b: int| 0 <= a < b < r.len() implies !((#[trigger] r[a]).start == (#[trigger] r[b]).start && r[a].rule_name == r[b].rule_name) by {
                    if b == prev.len() && r[a].start == r[b].start && r[a].rule_name == r[b].rule_name {
                        assert(prev[a] == r[a]);
                        assert(reported(prev, imp.start, name));
                    }
                }
                assert(r[prev.len() as int] == nv);
            }
        },
    }
}

proof fn lemma_lint_modules(
    c: ConfigView,
    importer: Seq<char>,
    imp: ImportView,
    prev: Seq<ViolationView>,
    j: int,
)
    requires
        0 <= j <= imp.modules.len(),
        no_repeats(prev),
    ensures
        ({
            let r = lint_modules(c, importer, imp, prev, j);
            &&& r.len() >= prev.len()
            &&& r.subrange(0, prev.len() as int) == prev
            &&& no_repeats(r)
            &&& forall|n: int| prev.len() <= n < r.len() ==> exists|jj: int| 0 <= jj < j && forbids(c, importer, imp, imp.modules[jj], #[trigger] r[n])
            &&& forall|jj: int, name: Seq<char>| 0 <= jj < j && #[trigger] forbidden_by(c, importer, imp.modules[jj], name) ==> reported(r, imp.start, name)
        }),
    decreases j,
{
    let r = lint_modules(c, importer, imp, prev, j);
    if j == 0 {
        assert(r.subrange(0, prev.len() as int) =~= prev);
    } else {
        let q = lint_modules(c, importer, imp, prev, j - 1);
        lemma_lint_modules(c, importer, imp, prev, j - 1);
        lemma_lint_step(c, importer, imp, imp.modules[j - 1], q);
        assert(r == lint_step(c, importer, imp.start, imp.end, imp.modules[j - 1], q));
        assert(r.subrange(0, prev.len() as int) =~= q.subrange(0, prev.len() as int));
        assert forall|n: int| prev.len() <= n < r.len() implies exists|jj: int| 0 <= jj < j && forbids(c, importer, imp, imp.modules[jj], #[trigger] r[n]) by {
            if n < q.len() {
                assert(r[n] == q[n]);
                let jj = choose|jj: int| 0 <= jj < j - 1 && forbids(c, importer, imp, imp.modules[jj], #[trigger] q[n]);
                assert(forbids(c, importer, imp, imp.modules[jj], r[n]));
            } else {
                assert(forbids(c, importer, imp, imp.modules[j - 1], r[n]));
            }
        }
        assert forall|jj: int, name: Seq<char>| 0 <= jj < j && #[trigger] forbidden_by(c, importer, imp.modules[jj], name) implies reported(r, imp.start, name) by {
            if jj < j - 1 {
                lemma_reported_prefix(q, r, imp.start, name);
            }
        }
    }
}

proof fn lemma_lint_upto(c: ConfigView, importer: Seq<char>, imps: Seq<ImportView>, i: int)
    requires
        0 <= i <= imps.len(),
    ensures
        ({
            let r = lint_upto(c, importer, imps, i);
            &&& no_repeats(r)
            &&& forall|n: int| 0 <= n < r.len() ==> exists|ii: int, jj: int| 0 <= ii < i && 0 <= jj < imps[ii].modules.len() && forbids(c, importer, imps[ii], imps[ii].modules[jj], #[trigger] r[n])
            &&& forall|ii: int, jj: int, name: Seq<char>| 0 <= ii < i && 0 <= jj < imps[ii].modules.len() && #[trigger] forbidden_by(c, importer, imps[ii].modules[jj], name) ==> reported(r, imps[ii].start, name)
        }),
    decreases i,
{
    let r = lint_upto(c, importer, imps, i);
    if i > 0 {
        let q = lint_upto(c, importer, imps, i - 1);
        let imp = imps[i - 1];
        lemma_lint_upto(c, importer, imps, i - 1);
        lemma_lint_modules(c, importer, imp, q, imp.modules.len() as int);
        assert forall|n: int| 0 <= n < r.len() implies exists|ii: int, jj: int| 0 <= ii < i && 0 <= jj < imps[ii].modules.len() && forbids(c, importer, imps[ii], imps[ii].modules[jj], #[trigger] r[n]) by {
            if n < q.len() {
                assert(r[n] == r.subrange(0, q.len() as int)[n]);
                let (ii, jj) = choose|ii: int, jj: int| 0 <= ii < i - 1 && 0 <= jj < imps[ii].modules.len() && forbids(c, importer, imps[ii], imps[ii].modules[jj], #[trigger] q[n]);
                assert(forbids(c, importer, imps[ii], imps[ii].modules[jj], r[n]));
            } else {
                let jj = choose|jj: int| 0 <= jj < imp.modules.len() && forbids(c, importer, imp, imp.modules[jj], #[trigger] r[n]);
                assert(forbids(c, importer, imps[i - 1], imps[i - 1].modules[jj], r[n]));
            }
        }
        assert forall|ii: int, jj: int, name: Seq<char>| 0 <= ii < i && 0 <= jj < imps[ii].modules.len() && #[trigger] forbidden_by(c, importer, imps[ii].modules[jj], name) implies reported(r, imps[ii].start, name) by {
            if ii < i - 1 {
                lemma_reported_prefix(q, r, imps[ii].start, name);
            } else {
                assert(forbidden_by(c, importer, imp.modules[jj], name));
            }
        }
    }
}

/// What is reported: every violation comes from a module of one of the
/// imports whose governing rule does not allow the importer, and names that
/// rule and that import's position; every such module and rule is reported
/// at that import's position; and no position and rule are reported twice.
pub open spec fn reports_exactly(c: ConfigView, importer: Seq<char>, imps: Seq<ImportView>, r: Seq<ViolationView>) -> bool {
    &&& no_repeats(r)
    &&& forall|n: int| 0 <= n < r.len() ==> exists|ii: int, jj: int| 0 <= ii < imps.len() && 0 <= jj < imps[ii].modules.len() && forbids(c, importer, imps[ii], imps[ii].modules[jj], #[trigger] r[n])
    &&& forall|ii: int, jj: int, name: Seq<char>| 0 <= ii < imps.len() && 0 <= jj < imps[ii].modules.len() && #[trigger] forbidden_by(c, importer, imps[ii].modules[jj], name) ==> reported(r, imps[ii].start, name)
}

/// Law (what is reported): the violations of a list of imports are exactly
/// those of [`reports_exactly`].
pub proof fn lemma_lint_all(c: ConfigView, importer: Seq<char>, imps: Seq<ImportView>)
    ensures
        reports_exactly(c, importer, imps, lint_all(c, importer, imps)),
{
    lemma_lint_upto(c, importer, imps, imps.len() as int);
}

/// Law: a file that maps to no module, or whose module is ignored, has no
/// violations.
pub proof fn lemma_unmapped_or_ignored(
    file: Seq<Seq<char>>,
    normalized: Seq<Seq<char>>,
    source: Seq<char>,
    roots: Seq<Seq<Seq<char>>>,
    c: ConfigView,
)
    requires
        module_of_file(normalized, roots) matches Some(m) ==> ignored(m, c),
    ensures
        source_violations(file, normalized, source, roots, c).len() == 0,
{
}

/// Whether a violation of the rule at that position is among `v`.
fn already_reported(v: &Vec<Violation>, start: Point, name: &String) -> (r: bool)
    ensures
        r == reported(violations_view(v@), start, name@),
{
    let ghost vv = violations_view(v@);
    let mut k: usize = 0;
    while k < v.len()
        invariant
            k <= v.len(),
            vv == violations_view(v@),
            forall|j: int| 0 <= j < k ==> !((#[trigger] vv[j]).start == start && vv[j].rule_name == name@),
        decreases v.len() - k,
    {
        assert(vv[k as int] == v[k as int]@);
        if v[k].start == start && text_is(v[k].rule_name.as_str(), name.as_str()) {
            return true;
        }
        k = k + 1;
    }
    false
}

/// The violations of the imports of `importer`, in order: for each import
/// and each module it imports, the rule that governs the module, when the
/// importer is not allowed; once per import position and rule. The rules
/// are kept in order of their names; of equally long ones the one with the
/// greatest name governs ([`lemma_governing_by_name`]).
pub fn lint_imports(importer: &str, imports: &Vec<Import>, config: &CustomsConfig) -> (r: Vec<
    Violation,
>)
    requires
        rules_ordered(config@),
    ensures
        violations_view(r@) == lint_all(
            config@,
            importer@,
            imports@.map_values(|i: Import| i@),
        ),
        reports_exactly(config@, importer@, imports@.map_values(|i: Import| i@), violations_view(r@)),
{
    proof {
        lemma_lint_all(config@, importer@, imports@.map_values(|i: Import| i@));
    }
    let ghost imps = imports@.map_values(|i: Import| i@);
    let ghost c = config@;
    let mut out: Vec<Violation> = Vec::new();
    let mut i: usize = 0;
    while i < imports.len()
        invariant
            i <= imports.len(),
            imps == imports@.map_values(|i: Import| i@),
            c == config@,
            violations_view(out@) == lint_upto(c, importer@, imps, i as int),
        decreases imports.len() - i,
    {
        let imp = &imports[i];
        assert(imps[i as int] == imp@);
        let ghost before = violations_view(out@);
        let mut j: usize = 0;
        while j < imp.modules.len()
            invariant
                i < imports.len(),
                imp == &imports[i as int],
                imps[i as int] == imp@,
                c == config@,
                j <= imp.modules.len(),
                violations_view(out@) == lint_modules(c, importer@, imp@, before, j as int),
            decreases imp.modules.len() - j,
        {
            let module = &imp.modules[j];
            assert(imp@.modules[j as int] == module@);
            let ghost prev = violations_view(out@);
            match matching_rule(config, module.as_str()) {
                None => {},
                Some(k) => {
                    let (name, rule) = &config.module[k];
                    assert(c.rules[k as int] == (name@, rule@));
                    if !importer_allowed(importer, rule) && !already_reported(&out, imp.start, name) {
                        out.push(
                            Violation {
                                rule_name: name.clone(),
                                controlled_module: rule.module.clone(),
                                start: imp.start,
                                end: imp.end,
                            },
                        );
                        assert(violations_view(out@) =~= lint_step(
                            c,
                            importer@,
                            imp.start,
                            imp.end,
                            module@,
                            prev,
                        ));
                    }
                },
            }
            j = j + 1;
        }
        i = i + 1;
    }
    assert(imps.len() == imports.len());
    out
}

/// The violations of a source file: none when its normalized path maps to
/// no module or its module is ignored, else those of its imports, read with
/// the file's path as given (which tells whether it is a package's
/// `__init__`).
pub open spec fn source_violations(
    file: Seq<Seq<char>>,
    normalized: Seq<Seq<char>>,
    source: Seq<char>,
    roots: Seq<Seq<Seq<char>>>,
    c: ConfigView,
) -> Seq<ViolationView> {
    match module_of_file(normalized, roots) {
        None => Seq::empty(),
        Some(m) => if ignored(m, c) {
            Seq::empty()
        } else {
            lint_all(c, m, source_imports(source, file, m))
        },
    }
}

/// Lint a Python source file. `file` is the file's path as given,
/// `normalized_file` the same path normalized, and `roots` the source roots
/// of the configuration as normalized paths. The module is found from the
/// normalized path; whether the file is a package's `__init__` is read from
/// the path as given. Returns no violations when the file cannot be mapped
/// to a module (outside the source roots) or is ignored.
pub fn lint_source(
    file: &Vec<String>,
    normalized_file: &Vec<String>,
    source: &str,
    roots: &Vec<Vec<String>>,
    config: &CustomsConfig,
) -> (r: Vec<Violation>)
    requires
        rules_ordered(config@),
    ensures
        violations_view(r@) == source_violations(
            strings_view(file@),
            strings_view(normalized_file@),
            source@,
            paths_view(roots@),
            config@,
        ),
        match module_of_file(strings_view(normalized_file@), paths_view(roots@)) {
            Some(m) => !ignored(m, config@) ==> reports_exactly(
                config@,
                m,
                source_imports(source@, strings_view(file@), m),
                violations_view(r@),
            ),
            None => r@.len() == 0,
        },
{
    let importer = match file_to_module(normalized_file, roots) {
        Some(m) => m,
        None => {
            let r: Vec<Violation> = Vec::new();
            assert(violations_view(r@) =~= Seq::<ViolationView>::empty());
            return r;
        },
    };
    if is_ignored(importer.as_str(), config) {
        let r: Vec<Violation> = Vec::new();
        assert(violations_view(r@) =~= Seq::<ViolationView>::empty());
        return r;
    }
    let imports = extract_imports(source, file, importer.as_str());
    let r = lint_imports(importer.as_str(), &imports, config);
    assert(imports@.map_values(|i: Import| i@) =~= crate::imports::imports_view(imports@));
    r
}

} // verus!
