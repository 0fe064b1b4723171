//! The imports of a Python source file: every `import` and `from ... import`
//! statement, nested ones included, with the dotted modules it is taken to
//! import.
use vstd::prelude::*;

use crate::mapping::{is_package_file, package_file};
use crate::syntax::{
    field_child, field_child_of, lemma_nested_subtree, lemma_subtree_end, node_views, one_below, python_listing,
    python_parses, subtree_end, subtree_end_of, syntax_nodes, NodeView, Point, SyntaxNode,
};
use crate::text::{
    chars_of, chars_prefix, join_dots, join_with_dots, lemma_precedes_irreflexive,
    lemma_precedes_transitive, precedes, sorted_unique, split_dots, split_on_dots, string_of,
    strictly_sorted, strings_of, strings_view, text_is, trim, trim_chars, views_of,
};

verus! {

/// One import statement.
#[derive(Clone, Debug, PartialEq, Eq)]
pub struct Import {
    /// Dotted module paths this statement is considered to import.
    pub modules: Vec<String>,
    pub start: Point,
    pub end: Point,
}

/// The mathematical content of an [`Import`].
pub struct ImportView {
    pub modules: Seq<Seq<char>>,
    pub start: Point,
    pub end: Point,
}

impl View for Import {
    type V = ImportView;

    open spec fn view(&self) -> ImportView {
        ImportView { modules: strings_view(self.modules@), start: self.start, end: self.end }
    }
}

/// The views of a list of imports.
pub open spec fn imports_view(v: Seq<Import>) -> Seq<ImportView> {
    v.map_values(|i: Import| i@)
}

// ---------------------------------------------------------------------------
// Relative imports
// ---------------------------------------------------------------------------

/// A module path that is there: present and not empty.
pub open spec fn present(rest: Option<Seq<char>>) -> bool {
    match rest {
        Some(r) => r.len() > 0,
        None => false,
    }
}

/// The absolute module that a relative import names.
///
/// `dots` is the number of leading dots and `rest` what follows them. No dots
/// means `rest` as it stands. Otherwise one dot is the package of the
/// importer (the importer itself when it is a package's `__init__`, else its
/// parent), and each further dot goes one package up; going above the top
/// gives nothing, and so does an empty result.
pub open spec fn relative_target(
    importer: Seq<char>,
    is_package: bool,
    dots: nat,
    rest: Option<Seq<char>>,
) -> Option<Seq<char>> {
    if dots == 0 {
        if present(rest) {
            rest
        } else {
            None
        }
    } else {
        let parts0 = if importer.len() == 0 {
            Seq::<Seq<char>>::empty()
        } else {
            split_dots(importer)
        };
        let parts1 = if !is_package && parts0.len() > 0 {
            parts0.drop_last()
        } else {
            parts0
        };
        let up = dots - 1;
        if up > parts1.len() {
            None
        } else {
            let parts2 = parts1.take(parts1.len() - up);
            let parts3 = if present(rest) {
                parts2 + split_dots(rest->0)
            } else {
                parts2
            };
            if parts3.len() == 0 {
                None
            } else {
                Some(join_dots(parts3))
            }
        }
    }
}

/// Law: one dot in a package's `__init__` names the package itself.
pub proof fn lemma_one_dot_in_package(importer: Seq<char>)
    requires
        importer.len() > 0,
    ensures
        relative_target(importer, true, 1, None) == Some(importer),
{
    let p = split_dots(importer);
    crate::text::lemma_split_nonempty(importer);
    crate::text::lemma_join_split(importer);
    assert(p.take(p.len() as int) =~= p);
}

/// Law: with no dots the module is what follows them, if anything.
pub proof fn lemma_no_dots(importer: Seq<char>, is_package: bool, rest: Option<Seq<char>>)
    ensures
        relative_target(importer, is_package, 0, rest) == (if present(rest) {
            rest
        } else {
            None
        }),
{
}

/// Law: going up past the top package names nothing.
pub proof fn lemma_above_top(importer: Seq<char>, is_package: bool, dots: nat, rest: Option<Seq<char>>)
    requires
        dots > 0,
        dots - 1 > (if importer.len() == 0 { 0 } else { split_dots(importer).len() }),
    ensures
        relative_target(importer, is_package, dots, rest) is None,
{
}

/// Joining two non-empty lists of parts is joining each and putting a dot
/// between.
proof fn lemma_join_append(a: Seq<Seq<char>>, b: Seq<Seq<char>>)
    requires
        a.len() >= 1,
        b.len() >= 1,
    ensures
        join_dots(a + b) == join_dots(a) + seq!['.'] + join_dots(b),
    decreases b.len(),
{
    let ab = a + b;
    if b.len() == 1 {
        assert(ab.drop_last() =~= a);
        assert(ab.last() == b[0]);
    } else {
        assert(ab.drop_last() =~= a + b.drop_last());
        lemma_join_append(a, b.drop_last());
        assert(join_dots(ab) =~= join_dots(a) + seq!['.'] + join_dots(b));
    }
}

/// Law (what follows the dots goes under what the dots name): with one dot
/// or more, a module after the dots is that module under what the dots
/// alone name; where the dots alone name nothing but do not go above the
/// top, it is that module alone.
pub proof fn lemma_rest_under_dots(importer: Seq<char>, is_package: bool, dots: nat, rest: Seq<char>)
    requires
        dots >= 1,
        rest.len() > 0,
    ensures
        relative_target(importer, is_package, dots, None) matches Some(b) ==> relative_target(
            importer,
            is_package,
            dots,
            Some(rest),
        ) == Some(b + seq!['.'] + rest),
        relative_target(importer, is_package, dots, Some(rest)) matches Some(x) ==> x == rest
            || relative_target(importer, is_package, dots, None) == Some(x.subrange(
            0,
            x.len() - rest.len() - 1,
        )),
        relative_target(importer, is_package, dots, None) is None ==> (relative_target(
            importer,
            is_package,
            dots,
            Some(rest),
        ) is None || relative_target(importer, is_package, dots, Some(rest)) == Some(rest)),
{
    crate::text::lemma_split_nonempty(rest);
    crate::text::lemma_join_split(rest);
    let parts0 = if importer.len() == 0 {
        Seq::<Seq<char>>::empty()
    } else {
        split_dots(importer)
    };
    let parts1 = if !is_package && parts0.len() > 0 {
        parts0.drop_last()
    } else {
        parts0
    };
    let up = dots - 1;
    if up <= parts1.len() {
        let parts2 = parts1.take(parts1.len() - up);
        if parts2.len() > 0 {
            lemma_join_append(parts2, split_dots(rest));
            let b = join_dots(parts2);
            let x = b + seq!['.'] + rest;
            assert(x.subrange(0, x.len() - rest.len() - 1) =~= b);
        } else {
            assert(parts2 + split_dots(rest) =~= split_dots(rest));
        }
    }
}

/// Law: in a package's `__init__`, `.name` is `name` under the package.
pub proof fn lemma_one_dot_name_in_package(importer: Seq<char>, rest: Seq<char>)
    requires
        importer.len() > 0,
        rest.len() > 0,
    ensures
        relative_target(importer, true, 1, Some(rest)) == Some(importer + seq!['.'] + rest),
{
    lemma_one_dot_in_package(importer);
    lemma_rest_under_dots(importer, true, 1, rest);
}

/// The view of an optional character slice.
pub open spec fn opt_chars(o: Option<&[char]>) -> Option<Seq<char>> {
    match o {
        Some(s) => Some(s@),
        None => None,
    }
}

/// [`resolve_relative`] on characters.
pub fn resolve_relative_chars(
    importer: &[char],
    is_package: bool,
    dots: usize,
    rest: Option<&[char]>,
) -> (r: Option<Vec<char>>)
    ensures
        match r {
            Some(v) => relative_target(importer@, is_package, dots as nat, opt_chars(rest))
                == Some(v@),
            None => relative_target(importer@, is_package, dots as nat, opt_chars(rest)) is None,
        },
{
    if dots == 0 {
        return match rest {
            Some(s) => if s.len() > 0 {
                Some(chars_prefix(s, s.len()))
            } else {
                None
            },
            None => None,
        };
    }
    let mut parts: Vec<Vec<char>> = if importer.len() == 0 {
        Vec::new()
    } else {
        split_on_dots(importer)
    };
    let ghost p0 = views_of(parts@);
    assert(importer.len() == 0 ==> p0 =~= Seq::<Seq<char>>::empty());
    if !is_package && parts.len() > 0 {
        parts.pop();
        assert(views_of(parts@) =~= p0.drop_last());
    }
    let ghost p1 = views_of(parts@);
    let up = dots - 1;
    if up > parts.len() {
        return None;
    }
    parts.truncate(parts.len() - up);
    let ghost p2 = views_of(parts@);
    assert(p2 =~= p1.take(p1.len() - up));
    if let Some(s) = rest {
        if s.len() > 0 {
            let mut more = split_on_dots(s);
            let ghost m = views_of(more@);
            parts.append(&mut more);
            assert(views_of(parts@) =~= p2 + m);
        }
    }
    if parts.len() == 0 {
        return None;
    }
    Some(join_with_dots(&parts))
}

/// The view of an optional string slice.
pub open spec fn opt_str(o: Option<&str>) -> Option<Seq<char>> {
    match o {
        Some(s) => Some(s@),
        None => None,
    }
}

/// Resolve a relative import to an absolute module path.
///
/// `dots` is the number of leading dots. One dot is the current package.
pub fn resolve_relative(
    importer_module: &str,
    is_package: bool,
    dots: usize,
    rest: Option<&str>,
) -> (r: Option<String>)
    ensures
        match r {
            Some(s) => relative_target(importer_module@, is_package, dots as nat, opt_str(rest))
                == Some(s@),
            None => relative_target(importer_module@, is_package, dots as nat, opt_str(rest)) is None,
        },
{
    let imp = chars_of(importer_module);
    let rest_chars: Option<Vec<char>> = match rest {
        Some(s) => Some(chars_of(s)),
        None => None,
    };
    let r = match &rest_chars {
        Some(v) => resolve_relative_chars(imp.as_slice(), is_package, dots, Some(v.as_slice())),
        None => resolve_relative_chars(imp.as_slice(), is_package, dots, None),
    };
    match r {
        Some(v) => Some(string_of(v.as_slice())),
        None => None,
    }
}

// ---------------------------------------------------------------------------
// What each kind of statement imports, over a listing of syntax nodes
// ---------------------------------------------------------------------------

/// The text of node `k`'s `name` child, if it has one.
pub open spec fn name_text(t: Seq<NodeView>, k: int) -> Seq<Seq<char>> {
    match field_child(t, k, "name"@) {
        Some(c) => seq![t[c].text],
        None => Seq::empty(),
    }
}

/// The modules named by the children of an `import` statement `i`, from
/// node `k` on: a `dotted_name` names its text, an `aliased_import` the text
/// of its `name`.
pub open spec fn statement_names_from(t: Seq<NodeView>, i: int, k: int) -> Seq<Seq<char>>
    decreases t.len() - k,
{
    if k < 0 || k >= t.len() || k >= subtree_end(t, i) {
        Seq::empty()
    } else {
        let here = if !one_below(t, i, k) {
            Seq::empty()
        } else if t[k].kind == "dotted_name"@ {
            seq![t[k].text]
        } else if t[k].kind == "aliased_import"@ {
            name_text(t, k)
        } else {
            Seq::empty()
        };
        here + statement_names_from(t, i, k + 1)
    }
}

/// What the `import` statement at node `i` imports; nothing when it names
/// no module.
pub open spec fn statement_import(t: Seq<NodeView>, i: int) -> Option<ImportView> {
    let names = statement_names_from(t, i, i + 1);
    if names.len() == 0 {
        None
    } else {
        Some(ImportView { modules: names, start: t[i].start, end: t[i].end })
    }
}

/// The names found from node `k` on include the one that child `c` gives.
proof fn lemma_statement_names_include(t: Seq<NodeView>, i: int, k: int, c: int)
    requires
        0 <= k <= c < t.len(),
        c < subtree_end(t, i),
        one_below(t, i, c),
    ensures
        t[c].kind == "dotted_name"@ ==> statement_names_from(t, i, k).contains(t[c].text),
        t[c].kind == "aliased_import"@ && name_text(t, c).len() > 0 ==> statement_names_from(
            t,
            i,
            k,
        ).contains(name_text(t, c)[0]),
    decreases c - k,
{
    reveal_strlit("dotted_name");
    reveal_strlit("aliased_import");
    assert("dotted_name"@.len() != "aliased_import"@.len());
    let names = statement_names_from(t, i, k);
    let here = if !one_below(t, i, k) {
        Seq::empty()
    } else if t[k].kind == "dotted_name"@ {
        seq![t[k].text]
    } else if t[k].kind == "aliased_import"@ {
        name_text(t, k)
    } else {
        Seq::empty()
    };
    let rest = statement_names_from(t, i, k + 1);
    assert(names == here + rest);
    if k == c {
        if t[c].kind == "dotted_name"@ {
            assert(names[0] == t[c].text);
        } else if t[c].kind == "aliased_import"@ && name_text(t, c).len() > 0 {
            assert(here == name_text(t, c));
            assert(names[0] == name_text(t, c)[0]);
            assert(names.contains(name_text(t, c)[0]));
        }
    } else {
        lemma_statement_names_include(t, i, k + 1, c);
        if t[c].kind == "dotted_name"@ {
            let j = choose|j: int| 0 <= j < rest.len() && rest[j] == t[c].text;
            assert(names[here.len() + j] == t[c].text);
        } else if t[c].kind == "aliased_import"@ && name_text(t, c).len() > 0 {
            let j = choose|j: int| 0 <= j < rest.len() && rest[j] == name_text(t, c)[0];
            assert(names[here.len() + j] == name_text(t, c)[0]);
            assert(names.contains(name_text(t, c)[0]));
        }
    }
}

/// Law (every module an `import` statement names is linted): each child
/// of the statement at node `i` that is a dotted name, and the name of each
/// child that is an aliased import, is among the modules it imports.
pub proof fn lemma_statement_imports_each_child(t: Seq<NodeView>, i: int, c: int)
    requires
        0 <= i < c < t.len(),
        c < subtree_end(t, i),
        one_below(t, i, c),
    ensures
        t[c].kind == "dotted_name"@ ==> (statement_import(t, i) matches Some(v)
            && v.modules.contains(t[c].text)),
        t[c].kind == "aliased_import"@ ==> (field_child(t, c, "name"@) matches Some(n)
            ==> (statement_import(t, i) matches Some(v) && v.modules.contains(t[n].text))),
{
    lemma_statement_names_include(t, i, i + 1, c);
    let names = statement_names_from(t, i, i + 1);
    if t[c].kind == "dotted_name"@ {
        assert(names.len() > 0);
    }
    if t[c].kind == "aliased_import"@ && field_child(t, c, "name"@) is Some {
        assert(name_text(t, c).len() > 0);
        assert(names.len() > 0);
    }
}

/// The names under an import list `c`, from node `k` on, and whether a `*`
/// is among them. Dotted names, aliased imports and wildcards are taken
/// whole; any other node is looked into.
pub open spec fn list_names_from(t: Seq<NodeView>, c: int, k: int) -> (bool, Seq<Seq<char>>)
    decreases t.len() - k,
{
    if k < 0 || k >= t.len() || k >= subtree_end(t, c) {
        (false, Seq::empty())
    } else {
        let next = subtree_end(t, k);
        proof {
            lemma_subtree_end(t, k);
        }
        if t[k].kind == "wildcard_import"@ {
            (true, list_names_from(t, c, next).1)
        } else if t[k].kind == "dotted_name"@ {
            let r = list_names_from(t, c, next);
            (r.0, seq![t[k].text] + r.1)
        } else if t[k].kind == "aliased_import"@ {
            let r = list_names_from(t, c, next);
            (r.0, name_text(t, k) + r.1)
        } else {
            list_names_from(t, c, k + 1)
        }
    }
}

/// What child `k` of a `from` statement `i`, whose module node is `m`,
/// contributes: whether it is a `*`, and the names it gives.
pub open spec fn from_child(t: Seq<NodeView>, i: int, m: int, k: int) -> (bool, Seq<Seq<char>>) {
    if !one_below(t, i, k) {
        (false, Seq::empty())
    } else {
        let kind = t[k].kind;
        let a = if kind == "wildcard_import"@ {
            (true, Seq::<Seq<char>>::empty())
        } else if kind == "dotted_name"@ {
            if k == m {
                (false, Seq::<Seq<char>>::empty())
            } else {
                (false, seq![t[k].text])
            }
        } else if kind == "aliased_import"@ {
            (false, name_text(t, k))
        } else if kind == "parenthesized_import_list"@ || kind == "import_list"@ {
            list_names_from(t, k, k + 1)
        } else {
            (false, Seq::<Seq<char>>::empty())
        };
        let b = if t[k].field == Some("name"@) {
            if kind == "aliased_import"@ {
                name_text(t, k)
            } else if kind != "wildcard_import"@ {
                seq![t[k].text]
            } else {
                Seq::<Seq<char>>::empty()
            }
        } else {
            Seq::<Seq<char>>::empty()
        };
        (a.0, a.1 + b)
    }
}

/// The names imported by the children of a `from` statement `i` from node
/// `k` on, and whether a `*` is among them.
pub open spec fn from_names_from(t: Seq<NodeView>, i: int, m: int, k: int) -> (bool, Seq<Seq<char>>)
    decreases t.len() - k,
{
    if k < 0 || k >= t.len() || k >= subtree_end(t, i) {
        (false, Seq::empty())
    } else {
        let h = from_child(t, i, m, k);
        let r = from_names_from(t, i, m, k + 1);
        (h.0 || r.0, h.1 + r.1)
    }
}

/// The number of dots that `s` starts with.
pub open spec fn leading_dots(s: Seq<char>) -> nat
    decreases s.len(),
{
    if s.len() > 0 && s[0] == '.' {
        1 + leading_dots(s.drop_first())
    } else {
        0
    }
}

/// The module that a relative module text (`..a.b`) names for an importer.
pub open spec fn relative_base(raw: Seq<char>, importer: Seq<char>, is_package: bool) -> Option<
    Seq<char>,
> {
    let d = leading_dots(raw);
    let rest = trim(raw.subrange(d as int, raw.len() as int));
    relative_target(importer, is_package, d, if rest.len() == 0 {
        None
    } else {
        Some(rest)
    })
}

/// The module that the module node `m` of a `from` statement names.
pub open spec fn module_base(t: Seq<NodeView>, m: int, importer: Seq<char>, is_package: bool) -> Option<
    Seq<char>,
> {
    let raw = t[m].text;
    if t[m].kind == "dotted_name"@ {
        Some(raw)
    } else if t[m].kind == "relative_import"@ {
        relative_base(raw, importer, is_package)
    } else if raw.len() > 0 && raw[0] == '.' {
        relative_base(raw, importer, is_package)
    } else if raw.len() == 0 {
        None
    } else {
        Some(raw)
    }
}

/// A name imported from `base`: `base.name`, or the name alone.
pub open spec fn compose(base: Option<Seq<char>>, name: Seq<char>) -> Seq<char> {
    match base {
        Some(b) => b + seq!['.'] + name,
        None => name,
    }
}

/// The modules a `from` statement is taken to import: its base module, and
/// unless it imports `*`, each imported name as a submodule of the base.
pub open spec fn from_candidates(base: Option<Seq<char>>, star: bool, names: Seq<Seq<char>>) -> Seq<
    Seq<char>,
> {
    let b = match base {
        Some(x) => seq![x],
        None => Seq::empty(),
    };
    if star {
        b
    } else {
        b + names.map_values(|n: Seq<char>| compose(base, n))
    }
}

/// `c` put into the increasing list `r`, unless it is there already.
pub open spec fn insert_sorted(r: Seq<Seq<char>>, c: Seq<char>) -> Seq<Seq<char>>
    decreases r.len(),
{
    if r.len() == 0 {
        seq![c]
    } else if precedes(r[0], c) {
        seq![r[0]] + insert_sorted(r.drop_first(), c)
    } else if r[0] == c {
        r
    } else {
        seq![c] + r
    }
}

/// The strings of `s` in increasing order, each once.
pub open spec fn sorted_set(s: Seq<Seq<char>>) -> Seq<Seq<char>>
    decreases s.len(),
{
    if s.len() == 0 {
        Seq::empty()
    } else {
        insert_sorted(sorted_set(s.drop_last()), s.last())
    }
}

proof fn lemma_insert_sorted(r: Seq<Seq<char>>, c: Seq<char>)
    requires
        strictly_sorted(r),
    ensures
        strictly_sorted(insert_sorted(r, c)),
        forall|x: Seq<char>| #[trigger] insert_sorted(r, c).contains(x) <==> r.contains(x) || x == c,
        r.len() > 0 && precedes(r[0], c) ==> insert_sorted(r, c)[0] == r[0],
    decreases r.len(),
{
    let ins = insert_sorted(r, c);
    if r.len() == 0 {
        assert(seq![c][0] == c);
    } else if precedes(r[0], c) {
        let rest = r.drop_first();
        assert(strictly_sorted(rest));
        lemma_insert_sorted(rest, c);
        let tail = insert_sorted(rest, c);
        assert(ins =~= seq![r[0]] + tail);
        assert forall|x: Seq<char>| ins.contains(x) <==> r.contains(x) || x == c by {
            if ins.contains(x) {
                let k = choose|k: int| 0 <= k < ins.len() && ins[k] == x;
                if k > 0 {
                    assert(tail[k - 1] == x);
                    assert(tail.contains(x));
                    if rest.contains(x) {
                        let l = choose|l: int| 0 <= l < rest.len() && rest[l] == x;
                        assert(r[l + 1] == x);
                    }
                } else {
                    assert(r[0] == x);
                }
            }
            if r.contains(x) {
                let k = choose|k: int| 0 <= k < r.len() && r[k] == x;
                if k == 0 {
                    assert(ins[0] == x);
                } else {
                    assert(rest[k - 1] == x);
                    assert(rest.contains(x));
                    assert(tail.contains(x));
                    let l = choose|l: int| 0 <= l < tail.len() && tail[l] == x;
                    assert(ins[l + 1] == x);
                }
            }
            if x == c {
                assert(tail.contains(c));
                let l = choose|l: int| 0 <= l < tail.len() && tail[l] == c;
                assert(ins[l + 1] == x);
            }
        }
        assert forall|a: int, b: int| 0 <= a < b < ins.len() implies precedes(ins[a], ins[b]) by {
            if a > 0 {
                assert(ins[a] == tail[a - 1] && ins[b] == tail[b - 1]);
            } else {
                assert(tail.contains(ins[b])) by {
                    assert(tail[b - 1] == ins[b]);
                }
                let y = ins[b];
                if y == c {
                } else {
                    assert(rest.contains(y));
                    let l = choose|l: int| 0 <= l < rest.len() && rest[l] == y;
                    assert(r[l + 1] == y);
                }
            }
        }
    } else if r[0] == c {
        assert(r.contains(r[0]));
    } else {
        crate::text::lemma_precedes_total(r[0], c);
        assert(ins =~= seq![c] + r);
        assert forall|x: Seq<char>| ins.contains(x) <==> r.contains(x) || x == c by {
            if ins.contains(x) {
                let k = choose|k: int| 0 <= k < ins.len() && ins[k] == x;
                if k > 0 {
                    assert(r[k - 1] == x);
                }
            }
            if r.contains(x) {
                let k = choose|k: int| 0 <= k < r.len() && r[k] == x;
                assert(ins[k + 1] == x);
            }
            if x == c {
                assert(ins[0] == c);
            }
        }
        assert forall|a: int, b: int| 0 <= a < b < ins.len() implies precedes(ins[a], ins[b]) by {
            if a > 0 {
                assert(ins[a] == r[a - 1] && ins[b] == r[b - 1]);
            } else if b > 1 {
                assert(ins[b] == r[b - 1]);
                lemma_precedes_transitive(c, r[0], r[b - 1]);
            }
        }
    }
}

/// Law: the modules of an import are in increasing order, each once, and
/// are exactly the candidates.
pub proof fn lemma_sorted_set(s: Seq<Seq<char>>)
    ensures
        strictly_sorted(sorted_set(s)),
        forall|x: Seq<char>| sorted_set(s).contains(x) <==> s.contains(x),
    decreases s.len(),
{
    if s.len() > 0 {
        let p = s.drop_last();
        lemma_sorted_set(p);
        lemma_insert_sorted(sorted_set(p), s.last());
        assert forall|x: Seq<char>| sorted_set(s).contains(x) <==> s.contains(x) by {
            if p.contains(x) {
                let k = choose|k: int| 0 <= k < p.len() && p[k] == x;
                assert(s[k] == x);
            }
            if s.contains(x) {
                let k = choose|k: int| 0 <= k < s.len() && s[k] == x;
                if k < s.len() - 1 {
                    assert(p[k] == x);
                }
            }
        }
    } else {
        assert(sorted_set(s) =~= Seq::<Seq<char>>::empty());
    }
}

/// Two increasing lists with the same strings are the same list.
pub proof fn lemma_sorted_unique(a: Seq<Seq<char>>, b: Seq<Seq<char>>)
    requires
        strictly_sorted(a),
        strictly_sorted(b),
        forall|x: Seq<char>| a.contains(x) <==> b.contains(x),
    ensures
        a == b,
    decreases a.len(),
{
    if a.len() == 0 {
        if b.len() > 0 {
            assert(b.contains(b[0]));
        }
        assert(a =~= b);
    } else {
        assert(a.contains(a[0]));
        assert(b.len() > 0);
        assert(b.contains(b[0]));
        let j = choose|j: int| 0 <= j < b.len() && b[j] == a[0];
        let i = choose|i: int| 0 <= i < a.len() && a[i] == b[0];
        if a[0] != b[0] {
            assert(j > 0 && i > 0);
            assert(precedes(b[0], a[0]));
            assert(precedes(a[0], b[0]));
            lemma_precedes_transitive(a[0], b[0], a[0]);
            lemma_precedes_irreflexive(a[0]);
        }
        let a1 = a.drop_first();
        let b1 = b.drop_first();
        assert forall|x: Seq<char>| a1.contains(x) <==> b1.contains(x) by {
            if a1.contains(x) {
                let k = choose|k: int| 0 <= k < a1.len() && a1[k] == x;
                assert(a[k + 1] == x);
                assert(precedes(a[0], x));
                if x == a[0] {
                    lemma_precedes_irreflexive(x);
                }
                assert(b.contains(x));
                let l = choose|l: int| 0 <= l < b.len() && b[l] == x;
                assert(l != 0);
                assert(b1[l - 1] == x);
            }
            if b1.contains(x) {
                let k = choose|k: int| 0 <= k < b1.len() && b1[k] == x;
                assert(b[k + 1] == x);
                assert(precedes(b[0], x));
                if x == b[0] {
                    lemma_precedes_irreflexive(x);
                }
                assert(a.contains(x));
                let l = choose|l: int| 0 <= l < a.len() && a[l] == x;
                assert(l != 0);
                assert(a1[l - 1] == x);
            }
        }
        lemma_sorted_unique(a1, b1);
        assert(a =~= seq![a[0]] + a1);
        assert(b =~= seq![b[0]] + b1);
    }
}

/// What the `from` statement at node `i` imports.
pub open spec fn from_import(t: Seq<NodeView>, i: int, importer: Seq<char>, is_package: bool) -> Option<
    ImportView,
> {
    match field_child(t, i, "module_name"@) {
        None => None,
        Some(m) => {
            let base = module_base(t, m, importer, is_package);
            let names = from_names_from(t, i, m, i + 1);
            let cands = from_candidates(base, names.0, names.1);
            if cands.len() == 0 {
                None
            } else {
                Some(ImportView { modules: sorted_set(cands), start: t[i].start, end: t[i].end })
            }
        },
    }
}

/// Law (from-imports are read conservatively): the modules of a `from`
/// statement are in increasing order, each once, and are its base module and,
/// unless it imports `*`, each imported name under the base.
pub proof fn lemma_from_import_modules(t: Seq<NodeView>, i: int, importer: Seq<char>, is_package: bool)
    requires
        from_import(t, i, importer, is_package) is Some,
    ensures
        ({
            let m = field_child(t, i, "module_name"@)->0;
            let base = module_base(t, m, importer, is_package);
            let names = from_names_from(t, i, m, i + 1);
            let mods = from_import(t, i, importer, is_package)->0.modules;
            &&& strictly_sorted(mods)
            &&& forall|x: Seq<char>| mods.contains(x) <==> from_candidates(base, names.0, names.1).contains(x)
        }),
{
    let m = field_child(t, i, "module_name"@)->0;
    let base = module_base(t, m, importer, is_package);
    let names = from_names_from(t, i, m, i + 1);
    lemma_sorted_set(from_candidates(base, names.0, names.1));
}

/// A `*` under an import list from node `k` on stands at some node from
/// `k` on within the list.
proof fn lemma_list_star(t: Seq<NodeView>, c: int, k: int)
    ensures
        list_names_from(t, c, k).0 ==> exists|j: int|
            k <= j < subtree_end(t, c) && j < t.len() && #[trigger] t[j].kind == "wildcard_import"@,
    decreases t.len() - k,
{
    if !(k < 0 || k >= t.len() || k >= subtree_end(t, c)) {
        lemma_subtree_end(t, k);
        let next = subtree_end(t, k);
        if t[k].kind == "wildcard_import"@ {
        } else if t[k].kind == "dotted_name"@ || t[k].kind == "aliased_import"@ {
            lemma_list_star(t, c, next);
        } else {
            lemma_list_star(t, c, k + 1);
        }
    }
}

/// A `from` statement with no `*` anywhere in it imports no `*`.
proof fn lemma_from_no_star(t: Seq<NodeView>, i: int, m: int, k: int)
    requires
        0 <= i < t.len(),
        i < k,
        forall|j: int| i < j < subtree_end(t, i) ==> #[trigger] t[j].kind != "wildcard_import"@,
    ensures
        !from_names_from(t, i, m, k).0,
    decreases t.len() - k,
{
    lemma_subtree_end(t, i);
    if !(k < 0 || k >= t.len() || k >= subtree_end(t, i)) {
        lemma_from_no_star(t, i, m, k + 1);
        let kind = t[k].kind;
        if one_below(t, i, k) && (kind == "parenthesized_import_list"@ || kind == "import_list"@) {
            lemma_list_star(t, k, k + 1);
            lemma_nested_subtree(t, i, k);
            if list_names_from(t, k, k + 1).0 {
                let j = choose|j: int|
                    k + 1 <= j < subtree_end(t, k) && j < t.len() && #[trigger] t[j].kind
                        == "wildcard_import"@;
                assert(t[j].kind != "wildcard_import"@);
            }
        }
    }
}

/// The names found from node `k` on include those that child `c` gives.
proof fn lemma_from_names_include(t: Seq<NodeView>, i: int, m: int, k: int, c: int, x: Seq<char>)
    requires
        0 <= k <= c < t.len(),
        c < subtree_end(t, i),
        from_child(t, i, m, c).1.contains(x),
    ensures
        from_names_from(t, i, m, k).1.contains(x),
    decreases c - k,
{
    let h = from_child(t, i, m, k);
    let r = from_names_from(t, i, m, k + 1);
    assert(from_names_from(t, i, m, k).1 == h.1 + r.1);
    if k == c {
        let j = choose|j: int| 0 <= j < h.1.len() && h.1[j] == x;
        assert((h.1 + r.1)[j] == x);
    } else {
        lemma_from_names_include(t, i, m, k + 1, c, x);
        let j = choose|j: int| 0 <= j < r.1.len() && r.1[j] == x;
        assert((h.1 + r.1)[h.1.len() + j] == x);
    }
}

/// Law (every name a `from` statement imports is linted): in a `from`
/// statement with no `*`, each imported name, plain or aliased, is among
/// the modules it imports, as a submodule of the statement's base module.
pub proof fn lemma_from_imports_each_name(
    t: Seq<NodeView>,
    i: int,
    importer: Seq<char>,
    is_package: bool,
    c: int,
)
    requires
        0 <= i < c < t.len(),
        c < subtree_end(t, i),
        one_below(t, i, c),
        field_child(t, i, "module_name"@) matches Some(m) && m != c,
        forall|j: int| i < j < subtree_end(t, i) ==> #[trigger] t[j].kind != "wildcard_import"@,
    ensures
        ({
            let m = field_child(t, i, "module_name"@)->0;
            let base = module_base(t, m, importer, is_package);
            &&& t[c].kind == "dotted_name"@ ==> (from_import(t, i, importer, is_package) matches Some(v)
                && v.modules.contains(compose(base, t[c].text)))
            &&& t[c].kind == "aliased_import"@ ==> (field_child(t, c, "name"@) matches Some(n) ==> (
            from_import(t, i, importer, is_package) matches Some(v) && v.modules.contains(
                compose(base, t[n].text),
            )))
        }),
{
    reveal_strlit("dotted_name");
    reveal_strlit("aliased_import");
    reveal_strlit("wildcard_import");
    reveal_strlit("parenthesized_import_list");
    reveal_strlit("import_list");
    assert("dotted_name"@.len() != "aliased_import"@.len());
    let m = field_child(t, i, "module_name"@)->0;
    let base = module_base(t, m, importer, is_package);
    let names = from_names_from(t, i, m, i + 1);
    lemma_from_no_star(t, i, m, i + 1);
    let h = from_child(t, i, m, c);
    let x = if t[c].kind == "dotted_name"@ {
        t[c].text
    } else {
        t[field_child(t, c, "name"@)->0].text
    };
    if t[c].kind == "dotted_name"@ || (t[c].kind == "aliased_import"@ && field_child(t, c, "name"@) is Some) {
        assert(h.1[0] == x);
        assert(h.1.contains(x));
        lemma_from_names_include(t, i, m, i + 1, c, x);
        let j = choose|j: int| 0 <= j < names.1.len() && names.1[j] == x;
        let cands = from_candidates(base, false, names.1);
        let b = match base {
            Some(y) => seq![y],
            None => Seq::<Seq<char>>::empty(),
        };
        assert(cands[b.len() + j] == compose(base, x));
        assert(cands.contains(compose(base, x)));
        lemma_sorted_set(cands);
        assert(!names.0);
        assert(from_candidates(base, names.0, names.1) == cands);
        assert(cands.len() > 0);
        let v = from_import(t, i, importer, is_package)->0;
        assert(from_import(t, i, importer, is_package) is Some);
        assert(v.modules == sorted_set(cands));
        assert(sorted_set(cands).contains(compose(base, x)));
    }
}

/// The list holding the value, if there is one.
pub open spec fn opt_seq<A>(o: Option<A>) -> Seq<A> {
    match o {
        Some(x) => seq![x],
        None => Seq::empty(),
    }
}

/// The imports found from node `k` on: an import statement is read and not
/// looked into; any other node is looked into.
pub open spec fn imports_from(t: Seq<NodeView>, k: int, importer: Seq<char>, is_package: bool) -> Seq<
    ImportView,
>
    decreases t.len() - k,
{
    if k < 0 || k >= t.len() {
        Seq::empty()
    } else {
        proof {
            lemma_subtree_end(t, k);
        }
        if t[k].kind == "import_statement"@ {
            opt_seq(statement_import(t, k)) + imports_from(t, subtree_end(t, k), importer, is_package)
        } else if t[k].kind == "import_from_statement"@ {
            opt_seq(from_import(t, k, importer, is_package)) + imports_from(
                t,
                subtree_end(t, k),
                importer,
                is_package,
            )
        } else {
            imports_from(t, k + 1, importer, is_package)
        }
    }
}

/// Every import statement of a syntax tree, in source order, nested ones
/// included, as the module `importer` sees it.
pub open spec fn tree_imports(t: Seq<NodeView>, importer: Seq<char>, is_package: bool) -> Seq<
    ImportView,
> {
    imports_from(t, 0, importer, is_package)
}

// ---------------------------------------------------------------------------
// Reading the statements
// ---------------------------------------------------------------------------

/// The text of node `k`'s `name` child, if it has one.
fn name_text_at(nodes: &Vec<SyntaxNode>, k: usize) -> (r: Vec<Vec<char>>)
    requires
        k < nodes.len(),
    ensures
        views_of(r@) == name_text(node_views(nodes@), k as int),
{
    let mut r: Vec<Vec<char>> = Vec::new();
    match field_child_of(nodes, k, "name") {
        Some(c) => {
            r.push(chars_of(nodes[c].text.as_str()));
            assert(views_of(r@) =~= seq![node_views(nodes@)[c as int].text]);
        },
        None => {
            assert(views_of(r@) =~= Seq::<Seq<char>>::empty());
        },
    }
    r
}

/// Whether node `k` is of the given kind.
fn kind_is(nodes: &Vec<SyntaxNode>, k: usize, kind: &str) -> (r: bool)
    requires
        k < nodes.len(),
    ensures
        r == (node_views(nodes@)[k as int].kind == kind@),
{
    text_is(nodes[k].kind.as_str(), kind)
}

/// Parse an `import` statement at node `i`.
fn parse_import_statement(nodes: &Vec<SyntaxNode>, i: usize) -> (r: Option<Import>)
    requires
        i < nodes.len(),
    ensures
        match r {
            Some(imp) => statement_import(node_views(nodes@), i as int) == Some(imp@),
            None => statement_import(node_views(nodes@), i as int) is None,
        },
{
    let ghost t = node_views(nodes@);
    let end = subtree_end_of(nodes, i);
    let d = nodes[i].depth;
    let mut names: Vec<Vec<char>> = Vec::new();
    let mut k: usize = i + 1;
    while k < end
        invariant
            i < k <= end <= nodes.len(),
            t == node_views(nodes@),
            end == subtree_end(t, i as int),
            d == t[i as int].depth,
            views_of(names@) + statement_names_from(t, i as int, k as int) == statement_names_from(
                t,
                i as int,
                i + 1,
            ),
        decreases end - k,
    {
        let ghost before = views_of(names@);
        if nodes[k].depth == d + 1 {
            if kind_is(nodes, k, "dotted_name") {
                names.push(chars_of(nodes[k].text.as_str()));
                assert(views_of(names@) =~= before + seq![t[k as int].text]);
            } else if kind_is(nodes, k, "aliased_import") {
                let mut more = name_text_at(nodes, k);
                names.append(&mut more);
                assert(views_of(names@) =~= before + name_text(t, k as int));
            }
        }
        k = k + 1;
        assert(views_of(names@) + statement_names_from(t, i as int, k as int) =~= before
            + statement_names_from(t, i as int, k - 1));
    }
    assert(views_of(names@) =~= statement_names_from(t, i as int, i + 1));
    if names.len() == 0 {
        return None;
    }
    let modules = strings_of(&names);
    Some(Import { modules, start: nodes[i].start, end: nodes[i].end })
}

/// Collect the names under an import list `c`.
fn collect_imported_names(nodes: &Vec<SyntaxNode>, c: usize) -> (r: (bool, Vec<Vec<char>>))
    requires
        c < nodes.len(),
    ensures
        list_names_from(node_views(nodes@), c as int, c + 1) == (r.0, views_of(r.1@)),
{
    let ghost t = node_views(nodes@);
    let end = subtree_end_of(nodes, c);
    let mut star = false;
    let mut names: Vec<Vec<char>> = Vec::new();
    let mut k: usize = c + 1;
    while k < end
        invariant
            c < k <= end <= nodes.len(),
            t == node_views(nodes@),
            end == subtree_end(t, c as int),
            list_names_from(t, c as int, c + 1) == (
                star || list_names_from(t, c as int, k as int).0,
                views_of(names@) + list_names_from(t, c as int, k as int).1,
            ),
        decreases end - k,
    {
        let ghost before = views_of(names@);
        let ghost rest = list_names_from(t, c as int, k as int);
        proof {
            lemma_subtree_end(t, k as int);
            lemma_subtree_end(t, c as int);
            lemma_nested_subtree(t, c as int, k as int);
        }
        if kind_is(nodes, k, "wildcard_import") {
            star = true;
            k = subtree_end_of(nodes, k);
        } else if kind_is(nodes, k, "dotted_name") {
            names.push(chars_of(nodes[k].text.as_str()));
            assert(views_of(names@) =~= before + seq![t[k as int].text]);
            k = subtree_end_of(nodes, k);
        } else if kind_is(nodes, k, "aliased_import") {
            let mut more = name_text_at(nodes, k);
            names.append(&mut more);
            assert(views_of(names@) =~= before + name_text(t, k as int));
            k = subtree_end_of(nodes, k);
        } else {
            k = k + 1;
        }
        assert(views_of(names@) + list_names_from(t, c as int, k as int).1 =~= before + rest.1);
    }
    assert(list_names_from(t, c as int, k as int).1 =~= Seq::<Seq<char>>::empty());
    assert(views_of(names@) =~= views_of(names@) + Seq::<Seq<char>>::empty());
    (star, names)
}

proof fn lemma_leading_dots(s: Seq<char>)
    ensures
        leading_dots(s) <= s.len(),
    decreases s.len(),
{
    if s.len() > 0 && s[0] == '.' {
        lemma_leading_dots(s.drop_first());
    }
}

/// The module that a relative module text names for an importer.
fn relative_base_chars(raw: &Vec<char>, importer: &[char], is_package: bool) -> (r: Option<
    Vec<char>,
>)
    ensures
        match r {
            Some(v) => relative_base(raw@, importer@, is_package) == Some(v@),
            None => relative_base(raw@, importer@, is_package) is None,
        },
{
    let mut d: usize = 0;
    assert(raw@.subrange(0, raw@.len() as int) =~= raw@);
    while d < raw.len() && raw[d] == '.'
        invariant
            d <= raw.len(),
            leading_dots(raw@) == d + leading_dots(raw@.subrange(d as int, raw@.len() as int)),
        decreases raw.len() - d,
    {
        assert(raw@.subrange(d as int, raw@.len() as int).drop_first() =~= raw@.subrange(
            d + 1,
            raw@.len() as int,
        ));
        d = d + 1;
    }
    assert(leading_dots(raw@.subrange(d as int, raw@.len() as int)) == 0);
    let tail = raw.as_slice().split_at(d).1;
    assert(tail@ =~= raw@.subrange(d as int, raw@.len() as int));
    let rest = trim_chars(tail);
    if rest.len() == 0 {
        resolve_relative_chars(importer, is_package, d, None)
    } else {
        resolve_relative_chars(importer, is_package, d, Some(rest.as_slice()))
    }
}

/// The view of an optional character list.
pub open spec fn opt_vec(o: Option<Vec<char>>) -> Option<Seq<char>> {
    match o {
        Some(v) => Some(v@),
        None => None,
    }
}

/// Resolve the module node `m` of a `from` statement to its module.
fn resolve_from_module(nodes: &Vec<SyntaxNode>, m: usize, importer: &[char], is_package: bool) -> (r:
    Option<Vec<char>>)
    requires
        m < nodes.len(),
    ensures
        opt_vec(r) == module_base(node_views(nodes@), m as int, importer@, is_package),
{
    let raw = chars_of(nodes[m].text.as_str());
    if kind_is(nodes, m, "dotted_name") {
        Some(raw)
    } else if kind_is(nodes, m, "relative_import") {
        relative_base_chars(&raw, importer, is_package)
    } else if raw.len() > 0 && raw[0] == '.' {
        relative_base_chars(&raw, importer, is_package)
    } else if raw.len() == 0 {
        None
    } else {
        Some(raw)
    }
}

/// What child `k` of the `from` statement `i` contributes.
fn from_child_at(nodes: &Vec<SyntaxNode>, i: usize, m: usize, k: usize) -> (r: (bool, Vec<Vec<char>>))
    requires
        i < nodes.len(),
        k < nodes.len(),
    ensures
        from_child(node_views(nodes@), i as int, m as int, k as int) == (r.0, views_of(r.1@)),
{
    let ghost t = node_views(nodes@);
    let mut names: Vec<Vec<char>> = Vec::new();
    if !(nodes[k].depth > 0 && nodes[k].depth - 1 == nodes[i].depth) {
        assert(views_of(names@) =~= Seq::<Seq<char>>::empty());
        return (false, names);
    }
    let mut star = false;
    let wildcard = kind_is(nodes, k, "wildcard_import");
    let aliased = kind_is(nodes, k, "aliased_import");
    if wildcard {
        star = true;
    } else if kind_is(nodes, k, "dotted_name") {
        if k != m {
            names.push(chars_of(nodes[k].text.as_str()));
        }
    } else if aliased {
        names = name_text_at(nodes, k);
    } else if kind_is(nodes, k, "parenthesized_import_list") || kind_is(nodes, k, "import_list") {
        let (s, n) = collect_imported_names(nodes, k);
        star = s;
        names = n;
    }
    let ghost a = views_of(names@);
    let named = match &nodes[k].field {
        Some(f) => text_is(f.as_str(), "name"),
        None => false,
    };
    assert(named == (t[k as int].field == Some("name"@)));
    if named {
        if aliased {
            let mut more = name_text_at(nodes, k);
            names.append(&mut more);
            assert(views_of(names@) =~= a + name_text(t, k as int));
        } else if !wildcard {
            names.push(chars_of(nodes[k].text.as_str()));
            assert(views_of(names@) =~= a + seq![t[k as int].text]);
        } else {
            assert(views_of(names@) =~= a + Seq::<Seq<char>>::empty());
        }
    } else {
        assert(views_of(names@) =~= a + Seq::<Seq<char>>::empty());
    }
    (star, names)
}

/// The names imported by the children of the `from` statement `i`.
fn from_names(nodes: &Vec<SyntaxNode>, i: usize, m: usize) -> (r: (bool, Vec<Vec<char>>))
    requires
        i < nodes.len(),
    ensures
        from_names_from(node_views(nodes@), i as int, m as int, i + 1) == (r.0, views_of(r.1@)),
{
    let ghost t = node_views(nodes@);
    let end = subtree_end_of(nodes, i);
    let mut star = false;
    let mut names: Vec<Vec<char>> = Vec::new();
    let mut k: usize = i + 1;
    while k < end
        invariant
            i < k <= end <= nodes.len(),
            t == node_views(nodes@),
            end == subtree_end(t, i as int),
            from_names_from(t, i as int, m as int, i + 1) == (
                star || from_names_from(t, i as int, m as int, k as int).0,
                views_of(names@) + from_names_from(t, i as int, m as int, k as int).1,
            ),
        decreases end - k,
    {
        let ghost before = views_of(names@);
        let ghost rest = from_names_from(t, i as int, m as int, k as int);
        let (s, mut more) = from_child_at(nodes, i, m, k);
        let ghost h = views_of(more@);
        star = star || s;
        names.append(&mut more);
        assert(views_of(names@) =~= before + h);
        k = k + 1;
        assert(views_of(names@) + from_names_from(t, i as int, m as int, k as int).1 =~= before
            + rest.1);
    }
    assert(from_names_from(t, i as int, m as int, k as int).1 =~= Seq::<Seq<char>>::empty());
    assert(views_of(names@) =~= views_of(names@) + Seq::<Seq<char>>::empty());
    (star, names)
}

/// `name` as a submodule of `base`, or the name alone.
fn compose_name(base: &Option<Vec<char>>, name: &Vec<char>) -> (r: Vec<char>)
    ensures
        r@ == compose(opt_vec(*base), name@),
{
    match base {
        Some(b) => {
            let mut r = chars_prefix(b.as_slice(), b.len());
            r.push('.');
            let mut i: usize = 0;
            let ghost start = r@;
            while i < name.len()
                invariant
                    i <= name.len(),
                    r@ == start + name@.subrange(0, i as int),
                decreases name.len() - i,
            {
                r.push(name[i]);
                i = i + 1;
                assert(r@ =~= start + name@.subrange(0, i as int));
            }
            assert(b@.subrange(0, b@.len() as int) =~= b@);
            assert(name@.subrange(0, name@.len() as int) =~= name@);
            r
        },
        None => chars_prefix(name.as_slice(), name.len()),
    }
}

/// The modules a `from` statement is taken to import, before ordering.
fn candidates(base: &Option<Vec<char>>, star: bool, names: &Vec<Vec<char>>) -> (r: Vec<Vec<char>>)
    ensures
        views_of(r@) == from_candidates(opt_vec(*base), star, views_of(names@)),
{
    let mut r: Vec<Vec<char>> = Vec::new();
    if let Some(b) = base {
        r.push(chars_prefix(b.as_slice(), b.len()));
        assert(b@.subrange(0, b@.len() as int) =~= b@);
    }
    let ghost b = views_of(r@);
    assert(b =~= (match opt_vec(*base) {
        Some(x) => seq![x],
        None => Seq::<Seq<char>>::empty(),
    }));
    if star {
        return r;
    }
    let ghost composed = views_of(names@).map_values(|n: Seq<char>| compose(opt_vec(*base), n));
    let mut i: usize = 0;
    while i < names.len()
        invariant
            i <= names.len(),
            views_of(r@) == b + composed.take(i as int),
            r.len() == b.len() + i,
            composed == views_of(names@).map_values(|n: Seq<char>| compose(opt_vec(*base), n)),
        decreases names.len() - i,
    {
        let c = compose_name(base, &names[i]);
        assert(views_of(names@)[i as int] == names[i as int]@);
        assert(composed[i as int] == c@);
        let ghost prev = views_of(r@);
        r.push(c);
        assert(views_of(r@) =~= prev.push(composed[i as int]));
        assert(composed.take(i + 1) =~= composed.take(i as int).push(composed[i as int]));
        i = i + 1;
        assert(views_of(r@) =~= b + composed.take(i as int));
    }
    assert(composed.take(names.len() as int) =~= composed);
    r
}

/// Parse a `from ... import` statement at node `i`.
fn parse_import_from(nodes: &Vec<SyntaxNode>, i: usize, importer: &[char], is_package: bool) -> (r:
    Option<Import>)
    requires
        i < nodes.len(),
    ensures
        match r {
            Some(imp) => from_import(node_views(nodes@), i as int, importer@, is_package) == Some(
                imp@,
            ),
            None => from_import(node_views(nodes@), i as int, importer@, is_package) is None,
        },
{
    let ghost t = node_views(nodes@);
    let m = match field_child_of(nodes, i, "module_name") {
        Some(m) => m,
        None => return None,
    };
    let base = resolve_from_module(nodes, m, importer, is_package);
    let (star, names) = from_names(nodes, i, m);
    let cands = candidates(&base, star, &names);
    if cands.len() == 0 {
        return None;
    }
    let ghost cv = views_of(cands@);
    let sorted = sorted_unique(cands);
    proof {
        let sv = views_of(sorted@);
        assert(strictly_sorted(sv) && forall|x: Seq<char>| sv.contains(x) <==> cv.contains(x));
        let chosen = sorted_set(cv);
        lemma_sorted_set(cv);
        lemma_sorted_unique(sv, chosen);
    }
    let modules = strings_of(&sorted);
    Some(Import { modules, start: nodes[i].start, end: nodes[i].end })
}

/// Every import statement in a listing of syntax nodes, in order, nested ones
/// included, as seen from the module `importer`.
pub fn imports_in_tree(nodes: &Vec<SyntaxNode>, importer: &str, is_package: bool) -> (r: Vec<Import>)
    ensures
        imports_view(r@) == tree_imports(node_views(nodes@), importer@, is_package),
{
    let ghost t = node_views(nodes@);
    let imp = chars_of(importer);
    let mut out: Vec<Import> = Vec::new();
    let mut k: usize = 0;
    while k < nodes.len()
        invariant
            k <= nodes.len(),
            t == node_views(nodes@),
            imp@ == importer@,
            imports_view(out@) + imports_from(t, k as int, importer@, is_package) == imports_from(
                t,
                0,
                importer@,
                is_package,
            ),
        decreases nodes.len() - k,
    {
        let ghost before = imports_view(out@);
        let ghost rest = imports_from(t, k as int, importer@, is_package);
        proof {
            lemma_subtree_end(t, k as int);
        }
        if kind_is(nodes, k, "import_statement") {
            let found = parse_import_statement(nodes, k);
            if let Some(x) = found {
                out.push(x);
            }
            assert(imports_view(out@) =~= before + opt_seq(statement_import(t, k as int)));
            k = subtree_end_of(nodes, k);
        } else if kind_is(nodes, k, "import_from_statement") {
            let found = parse_import_from(nodes, k, imp.as_slice(), is_package);
            if let Some(x) = found {
                out.push(x);
            }
            assert(imports_view(out@) =~= before + opt_seq(
                from_import(t, k as int, importer@, is_package),
            ));
            k = subtree_end_of(nodes, k);
        } else {
            k = k + 1;
        }
        assert(imports_view(out@) + imports_from(t, k as int, importer@, is_package) =~= before
            + rest);
    }
    assert(imports_view(out@) =~= imports_view(out@) + Seq::<ImportView>::empty());
    out
}

/// The imports of a source file: those of its syntax tree when tree-sitter
/// gives one, none otherwise.
pub open spec fn source_imports(source: Seq<char>, file: Seq<Seq<char>>, importer: Seq<char>) -> Seq<
    ImportView,
> {
    if python_parses(source) {
        tree_imports(python_listing(source), importer, package_file(file))
    } else {
        Seq::empty()
    }
}

/// Extract every static `import` / `from ... import`, including nested ones.
pub fn extract_imports(source: &str, file: &Vec<String>, importer_module: &str) -> (r: Vec<Import>)
    ensures
        imports_view(r@) == source_imports(source@, strings_view(file@), importer_module@),
{
    let nodes = match syntax_nodes(source) {
        Some(n) => n,
        None => {
            let r: Vec<Import> = Vec::new();
            assert(imports_view(r@) =~= Seq::<ImportView>::empty());
            return r;
        },
    };
    let is_package = is_package_file(file);
    imports_in_tree(&nodes, importer_module, is_package)
}

} // verus!
