//! From file paths to dotted module paths.
//!
//! A path is given by its components, in order, each as text: `"/"` for the
//! root, `"."` and `".."` for the current and parent directory, and the name
//! of anything else. The paths handed in are the normalized ones: resolving
//! a path against the file system is the caller's part.
use vstd::prelude::*;

use crate::text::{
    chars_end_with, chars_of, chars_prefix, ends_with, join_dots, join_with_dots, string_of,
    strings_view, text_is, views_of,
};

verus! {

/// A path's final component when it names a file or directory
/// (`Path::file_name`): not the root, `.` or `..`.
pub open spec fn file_name(p: Seq<Seq<char>>) -> Option<Seq<char>> {
    if p.len() == 0 {
        None
    } else if p.last() == "/"@ || p.last() == "."@ || p.last() == ".."@ {
        None
    } else {
        Some(p.last())
    }
}

/// The final component of a path, if it names a file or directory.
pub fn file_name_of(p: &Vec<String>) -> (r: Option<&String>)
    ensures
        match r {
            Some(s) => file_name(strings_view(p@)) == Some(s@),
            None => file_name(strings_view(p@)) is None,
        },
{
    if p.len() == 0 {
        return None;
    }
    let last = &p[p.len() - 1];
    assert(strings_view(p@).last() == last@);
    if text_is(last.as_str(), "/") || text_is(last.as_str(), ".") || text_is(last.as_str(), "..") {
        None
    } else {
        Some(last)
    }
}

/// True when this file is a package (`__init__.py` / `__init__.pyi`).
pub open spec fn package_file(p: Seq<Seq<char>>) -> bool {
    file_name(p) == Some("__init__.py"@) || file_name(p) == Some("__init__.pyi"@)
}

/// True when this file is a package (`__init__.py` / `__init__.pyi`).
pub fn is_package_file(file: &Vec<String>) -> (r: bool)
    ensures
        r == package_file(strings_view(file@)),
{
    match file_name_of(file) {
        Some(name) => text_is(name.as_str(), "__init__.py") || text_is(name.as_str(), "__init__.pyi"),
        None => false,
    }
}

/// The dotted module of a path relative to a source root: `__init__.py(i)`
/// stands for its directory, and a `.py`/`.pyi` file for its stem; other
/// files, and paths that leave nothing, have no module.
pub open spec fn relative_module(rel: Seq<Seq<char>>) -> Option<Seq<char>> {
    if rel.len() == 0 {
        None
    } else {
        let last = rel.last();
        let n = rel.len() - 1;
        let parts = if last == "__init__.py"@ || last == "__init__.pyi"@ {
            Some(rel.drop_last())
        } else if ends_with(last, ".pyi"@) {
            Some(rel.update(n, last.subrange(0, last.len() - ".pyi"@.len())))
        } else if ends_with(last, ".py"@) {
            Some(rel.update(n, last.subrange(0, last.len() - ".py"@.len())))
        } else {
            None
        };
        match parts {
            Some(q) => if q.len() == 0 {
                None
            } else {
                Some(join_dots(q))
            },
            None => None,
        }
    }
}

/// Law: `__init__.py` and `__init__.pyi` stand for their directory.
pub proof fn lemma_init_is_package(dir: Seq<Seq<char>>, init: Seq<char>)
    requires
        dir.len() > 0,
        init == "__init__.py"@ || init == "__init__.pyi"@,
    ensures
        relative_module(dir.push(init)) == Some(join_dots(dir)),
{
    assert(dir.push(init).drop_last() =~= dir);
}

/// Law (a Python file is its stem's module): under any directories, none
/// included, a `.py` or `.pyi` file other than `__init__` is the module
/// named by the directories and then its stem.
pub proof fn lemma_python_file_module(dir: Seq<Seq<char>>, stem: Seq<char>, ext: Seq<char>)
    requires
        ext == ".py"@ || ext == ".pyi"@,
        stem.len() > 0,
        stem != "__init__"@,
    ensures
        relative_module(dir.push(stem + ext)) == Some(join_dots(dir.push(stem))),
{
    reveal_strlit(".py");
    reveal_strlit(".pyi");
    reveal_strlit("__init__");
    reveal_strlit("__init__.py");
    reveal_strlit("__init__.pyi");
    let last = stem + ext;
    let rel = dir.push(last);
    let n = rel.len() - 1;
    assert(rel.last() == last);
    assert(last.last() == ext.last());
    if last == "__init__.py"@ {
        assert(ext == ".py"@);
        assert(stem =~= last.subrange(0, 8));
        assert("__init__.py"@.subrange(0, 8) =~= "__init__"@);
    }
    if last == "__init__.pyi"@ {
        assert(ext == ".pyi"@);
        assert(stem =~= last.subrange(0, 8));
        assert("__init__.pyi"@.subrange(0, 8) =~= "__init__"@);
    }
    if ext == ".pyi"@ {
        assert(last.subrange(last.len() - 4, last.len() as int) =~= ext);
        assert(last.subrange(0, last.len() - 4) =~= stem);
        assert(rel.update(n, stem) =~= dir.push(stem));
    } else {
        assert(last.subrange(last.len() - 4, last.len() as int).last() == 'y');
        assert(!ends_with(last, ".pyi"@));
        assert(last.subrange(last.len() - 3, last.len() as int) =~= ext);
        assert(last.subrange(0, last.len() - 3) =~= stem);
        assert(rel.update(n, stem) =~= dir.push(stem));
    }
}

/// The dotted module of a path relative to a source root.
pub fn relative_to_module(rel: &[String]) -> (r: Option<String>)
    ensures
        match r {
            Some(s) => relative_module(strings_view(rel@)) == Some(s@),
            None => relative_module(strings_view(rel@)) is None,
        },
{
    let ghost rv = strings_view(rel@);
    if rel.len() == 0 {
        return None;
    }
    let mut parts: Vec<Vec<char>> = Vec::new();
    let mut i: usize = 0;
    while i < rel.len()
        invariant
            i <= rel.len(),
            rv == strings_view(rel@),
            parts.len() == i,
            views_of(parts@) == rv.take(i as int),
        decreases rel.len() - i,
    {
        parts.push(chars_of(rel[i].as_str()));
        i = i + 1;
        assert(views_of(parts@) =~= rv.take(i as int));
    }
    assert(rv.take(rel.len() as int) =~= rv);
    let n = rel.len() - 1;
    let last = chars_of(rel[n].as_str());
    assert(last@ == rv.last());
    let pyi = chars_of(".pyi");
    let py = chars_of(".py");
    if text_is(rel[n].as_str(), "__init__.py") || text_is(rel[n].as_str(), "__init__.pyi") {
        parts.pop();
        assert(views_of(parts@) =~= rv.drop_last());
    } else if chars_end_with(last.as_slice(), pyi.as_slice()) {
        let stem = chars_prefix(last.as_slice(), last.len() - pyi.len());
        parts.set(n, stem);
        assert(views_of(parts@) =~= rv.update(n as int, last@.subrange(0, last@.len() - ".pyi"@.len())));
    } else if chars_end_with(last.as_slice(), py.as_slice()) {
        let stem = chars_prefix(last.as_slice(), last.len() - py.len());
        parts.set(n, stem);
        assert(views_of(parts@) =~= rv.update(n as int, last@.subrange(0, last@.len() - ".py"@.len())));
    } else {
        return None;
    }
    if parts.len() == 0 {
        return None;
    }
    let joined = join_with_dots(&parts);
    Some(string_of(joined.as_slice()))
}

/// `root` is a leading run of the components of `p` (`Path::starts_with`).
pub open spec fn path_starts_with(p: Seq<Seq<char>>, root: Seq<Seq<char>>) -> bool {
    root.len() <= p.len() && p.subrange(0, root.len() as int) == root
}

/// Whether `root` is a leading run of the components of `p`.
pub fn starts_with_path(p: &Vec<String>, root: &Vec<String>) -> (r: bool)
    ensures
        r == path_starts_with(strings_view(p@), strings_view(root@)),
{
    let ghost pv = strings_view(p@);
    let ghost rv = strings_view(root@);
    if root.len() > p.len() {
        return false;
    }
    let mut i: usize = 0;
    while i < root.len()
        invariant
            i <= root.len() <= p.len(),
            pv == strings_view(p@),
            rv == strings_view(root@),
            forall|j: int| 0 <= j < i ==> pv[j] == rv[j],
        decreases root.len() - i,
    {
        if !text_is(p[i].as_str(), root[i].as_str()) {
            assert(pv.subrange(0, rv.len() as int)[i as int] != rv[i as int]);
            return false;
        }
        i = i + 1;
    }
    assert(pv.subrange(0, rv.len() as int) =~= rv);
    true
}

/// Among `roots[..n]`, the first of the longest roots that `file` lies under.
pub open spec fn best_root_upto(file: Seq<Seq<char>>, roots: Seq<Seq<Seq<char>>>, n: int) -> Option<
    int,
>
    decreases n,
{
    if n <= 0 {
        None
    } else {
        let prev = best_root_upto(file, roots, n - 1);
        if path_starts_with(file, roots[n - 1]) && (match prev {
            Some(b) => roots[n - 1].len() > roots[b].len(),
            None => true,
        }) {
            Some(n - 1)
        } else {
            prev
        }
    }
}

/// The paths of a list of paths.
pub open spec fn paths_view(v: Seq<Vec<String>>) -> Seq<Seq<Seq<char>>> {
    v.map_values(|p: Vec<String>| strings_view(p@))
}

/// The module of `file` under the longest of the source roots that it lies
/// under; none when it lies under none, or is not a Python file there.
pub open spec fn module_of_file(file: Seq<Seq<char>>, roots: Seq<Seq<Seq<char>>>) -> Option<
    Seq<char>,
> {
    match best_root_upto(file, roots, roots.len() as int) {
        Some(k) => relative_module(file.subrange(roots[k].len() as int, file.len() as int)),
        None => None,
    }
}

/// Law: the root chosen for a file is one that it lies under, and no root
/// that it lies under is longer; of equally long ones the first is chosen.
pub proof fn lemma_best_root(file: Seq<Seq<char>>, roots: Seq<Seq<Seq<char>>>, n: int)
    requires
        0 <= n <= roots.len(),
    ensures
        match best_root_upto(file, roots, n) {
            Some(k) => 0 <= k < n && path_starts_with(file, roots[k]) && forall|j: int|
                0 <= j < n && path_starts_with(file, #[trigger] roots[j]) ==> roots[j].len()
                    <= roots[k].len() && (roots[j].len() == roots[k].len() ==> k <= j),
            None => forall|j: int| 0 <= j < n ==> !path_starts_with(file, #[trigger] roots[j]),
        },
    decreases n,
{
    if n > 0 {
        lemma_best_root(file, roots, n - 1);
    }
}

/// Map a source file to a dotted module path using the longest matching
/// source root. `roots` are the source roots as paths, in configuration
/// order. Returns `None` when the file is not under any root.
pub fn file_to_module(file: &Vec<String>, roots: &Vec<Vec<String>>) -> (r: Option<String>)
    ensures
        match r {
            Some(s) => module_of_file(strings_view(file@), paths_view(roots@)) == Some(s@),
            None => module_of_file(strings_view(file@), paths_view(roots@)) is None,
        },
{
    let ghost fv = strings_view(file@);
    let ghost rv = paths_view(roots@);
    let mut best: Option<usize> = None;
    let mut k: usize = 0;
    while k < roots.len()
        invariant
            k <= roots.len(),
            fv == strings_view(file@),
            rv == paths_view(roots@),
            best_root_upto(fv, rv, k as int) == (match best {
                Some(b) => Some(b as int),
                None => None::<int>,
            }),
            best matches Some(b) ==> b < k,
        decreases roots.len() - k,
    {
        assert(rv[k as int] == strings_view(roots[k as int]@));
        assert(rv[k as int].len() == roots[k as int].len());
        if let Some(b) = best {
            assert(rv[b as int] == strings_view(roots[b as int]@));
            assert(rv[b as int].len() == roots[b as int].len());
        }
        if starts_with_path(file, &roots[k]) {
            let better = match best {
                Some(b) => roots[k].len() > roots[b].len(),
                None => true,
            };
            if better {
                best = Some(k);
            }
        }
        k = k + 1;
    }
    match best {
        None => None,
        Some(b) => {
            assert(rv[b as int] == strings_view(roots[b as int]@));
            proof {
                lemma_best_root(fv, rv, roots.len() as int);
            }
            let start = roots[b].len();
            let rel = file.as_slice().split_at(start).1;
            assert(strings_view(rel@) =~= fv.subrange(start as int, fv.len() as int));
            relative_to_module(rel)
        },
    }
}

} // verus!
