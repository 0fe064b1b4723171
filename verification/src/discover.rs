//! Which files a check looks at, which pyproject.toml governs each of them,
//! and how a check ends.
use vstd::prelude::*;

use crate::mapping::{file_name, file_name_of, path_starts_with, paths_view, starts_with_path};
use crate::text::{chars_of, copy_strings, strings_view, text_is};

verus! {

/// The index of the last dot among the first `n` characters of `name`.
pub open spec fn last_dot_before(name: Seq<char>, n: int) -> Option<int>
    decreases n,
{
    if n <= 0 {
        None
    } else if name[n - 1] == '.' {
        Some(n - 1)
    } else {
        last_dot_before(name, n - 1)
    }
}

/// A file name's extension (`Path::extension`): what follows its last dot,
/// unless that dot is its first character.
pub open spec fn extension(name: Seq<char>) -> Option<Seq<char>> {
    match last_dot_before(name, name.len() as int) {
        Some(k) => if k > 0 {
            Some(name.subrange(k + 1, name.len() as int))
        } else {
            None
        },
        None => None,
    }
}

/// A Python source or stub file: its extension is `py` or `pyi`.
pub open spec fn python_file(p: Seq<Seq<char>>) -> bool {
    match file_name(p) {
        Some(n) => extension(n) == Some("py"@) || extension(n) == Some("pyi"@),
        None => false,
    }
}

fn extension_of(name: &str) -> (r: Option<Vec<char>>)
    ensures
        match r {
            Some(v) => extension(name@) == Some(v@),
            None => extension(name@) is None,
        },
{
    let v = chars_of(name);
    let mut n: usize = v.len();
    while n > 0 && v[n - 1] != '.'
        invariant
            n <= v.len(),
            v@ == name@,
            last_dot_before(name@, name@.len() as int) == last_dot_before(name@, n as int),
        decreases n,
    {
        n = n - 1;
    }
    if n <= 1 {
        return None;
    }
    let mut r: Vec<char> = Vec::new();
    let mut k: usize = n;
    while k < v.len()
        invariant
            1 < n <= k <= v.len(),
            r@ == v@.subrange(n as int, k as int),
        decreases v.len() - k,
    {
        r.push(v[k]);
        k = k + 1;
        assert(r@ =~= v@.subrange(n as int, k as int));
    }
    Some(r)
}

/// Whether a path names a Python source or stub file.
pub fn is_python_file(path: &Vec<String>) -> (r: bool)
    ensures
        r == python_file(strings_view(path@)),
{
    match file_name_of(path) {
        Some(name) => match extension_of(name.as_str()) {
            Some(ext) => {
                let py = chars_of("py");
                let pyi = chars_of("pyi");
                crate::text::chars_equal(ext.as_slice(), py.as_slice())
                    || crate::text::chars_equal(ext.as_slice(), pyi.as_slice())
            },
            None => false,
        },
        None => false,
    }
}

/// Whether a path names a pyproject.toml file.
pub fn is_pyproject(path: &Vec<String>) -> (r: bool)
    ensures
        r == (file_name(strings_view(path@)) == Some("pyproject.toml"@)),
{
    match file_name_of(path) {
        Some(name) => text_is(name.as_str(), "pyproject.toml"),
        None => false,
    }
}

/// The directories that a check does not walk into.
pub open spec fn skipped_dir(name: Seq<char>) -> bool {
    ||| name == ".git"@
    ||| name == ".hg"@
    ||| name == ".svn"@
    ||| name == ".venv"@
    ||| name == "venv"@
    ||| name == "node_modules"@
    ||| name == "target"@
    ||| name == "__pycache__"@
    ||| name == ".mypy_cache"@
    ||| name == ".pytest_cache"@
    ||| name == ".ruff_cache"@
}

/// Whether a check skips a directory of this name.
pub fn is_skipped_dir(name: &str) -> (r: bool)
    ensures
        r == skipped_dir(name@),
{
    text_is(name, ".git") || text_is(name, ".hg") || text_is(name, ".svn") || text_is(name, ".venv")
        || text_is(name, "venv") || text_is(name, "node_modules") || text_is(name, "target")
        || text_is(name, "__pycache__") || text_is(name, ".mypy_cache") || text_is(
        name,
        ".pytest_cache",
    ) || text_is(name, ".ruff_cache")
}

/// Among `parents[..n]`, the last of the longest directories that `file`
/// lies in.
pub open spec fn nearest_upto(file: Seq<Seq<char>>, parents: Seq<Seq<Seq<char>>>, n: int) -> Option<
    int,
>
    decreases n,
{
    if n <= 0 {
        None
    } else {
        let prev = nearest_upto(file, parents, n - 1);
        if path_starts_with(file, parents[n - 1]) && (match prev {
            Some(b) => parents[n - 1].len() >= parents[b].len(),
            None => true,
        }) {
            Some(n - 1)
        } else {
            prev
        }
    }
}

/// The directories of a list of (directory, pyproject.toml) pairs.
pub open spec fn parents_view(roots: Seq<(Vec<String>, Vec<String>)>) -> Seq<Seq<Seq<char>>> {
    roots.map_values(|r: (Vec<String>, Vec<String>)| strings_view(r.0@))
}

/// Law: the pyproject.toml chosen for a file is in a directory that the file
/// lies in, and no such directory is deeper; of equally deep ones the last
/// is chosen.
pub proof fn lemma_nearest(file: Seq<Seq<char>>, parents: Seq<Seq<Seq<char>>>, n: int)
    requires
        0 <= n <= parents.len(),
    ensures
        match nearest_upto(file, parents, n) {
            Some(k) => 0 <= k < n && path_starts_with(file, parents[k]) && forall|j: int|
                0 <= j < n && path_starts_with(file, #[trigger] parents[j]) ==> parents[j].len()
                    <= parents[k].len() && (parents[j].len() == parents[k].len() ==> j <= k),
            None => forall|j: int| 0 <= j < n ==> !path_starts_with(file, #[trigger] parents[j]),
        },
    decreases n,
{
    if n > 0 {
        lemma_nearest(file, parents, n - 1);
    }
}

/// The pyproject.toml that governs `file`: of the (directory, pyproject.toml)
/// pairs whose directory the file lies in, the one with the deepest directory.
pub fn pyproject_for_file<'a>(file: &Vec<String>, roots: &'a Vec<(Vec<String>, Vec<String>)>) -> (r:
    Option<&'a Vec<String>>)
    ensures
        match nearest_upto(strings_view(file@), parents_view(roots@), roots@.len() as int) {
            Some(k) => r == Some(&roots@[k].1),
            None => r is None,
        },
{
    let ghost fv = strings_view(file@);
    let ghost pv = parents_view(roots@);
    let mut best: Option<usize> = None;
    let mut k: usize = 0;
    while k < roots.len()
        invariant
            k <= roots.len(),
            fv == strings_view(file@),
            pv == parents_view(roots@),
            nearest_upto(fv, pv, k as int) == (match best {
                Some(b) => Some(b as int),
                None => None::<int>,
            }),
            best matches Some(b) ==> b < k,
        decreases roots.len() - k,
    {
        assert(pv[k as int] == strings_view(roots[k as int].0@));
        assert(pv[k as int].len() == roots[k as int].0.len());
        if let Some(b) = best {
            assert(pv[b as int] == strings_view(roots[b as int].0@));
            assert(pv[b as int].len() == roots[b as int].0.len());
        }
        if starts_with_path(file, &roots[k].0) {
            let better = match best {
                Some(b) => roots[k].0.len() >= roots[b].0.len(),
                None => true,
            };
            if better {
                best = Some(k);
            }
        }
        k = k + 1;
    }
    match best {
        Some(b) => Some(&roots[b].1),
        None => None,
    }
}

/// A path's parent (`Path::parent`): none for the root or the empty path.
pub open spec fn parent_of(p: Seq<Seq<char>>) -> Option<Seq<Seq<char>>> {
    if p.len() == 0 || p.last() == "/"@ {
        None
    } else {
        Some(p.drop_last())
    }
}

/// A directory and then each directory above it, nearest first.
pub open spec fn dirs_upward(d: Seq<Seq<char>>) -> Seq<Seq<Seq<char>>>
    decreases d.len(),
{
    match parent_of(d) {
        Some(q) => seq![d] + dirs_upward(q),
        None => seq![d],
    }
}

/// The paths at which a project's pyproject.toml may be, nearest first:
/// one in the starting directory (the directory of `start` when it is a
/// file) and in each directory above it. The first of them that is a file
/// is the one that governs `start`.
pub open spec fn pyproject_search(start: Seq<Seq<char>>, start_is_file: bool) -> Seq<Seq<Seq<char>>> {
    let first = if start_is_file {
        parent_of(start)
    } else {
        Some(start)
    };
    match first {
        Some(d) => dirs_upward(d).map_values(|x: Seq<Seq<char>>| x.push("pyproject.toml"@)),
        None => Seq::empty(),
    }
}

fn parent_path(p: &Vec<String>) -> (r: Option<Vec<String>>)
    ensures
        match r {
            Some(q) => parent_of(strings_view(p@)) == Some(strings_view(q@)),
            None => parent_of(strings_view(p@)) is None,
        },
{
    if p.len() == 0 {
        return None;
    }
    assert(strings_view(p@).last() == p@.last()@);
    if text_is(p[p.len() - 1].as_str(), "/") {
        return None;
    }
    let mut q = copy_strings(p);
    q.pop();
    assert(strings_view(q@) =~= strings_view(p@).drop_last());
    Some(q)
}

/// The paths at which the pyproject.toml that governs `start` may be,
/// nearest first; the first of them that is a file is the one.
pub fn pyproject_candidates(start: &Vec<String>, start_is_file: bool) -> (r: Vec<Vec<String>>)
    ensures
        paths_view(r@) == pyproject_search(strings_view(start@), start_is_file),
{
    let mut out: Vec<Vec<String>> = Vec::new();
    let first = if start_is_file {
        parent_path(start)
    } else {
        Some(copy_strings(start))
    };
    let mut cur = match first {
        Some(d) => d,
        None => {
            assert(paths_view(out@) =~= Seq::<Seq<Seq<char>>>::empty());
            return out;
        },
    };
    let ghost all = dirs_upward(strings_view(cur@)).map_values(
        |x: Seq<Seq<char>>| x.push("pyproject.toml"@),
    );
    assert(all == pyproject_search(strings_view(start@), start_is_file));
    assert(paths_view(out@) =~= Seq::<Seq<Seq<char>>>::empty());
    loop
        invariant
            all == pyproject_search(strings_view(start@), start_is_file),
            all == paths_view(out@) + dirs_upward(strings_view(cur@)).map_values(
                |x: Seq<Seq<char>>| x.push("pyproject.toml"@),
            ),
        decreases cur.len(),
    {
        let ghost before = paths_view(out@);
        let ghost cv = strings_view(cur@);
        let mut candidate = copy_strings(&cur);
        candidate.push("pyproject.toml".to_owned());
        assert(strings_view(candidate@) =~= cv.push("pyproject.toml"@));
        out.push(candidate);
        assert(paths_view(out@) =~= before.push(cv.push("pyproject.toml"@)));
        match parent_path(&cur) {
            Some(q) => {
                assert(dirs_upward(cv) =~= seq![cv] + dirs_upward(strings_view(q@)));
                assert(paths_view(out@) + dirs_upward(strings_view(q@)).map_values(
                    |x: Seq<Seq<char>>| x.push("pyproject.toml"@),
                ) =~= before + dirs_upward(cv).map_values(
                    |x: Seq<Seq<char>>| x.push("pyproject.toml"@),
                ));
                cur = q;
            },
            None => {
                assert(dirs_upward(cv) =~= seq![cv]);
                assert(paths_view(out@) =~= before + dirs_upward(cv).map_values(
                    |x: Seq<Seq<char>>| x.push("pyproject.toml"@),
                ));
                return out;
            },
        }
    }
}

/// How a check ends: 2 when something could not be read or configured, else
/// 1 when it found forbidden imports, else 0.
pub open spec fn exit_status_of(encountered_error: bool, violations: nat) -> u8 {
    if encountered_error {
        2
    } else if violations > 0 {
        1
    } else {
        0
    }
}

/// The exit status of a check.
pub fn exit_status(encountered_error: bool, violations: usize) -> (r: u8)
    ensures
        r == exit_status_of(encountered_error, violations as nat),
{
    if encountered_error {
        2
    } else if violations > 0 {
        1
    } else {
        0
    }
}

} // verus!
