//! Character-level helpers: dotted module paths, white space, and the
//! lexicographic order of strings.
use vstd::prelude::*;

verus! {

/// Appends one character to a string (`String::push`). Claimed, as std
/// documents: the string afterwards is the old one with `c` at its end.
#[verifier::external_body]
fn push_char(s: &mut String, c: char)
    ensures
        final(s)@ == old(s)@.push(c),
{
    s.push(c);
}

/// The characters of `s`, in order.
pub fn chars_of(s: &str) -> (v: Vec<char>)
    ensures
        v@ == s@,
{
    let mut v: Vec<char> = Vec::new();
    for c in it: s.chars()
        invariant
            v@ == it.seq().take(it.index() as int),
    {
        v.push(c);
    }
    v
}

/// A string made of the characters of `v`.
pub fn string_of(v: &[char]) -> (s: String)
    ensures
        s@ == v@,
{
    let mut s = String::new();
    let mut i: usize = 0;
    while i < v.len()
        invariant
            i <= v.len(),
            s@ == v@.subrange(0, i as int),
        decreases v.len() - i,
    {
        push_char(&mut s, v[i]);
        i = i + 1;
        assert(s@ =~= v@.subrange(0, i as int));
    }
    s
}

/// Whether two character sequences are equal.
pub fn chars_equal(a: &[char], b: &[char]) -> (r: bool)
    ensures
        r == (a@ == b@),
{
    if a.len() != b.len() {
        return false;
    }
    let mut i: usize = 0;
    while i < a.len()
        invariant
            i <= a.len(),
            a.len() == b.len(),
            forall|j: int| 0 <= j < i ==> a@[j] == b@[j],
        decreases a.len() - i,
    {
        if a[i] != b[i] {
            return false;
        }
        i = i + 1;
    }
    assert(a@ =~= b@);
    true
}

/// Whether `s` reads exactly `lit`.
pub fn text_is(s: &str, lit: &str) -> (r: bool)
    ensures
        r == (s@ == lit@),
{
    let a = chars_of(s);
    let b = chars_of(lit);
    chars_equal(a.as_slice(), b.as_slice())
}

/// The character sequences of a list of strings.
pub open spec fn strings_view(v: Seq<String>) -> Seq<Seq<char>> {
    v.map_values(|s: String| s@)
}

/// A copy of a list of strings.
pub fn copy_strings(v: &Vec<String>) -> (r: Vec<String>)
    ensures
        strings_view(r@) == strings_view(v@),
{
    let mut r: Vec<String> = Vec::new();
    let mut i: usize = 0;
    while i < v.len()
        invariant
            i <= v.len(),
            r.len() == i,
            strings_view(r@) == strings_view(v@).take(i as int),
        decreases v.len() - i,
    {
        let c = v[i].clone();
        r.push(c);
        i = i + 1;
        assert(strings_view(r@) =~= strings_view(v@).take(i as int));
    }
    assert(strings_view(v@).take(v.len() as int) =~= strings_view(v@));
    r
}

/// Strings made of each character list.
pub fn strings_of(v: &Vec<Vec<char>>) -> (r: Vec<String>)
    ensures
        strings_view(r@) == views_of(v@),
{
    let mut r: Vec<String> = Vec::new();
    let mut i: usize = 0;
    while i < v.len()
        invariant
            i <= v.len(),
            r.len() == i,
            strings_view(r@) == views_of(v@).take(i as int),
        decreases v.len() - i,
    {
        let c = string_of(v[i].as_slice());
        r.push(c);
        i = i + 1;
        assert(strings_view(r@) =~= views_of(v@).take(i as int));
    }
    assert(views_of(v@).take(v.len() as int) =~= views_of(v@));
    r
}

/// `s` ends with `suffix`.
pub open spec fn ends_with(s: Seq<char>, suffix: Seq<char>) -> bool {
    s.len() >= suffix.len() && s.subrange(s.len() - suffix.len(), s.len() as int) == suffix
}

/// Whether `s` ends with `suffix`.
pub fn chars_end_with(s: &[char], suffix: &[char]) -> (r: bool)
    ensures
        r == ends_with(s@, suffix@),
{
    if s.len() < suffix.len() {
        return false;
    }
    let off = s.len() - suffix.len();
    let mut i: usize = 0;
    while i < suffix.len()
        invariant
            i <= suffix.len(),
            off + suffix.len() == s.len(),
            forall|j: int| 0 <= j < i ==> s@[off + j] == suffix@[j],
        decreases suffix.len() - i,
    {
        if s[off + i] != suffix[i] {
            assert(s@.subrange(off as int, s.len() as int)[i as int] != suffix@[i as int]);
            return false;
        }
        i = i + 1;
    }
    assert(s@.subrange(off as int, s.len() as int) =~= suffix@);
    true
}

/// The first `n` characters of `s`.
pub fn chars_prefix(s: &[char], n: usize) -> (r: Vec<char>)
    requires
        n <= s.len(),
    ensures
        r@ == s@.subrange(0, n as int),
{
    let mut r: Vec<char> = Vec::new();
    let mut i: usize = 0;
    while i < n
        invariant
            i <= n <= s.len(),
            r@ == s@.subrange(0, i as int),
        decreases n - i,
    {
        r.push(s[i]);
        i = i + 1;
        assert(r@ =~= s@.subrange(0, i as int));
    }
    r
}

// ---------------------------------------------------------------------------
// Dotted module paths
// ---------------------------------------------------------------------------

/// `path` names `prefix` itself or one of its submodules: it equals `prefix`,
/// or it starts with `prefix` followed by a dot (`a.b.c` is under `a.b`, but
/// `a.bc` is not).
pub open spec fn module_under(path: Seq<char>, prefix: Seq<char>) -> bool {
    ||| path == prefix
    ||| (path.len() > prefix.len() && path.subrange(0, prefix.len() as int) == prefix
        && path[prefix.len() as int] == '.')
}

/// Law: every module is under itself.
pub proof fn lemma_module_under_reflexive(a: Seq<char>)
    ensures
        module_under(a, a),
{
}

/// Law: a submodule of a submodule of `c` is a submodule of `c`.
pub proof fn lemma_module_under_transitive(a: Seq<char>, b: Seq<char>, c: Seq<char>)
    requires
        module_under(a, b),
        module_under(b, c),
    ensures
        module_under(a, c),
{
    if a != b && b != c {
        assert(a.subrange(0, c.len() as int) =~= b.subrange(0, c.len() as int)) by {
            assert forall|i: int| 0 <= i < c.len() implies a[i] == b[i] by {
                assert(a.subrange(0, b.len() as int)[i] == b[i]);
            }
        }
        assert(a[c.len() as int] == a.subrange(0, b.len() as int)[c.len() as int]);
    }
}

/// True if `path` is `prefix` or a submodule of `prefix` (`a.b` matches `a.b.c`, not `a.bc`).
pub fn is_module_or_submodule(path: &str, prefix: &str) -> (r: bool)
    ensures
        r == module_under(path@, prefix@),
{
    let p = chars_of(path);
    let q = chars_of(prefix);
    chars_under(p.as_slice(), q.as_slice())
}

/// [`is_module_or_submodule`] on character slices.
pub fn chars_under(p: &[char], q: &[char]) -> (r: bool)
    ensures
        r == module_under(p@, q@),
{
    if p.len() < q.len() {
        return false;
    }
    let mut i: usize = 0;
    while i < q.len()
        invariant
            i <= q.len() <= p.len(),
            forall|j: int| 0 <= j < i ==> p@[j] == q@[j],
        decreases q.len() - i,
    {
        if p[i] != q[i] {
            assert(p@.subrange(0, q.len() as int)[i as int] != q@[i as int]);
            return false;
        }
        i = i + 1;
    }
    assert(p@.subrange(0, q.len() as int) =~= q@);
    if p.len() == q.len() {
        assert(p@ =~= q@);
        true
    } else {
        p[q.len()] == '.'
    }
}

/// The parts of `s` between dots, in order: `"a.b"` gives `["a", "b"]`,
/// `""` gives `[""]` and `"a..b"` gives `["a", "", "b"]`.
pub open spec fn split_dots(s: Seq<char>) -> Seq<Seq<char>>
    decreases s.len(),
{
    if s.len() == 0 {
        seq![Seq::<char>::empty()]
    } else {
        let p = split_dots(s.drop_last());
        if s.last() == '.' {
            p.push(Seq::<char>::empty())
        } else {
            p.update(p.len() - 1, p.last().push(s.last()))
        }
    }
}

/// The parts joined with dots between them; no parts give the empty string.
pub open spec fn join_dots(parts: Seq<Seq<char>>) -> Seq<char>
    decreases parts.len(),
{
    if parts.len() == 0 {
        Seq::<char>::empty()
    } else if parts.len() == 1 {
        parts[0]
    } else {
        join_dots(parts.drop_last()) + seq!['.'] + parts.last()
    }
}

/// Splitting always gives at least one part.
pub proof fn lemma_split_nonempty(s: Seq<char>)
    ensures
        split_dots(s).len() >= 1,
    decreases s.len(),
{
    if s.len() > 0 {
        lemma_split_nonempty(s.drop_last());
    }
}

proof fn lemma_join_extend_last(p: Seq<Seq<char>>, c: char)
    requires
        p.len() >= 1,
    ensures
        join_dots(p.update(p.len() - 1, p.last().push(c))) == join_dots(p).push(c),
{
    let q = p.update(p.len() - 1, p.last().push(c));
    if p.len() > 1 {
        assert(q.drop_last() =~= p.drop_last());
        assert(join_dots(q) =~= join_dots(p).push(c));
    }
}

/// Law: joining the parts of `s` with dots gives `s` back.
pub proof fn lemma_join_split(s: Seq<char>)
    ensures
        join_dots(split_dots(s)) == s,
    decreases s.len(),
{
    if s.len() > 0 {
        let p = split_dots(s.drop_last());
        lemma_join_split(s.drop_last());
        lemma_split_nonempty(s.drop_last());
        if s.last() == '.' {
            assert(p.push(Seq::<char>::empty()).drop_last() =~= p);
            assert(join_dots(p.push(Seq::<char>::empty())) =~= s);
        } else {
            lemma_join_extend_last(p, s.last());
            assert(s.drop_last().push(s.last()) =~= s);
        }
    }
}

/// Law: no part of a split holds a dot.
pub proof fn lemma_split_parts_dotless(s: Seq<char>)
    ensures
        forall|i: int, j: int|
            0 <= i < split_dots(s).len() && 0 <= j < split_dots(s)[i].len() ==> split_dots(
                s,
            )[i][j] != '.',
    decreases s.len(),
{
    if s.len() > 0 {
        lemma_split_parts_dotless(s.drop_last());
        lemma_split_nonempty(s.drop_last());
        let p = split_dots(s.drop_last());
        if s.last() != '.' {
            let q = p.update(p.len() - 1, p.last().push(s.last()));
            assert forall|i: int, j: int| 0 <= i < q.len() && 0 <= j < q[i].len() implies q[i][j]
                != '.' by {
                if i == p.len() - 1 && j == p.last().len() {
                } else if i == p.len() - 1 {
                    assert(q[i][j] == p[i][j]);
                }
            }
        }
    }
}

/// The parts of `s` between dots.
pub fn split_on_dots(s: &[char]) -> (parts: Vec<Vec<char>>)
    ensures
        parts@.map_values(|v: Vec<char>| v@) == split_dots(s@),
{
    let mut parts: Vec<Vec<char>> = Vec::new();
    let mut cur: Vec<char> = Vec::new();
    let mut i: usize = 0;
    while i < s.len()
        invariant
            i <= s.len(),
            parts@.map_values(|v: Vec<char>| v@).push(cur@) == split_dots(s@.subrange(0, i as int)),
        decreases s.len() - i,
    {
        let ghost before = parts@.map_values(|v: Vec<char>| v@).push(cur@);
        assert(s@.subrange(0, i + 1).drop_last() =~= s@.subrange(0, i as int));
        if s[i] == '.' {
            parts.push(cur);
            cur = Vec::new();
            assert(parts@.map_values(|v: Vec<char>| v@).push(cur@) =~= before.push(
                Seq::<char>::empty(),
            ));
        } else {
            cur.push(s[i]);
            assert(parts@.map_values(|v: Vec<char>| v@).push(cur@) =~= before.update(
                before.len() - 1,
                before.last().push(s@[i as int]),
            ));
        }
        i = i + 1;
    }
    assert(s@.subrange(0, s.len() as int) =~= s@);
    parts.push(cur);
    assert(parts@.map_values(|v: Vec<char>| v@) =~= split_dots(s@));
    parts
}

/// The parts joined with dots between them.
pub fn join_with_dots(parts: &Vec<Vec<char>>) -> (s: Vec<char>)
    ensures
        s@ == join_dots(parts@.map_values(|v: Vec<char>| v@)),
{
    let ghost views = parts@.map_values(|v: Vec<char>| v@);
    let mut s: Vec<char> = Vec::new();
    let mut i: usize = 0;
    while i < parts.len()
        invariant
            i <= parts.len(),
            views == parts@.map_values(|v: Vec<char>| v@),
            s@ == join_dots(views.take(i as int)),
        decreases parts.len() - i,
    {
        assert(views.take(i + 1).drop_last() =~= views.take(i as int));
        if i > 0 {
            s.push('.');
        }
        let mut k: usize = 0;
        let ghost start = s@;
        while k < parts[i].len()
            invariant
                i < parts.len(),
                k <= parts[i as int].len(),
                s@ == start + parts[i as int]@.subrange(0, k as int),
            decreases parts[i as int].len() - k,
        {
            s.push(parts[i][k]);
            k = k + 1;
            assert(s@ =~= start + parts[i as int]@.subrange(0, k as int));
        }
        assert(parts[i as int]@.subrange(0, k as int) =~= parts[i as int]@);
        i = i + 1;
        if i == 1 {
            assert(s@ =~= join_dots(views.take(1)));
        } else {
            assert(s@ =~= join_dots(views.take(i as int)));
        }
    }
    assert(views.take(parts.len() as int) =~= views);
    s
}

// ---------------------------------------------------------------------------
// White space
// ---------------------------------------------------------------------------

/// The characters with Unicode's White_Space property, which is what
/// `char::is_whitespace` tests.
pub open spec fn white_space(c: char) -> bool {
    let u = c as u32;
    ||| 0x9 <= u <= 0xd
    ||| u == 0x20
    ||| u == 0x85
    ||| u == 0xa0
    ||| u == 0x1680
    ||| 0x2000 <= u <= 0x200a
    ||| u == 0x2028
    ||| u == 0x2029
    ||| u == 0x202f
    ||| u == 0x205f
    ||| u == 0x3000
}

/// Whether `c` is white space.
pub fn is_white_space(c: char) -> (r: bool)
    ensures
        r == white_space(c),
{
    let u = c as u32;
    (0x9 <= u && u <= 0xd) || u == 0x20 || u == 0x85 || u == 0xa0 || u == 0x1680 || (0x2000 <= u
        && u <= 0x200a) || u == 0x2028 || u == 0x2029 || u == 0x202f || u == 0x205f || u == 0x3000
}

/// Every character of `s` is white space (so `s.trim()` is empty).
pub open spec fn blank(s: Seq<char>) -> bool {
    forall|i: int| 0 <= i < s.len() ==> white_space(#[trigger] s[i])
}

/// Whether every character of `s` is white space.
pub fn is_blank(s: &str) -> (r: bool)
    ensures
        r == blank(s@),
{
    let v = chars_of(s);
    let mut i: usize = 0;
    while i < v.len()
        invariant
            i <= v.len(),
            v@ == s@,
            forall|j: int| 0 <= j < i ==> white_space(#[trigger] v@[j]),
        decreases v.len() - i,
    {
        if !is_white_space(v[i]) {
            return false;
        }
        i = i + 1;
    }
    true
}

/// `s` without its leading white space.
pub open spec fn trim_start(s: Seq<char>) -> Seq<char>
    decreases s.len(),
{
    if s.len() > 0 && white_space(s[0]) {
        trim_start(s.drop_first())
    } else {
        s
    }
}

/// `s` without its trailing white space.
pub open spec fn trim_end(s: Seq<char>) -> Seq<char>
    decreases s.len(),
{
    if s.len() > 0 && white_space(s.last()) {
        trim_end(s.drop_last())
    } else {
        s
    }
}

/// `s` without leading and trailing white space (`str::trim`).
pub open spec fn trim(s: Seq<char>) -> Seq<char> {
    trim_end(trim_start(s))
}

/// `s` without leading and trailing white space.
pub fn trim_chars(s: &[char]) -> (r: Vec<char>)
    ensures
        r@ == trim(s@),
{
    let mut i: usize = 0;
    assert(s@.subrange(0, s.len() as int) =~= s@);
    while i < s.len() && is_white_space(s[i])
        invariant
            i <= s.len(),
            trim_start(s@) == trim_start(s@.subrange(i as int, s.len() as int)),
        decreases s.len() - i,
    {
        assert(s@.subrange(i as int, s.len() as int).drop_first() =~= s@.subrange(
            i + 1,
            s.len() as int,
        ));
        i = i + 1;
    }
    let mut j: usize = s.len();
    while j > i && is_white_space(s[j - 1])
        invariant
            i <= j <= s.len(),
            trim_end(s@.subrange(i as int, s.len() as int)) == trim_end(
                s@.subrange(i as int, j as int),
            ),
        decreases j,
    {
        assert(s@.subrange(i as int, j as int).drop_last() =~= s@.subrange(i as int, j - 1));
        j = j - 1;
    }
    let mut r: Vec<char> = Vec::new();
    let mut k: usize = i;
    while k < j
        invariant
            i <= k <= j <= s.len(),
            r@ == s@.subrange(i as int, k as int),
        decreases j - k,
    {
        r.push(s[k]);
        k = k + 1;
        assert(r@ =~= s@.subrange(i as int, k as int));
    }
    r
}

// ---------------------------------------------------------------------------
// The order of strings
// ---------------------------------------------------------------------------

/// `a` comes strictly before `b` in lexicographic order by code point, the
/// order of Rust's `String` (UTF-8 keeps the order of code points).
pub open spec fn precedes(a: Seq<char>, b: Seq<char>) -> bool
    decreases a.len(),
{
    if a.len() == 0 {
        b.len() > 0
    } else if b.len() == 0 {
        false
    } else if a[0] != b[0] {
        a[0] < b[0]
    } else {
        precedes(a.drop_first(), b.drop_first())
    }
}

/// Nothing precedes itself.
pub proof fn lemma_precedes_irreflexive(a: Seq<char>)
    ensures
        !precedes(a, a),
    decreases a.len(),
{
    if a.len() > 0 {
        lemma_precedes_irreflexive(a.drop_first());
    }
}

/// The order is transitive.
pub proof fn lemma_precedes_transitive(a: Seq<char>, b: Seq<char>, c: Seq<char>)
    requires
        precedes(a, b),
        precedes(b, c),
    ensures
        precedes(a, c),
    decreases a.len(),
{
    if a.len() > 0 && b.len() > 0 && c.len() > 0 && a[0] == b[0] && b[0] == c[0] {
        lemma_precedes_transitive(a.drop_first(), b.drop_first(), c.drop_first());
    }
}

/// Of two different strings, one precedes the other.
pub proof fn lemma_precedes_total(a: Seq<char>, b: Seq<char>)
    requires
        a != b,
    ensures
        precedes(a, b) || precedes(b, a),
    decreases a.len(),
{
    if a.len() > 0 && b.len() > 0 && a[0] == b[0] {
        if a.drop_first() == b.drop_first() {
            assert(a =~= seq![a[0]] + a.drop_first());
            assert(b =~= seq![b[0]] + b.drop_first());
        }
        lemma_precedes_total(a.drop_first(), b.drop_first());
    } else if a.len() == 0 && b.len() == 0 {
        assert(a =~= b);
    }
}

/// Whether `a` comes strictly before `b`.
pub fn chars_precede(a: &[char], b: &[char]) -> (r: bool)
    ensures
        r == precedes(a@, b@),
{
    let mut i: usize = 0;
    assert(a@.subrange(0, a.len() as int) =~= a@);
    assert(b@.subrange(0, b.len() as int) =~= b@);
    while i < a.len() && i < b.len()
        invariant
            i <= a.len(),
            i <= b.len(),
            precedes(a@, b@) == precedes(
                a@.subrange(i as int, a.len() as int),
                b@.subrange(i as int, b.len() as int),
            ),
        decreases a.len() - i,
    {
        if a[i] != b[i] {
            return a[i] < b[i];
        }
        assert(a@.subrange(i as int, a.len() as int).drop_first() =~= a@.subrange(
            i + 1,
            a.len() as int,
        ));
        assert(b@.subrange(i as int, b.len() as int).drop_first() =~= b@.subrange(
            i + 1,
            b.len() as int,
        ));
        i = i + 1;
    }
    i < b.len()
}

/// Each string of `s` comes strictly before every later one.
pub open spec fn strictly_sorted(s: Seq<Seq<char>>) -> bool {
    forall|i: int, j: int| 0 <= i < j < s.len() ==> precedes(s[i], s[j])
}

/// The character sequences that `v` holds.
pub open spec fn views_of(v: Seq<Vec<char>>) -> Seq<Seq<char>> {
    v.map_values(|x: Vec<char>| x@)
}

/// The strings of `items` in increasing order, each once (`sort` then `dedup`).
pub fn sorted_unique(items: Vec<Vec<char>>) -> (r: Vec<Vec<char>>)
    ensures
        strictly_sorted(views_of(r@)),
        forall|x: Seq<char>| views_of(r@).contains(x) <==> views_of(items@).contains(x),
{
    let mut r: Vec<Vec<char>> = Vec::new();
    let mut i: usize = 0;
    while i < items.len()
        invariant
            i <= items.len(),
            strictly_sorted(views_of(r@)),
            forall|x: Seq<char>|
                views_of(r@).contains(x) <==> views_of(items@.take(i as int)).contains(x),
        decreases items.len() - i,
    {
        let c = &items[i];
        let ghost old_r = views_of(r@);
        assert(views_of(items@.take(i + 1)) =~= views_of(items@.take(i as int)).push(c@));
        let mut p: usize = 0;
        while p < r.len() && chars_precede(r[p].as_slice(), c.as_slice())
            invariant
                p <= r.len(),
                old_r == views_of(r@),
                forall|k: int| 0 <= k < p ==> precedes(old_r[k], c@),
            decreases r.len() - p,
        {
            p = p + 1;
        }
        let ghost prev = views_of(items@.take(i as int));
        assert forall|x: Seq<char>| prev.push(c@).contains(x) <==> prev.contains(x) || x == c@ by {
            if prev.push(c@).contains(x) {
                let k = choose|k: int| 0 <= k < prev.len() + 1 && prev.push(c@)[k] == x;
                if k < prev.len() {
                    assert(prev[k] == x);
                }
            }
            if prev.contains(x) {
                let k = choose|k: int| 0 <= k < prev.len() && prev[k] == x;
                assert(prev.push(c@)[k] == x);
            }
            if x == c@ {
                assert(prev.push(c@)[prev.len() as int] == x);
            }
        }
        if p < r.len() && chars_equal(r[p].as_slice(), c.as_slice()) {
            assert(old_r[p as int] == c@);
            assert(views_of(r@).contains(c@));
        } else {
            proof {
                if p < r.len() {
                    lemma_precedes_total(old_r[p as int], c@);
                }
                assert forall|k: int| p <= k < old_r.len() implies precedes(c@, old_r[k]) by {
                    if k > p {
                        lemma_precedes_transitive(c@, old_r[p as int], old_r[k]);
                    }
                }
            }
            r.insert(p, c.clone());
            proof {
                let nr = views_of(r@);
                assert(nr =~= old_r.insert(p as int, c@));
                assert forall|a: int, b: int| 0 <= a < b < nr.len() implies precedes(
                    nr[a],
                    nr[b],
                ) by {
                    if b < p {
                    } else if a < p && b == p {
                    } else if a < p {
                        lemma_precedes_transitive(old_r[a], c@, old_r[b - 1]);
                    } else if a == p {
                    } else {
                    }
                }
                assert forall|x: Seq<char>| nr.contains(x) <==> old_r.contains(x) || x == c@ by {
                    if nr.contains(x) {
                        let k = choose|k: int| 0 <= k < nr.len() && nr[k] == x;
                        if k < p {
                            assert(old_r[k] == x);
                        } else if k > p {
                            assert(old_r[k - 1] == x);
                        }
                    }
                    if old_r.contains(x) {
                        let k = choose|k: int| 0 <= k < old_r.len() && old_r[k] == x;
                        if k < p {
                            assert(nr[k] == x);
                        } else {
                            assert(nr[k + 1] == x);
                        }
                    }
                    if x == c@ {
                        assert(nr[p as int] == x);
                    }
                }
            }
        }
        i = i + 1;
    }
    assert(items@.take(items.len() as int) =~= items@);
    r
}

} // verus!
