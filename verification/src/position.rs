//! From syntax-tree positions (row and byte column) to editor positions
//! (line and UTF-16 column).
use vstd::prelude::*;

use crate::text::chars_of;

verus! {

/// A position as an editor counts it: zero-based line and UTF-16 code unit.
#[derive(Clone, Copy, Debug, PartialEq, Eq, Structural)]
pub struct Position {
    pub line: u32,
    pub character: u32,
}

/// The pieces of `s` that `str::split_inclusive('\n')` gives: each line with
/// its newline, and a last one without where `s` does not end in a newline.
pub open spec fn raw_lines(s: Seq<char>) -> Seq<Seq<char>>
    decreases s.len(),
{
    if s.len() == 0 {
        Seq::empty()
    } else {
        let p = raw_lines(s.drop_last());
        if p.len() == 0 || p.last().len() == 0 || p.last().last() == '\n' {
            p.push(seq![s.last()])
        } else {
            p.update(p.len() - 1, p.last().push(s.last()))
        }
    }
}

/// A piece without its line ending: a final `\n`, and then a `\r` before it.
pub open spec fn strip_ending(l: Seq<char>) -> Seq<char> {
    if l.len() > 0 && l.last() == '\n' {
        let m = l.drop_last();
        if m.len() > 0 && m.last() == '\r' {
            m.drop_last()
        } else {
            m
        }
    } else {
        l
    }
}

/// The lines of `s`, as `str::lines` gives them.
pub open spec fn lines(s: Seq<char>) -> Seq<Seq<char>> {
    raw_lines(s).map_values(|l: Seq<char>| strip_ending(l))
}

/// How many bytes UTF-8 takes for `c`.
pub open spec fn utf8_width(c: char) -> nat {
    if (c as u32) < 0x80 {
        1
    } else if (c as u32) < 0x800 {
        2
    } else if (c as u32) < 0x10000 {
        3
    } else {
        4
    }
}

/// How many code units UTF-16 takes for `c`.
pub open spec fn utf16_width(c: char) -> nat {
    if (c as u32) < 0x10000 {
        1
    } else {
        2
    }
}

/// The UTF-16 length of the longest start of `line` whose UTF-8 length is
/// at most `bytes`: a byte column moved back to a character boundary and
/// counted in UTF-16 code units.
pub open spec fn units_within(line: Seq<char>, bytes: nat) -> nat
    decreases line.len(),
{
    if line.len() == 0 || utf8_width(line[0]) > bytes {
        0
    } else {
        utf16_width(line[0]) + units_within(line.drop_first(), (bytes - utf8_width(line[0])) as nat)
    }
}

/// The editor position of row `row`, byte column `byte_col` of `source`: a
/// row past the last line is an empty line, and a column past the end of
/// its line, or inside a character, is moved back to a character boundary.
/// Counts are cut to 32 bits.
pub open spec fn position_of(source: Seq<char>, row: usize, byte_col: usize) -> Position {
    let ls = lines(source);
    let line = if row < ls.len() {
        ls[row as int]
    } else {
        Seq::empty()
    };
    Position { line: row as u32, character: units_within(line, byte_col as nat) as u32 }
}

fn width8(c: char) -> (w: usize)
    ensures
        w == utf8_width(c),
{
    let u = c as u32;
    if u < 0x80 {
        1
    } else if u < 0x800 {
        2
    } else if u < 0x10000 {
        3
    } else {
        4
    }
}

/// The pieces of `s` that `split_inclusive('\n')` gives.
fn raw_lines_of(s: &Vec<char>) -> (r: Vec<Vec<char>>)
    ensures
        r@.map_values(|v: Vec<char>| v@) == raw_lines(s@),
{
    let mut r: Vec<Vec<char>> = Vec::new();
    let mut i: usize = 0;
    while i < s.len()
        invariant
            i <= s.len(),
            r@.map_values(|v: Vec<char>| v@) == raw_lines(s@.subrange(0, i as int)),
        decreases s.len() - i,
    {
        let ghost before = r@.map_values(|v: Vec<char>| v@);
        assert(s@.subrange(0, i + 1).drop_last() =~= s@.subrange(0, i as int));
        let n = r.len();
        let start_new = n == 0 || r[n - 1].len() == 0 || r[n - 1][r[n - 1].len() - 1] == '\n';
        if start_new {
            let mut piece: Vec<char> = Vec::new();
            piece.push(s[i]);
            r.push(piece);
            assert(r@.map_values(|v: Vec<char>| v@) =~= before.push(seq![s@[i as int]]));
        } else {
            let mut last = r.pop().unwrap();
            last.push(s[i]);
            r.push(last);
            assert(r@.map_values(|v: Vec<char>| v@) =~= before.update(
                before.len() - 1,
                before.last().push(s@[i as int]),
            ));
        }
        i = i + 1;
    }
    assert(s@.subrange(0, s.len() as int) =~= s@);
    r
}

/// Convert a row and byte column of `source` to an editor position.
pub fn point_to_position(source: &str, row: usize, byte_col: usize) -> (p: Position)
    ensures
        p == position_of(source@, row, byte_col),
{
    let chars = chars_of(source);
    let pieces = raw_lines_of(&chars);
    let ghost ls = lines(source@);
    assert(pieces@.map_values(|v: Vec<char>| v@).len() == pieces.len());
    let mut line: Vec<char> = Vec::new();
    if row < pieces.len() {
        let piece = &pieces[row];
        assert(pieces@.map_values(|v: Vec<char>| v@)[row as int] == piece@);
        let mut end = piece.len();
        if end > 0 && piece[end - 1] == '\n' {
            end = end - 1;
            if end > 0 && piece[end - 1] == '\r' {
                end = end - 1;
            }
        }
        let mut k: usize = 0;
        while k < end
            invariant
                k <= end <= piece.len(),
                line@ == piece@.subrange(0, k as int),
            decreases end - k,
        {
            line.push(piece[k]);
            k = k + 1;
            assert(line@ =~= piece@.subrange(0, k as int));
        }
        assert(line@ =~= strip_ending(piece@));
        assert(line@ == ls[row as int]);
    } else {
        assert(line@ =~= Seq::<char>::empty());
    }
    let mut units: usize = 0;
    let mut budget: usize = byte_col;
    let mut i: usize = 0;
    assert(line@.subrange(0, line@.len() as int) =~= line@);
    while i < line.len() && width8(line[i]) <= budget
        invariant
            i <= line.len(),
            units + budget <= byte_col,
            units_within(line@, byte_col as nat) == units + units_within(
                line@.subrange(i as int, line@.len() as int),
                budget as nat,
            ),
        decreases line.len() - i,
    {
        let w = width8(line[i]);
        assert(line@.subrange(i as int, line@.len() as int).drop_first() =~= line@.subrange(
            i + 1,
            line@.len() as int,
        ));
        units = units + if (line[i] as u32) < 0x10000 {
            1
        } else {
            2
        };
        budget = budget - w;
        i = i + 1;
    }
    Position { line: #[verifier::truncate] (row as u32), character: #[verifier::truncate] (units as u32) }
}

} // verus!
