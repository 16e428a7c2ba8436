use vstd::prelude::*;
use crate::text::{chars_of, line_spans, lines, string_from_chars};

verus! {

/// A position on a keypad: column, then row.
pub type Pos = (int, int);

/// One move on the three by three keypad; moves off the edge are ignored.
pub open spec fn step_square(p: Pos, c: char) -> Pos {
    if c == 'L' {
        (if p.0 > 0 { p.0 - 1 } else { 0 }, p.1)
    } else if c == 'R' {
        (if p.0 < 2 { p.0 + 1 } else { 2 }, p.1)
    } else if c == 'U' {
        (p.0, if p.1 > 0 { p.1 - 1 } else { 0 })
    } else if c == 'D' {
        (p.0, if p.1 < 2 { p.1 + 1 } else { 2 })
    } else {
        p
    }
}

/// The position after the first `n` moves of `line`.
pub open spec fn walk_square(p: Pos, line: Seq<char>, n: nat) -> Pos
    decreases n,
{
    if n == 0 {
        p
    } else {
        step_square(walk_square(p, line, (n - 1) as nat), line[n - 1])
    }
}

/// The position and the code so far after the first `n` lines, from the `5` key.
pub open spec fn square_code(ls: Seq<Seq<char>>, n: nat) -> (Pos, int)
    decreases n,
{
    if n == 0 {
        ((1, 1), 0)
    } else {
        let (p, v) = square_code(ls, (n - 1) as nat);
        let q = walk_square(p, ls[n - 1], ls[n - 1].len());
        (q, v * 10 + (1 + q.0 + 3 * q.1))
    }
}

/// The five by five diamond keypad, row by row; a space is no key.
pub open spec fn diamond(p: Pos) -> char {
    if 0 <= p.0 < 5 && 0 <= p.1 < 5 {
        "  1   234 56789 ABC   D  "@[p.1 * 5 + p.0]
    } else {
        ' '
    }
}

/// One move on the diamond keypad: taken only when it lands on a key.
pub open spec fn step_diamond(p: Pos, c: char) -> Pos {
    let n = if c == 'L' {
        (if p.0 > 0 { p.0 - 1 } else { 0 }, p.1)
    } else if c == 'R' {
        (if p.0 < 4 { p.0 + 1 } else { 4 }, p.1)
    } else if c == 'U' {
        (p.0, if p.1 > 0 { p.1 - 1 } else { 0 })
    } else if c == 'D' {
        (p.0, if p.1 < 4 { p.1 + 1 } else { 4 })
    } else {
        p
    };
    if diamond(n) != ' ' {
        n
    } else {
        p
    }
}

pub open spec fn walk_diamond(p: Pos, line: Seq<char>, n: nat) -> Pos
    decreases n,
{
    if n == 0 {
        p
    } else {
        step_diamond(walk_diamond(p, line, (n - 1) as nat), line[n - 1])
    }
}

/// The position after the first `n` lines on the diamond, from the `5` key.
pub open spec fn diamond_pos(ls: Seq<Seq<char>>, n: nat) -> Pos
    decreases n,
{
    if n == 0 {
        (0, 2)
    } else {
        let p = diamond_pos(ls, (n - 1) as nat);
        walk_diamond(p, ls[n - 1], ls[n - 1].len())
    }
}

fn read_lines(input: &str) -> (r: Vec<Vec<char>>)
    ensures
        r@.map_values(|l: Vec<char>| l@) == lines(input@),
{
    let cs = chars_of(input);
    let spans = line_spans(&cs);
    let ghost ls = lines(input@);
    let mut r: Vec<Vec<char>> = Vec::new();
    let mut i: usize = 0;
    while i < spans.len()
        invariant
            ls == lines(input@),
            cs@ == input@,
            spans@.len() == ls.len(),
            forall|k: int| #![trigger spans@[k]] 0 <= k < spans@.len() ==> spans@[k].0 <= spans@[k].1 <= cs@.len(),
            forall|k: int|
                0 <= k < spans@.len() ==> #[trigger] ls[k] == cs@.subrange(spans@[k].0 as int, spans@[k].1 as int),
            i <= spans@.len(),
            r@.map_values(|l: Vec<char>| l@) == ls.take(i as int),
        decreases spans@.len() - i,
    {
        let (st, en) = spans[i];
        proof {
            assert(ls[i as int] == cs@.subrange(st as int, en as int));
        }
        let line = crate::text::sub_chars(&cs, st, en);
        let ghost before = r@;
        r.push(line);
        proof {
            assert(r@.map_values(|l: Vec<char>| l@) =~= before.map_values(|l: Vec<char>| l@).push(line@));
            assert(r@.map_values(|l: Vec<char>| l@) =~= ls.take(i + 1));
        }
        i = i + 1;
    }
    proof {
        assert(ls.take(i as int) =~= ls);
    }
    r
}

proof fn lemma_walk_square_range(p: Pos, line: Seq<char>, n: nat)
    requires
        0 <= p.0 <= 2 && 0 <= p.1 <= 2,
    ensures
        0 <= walk_square(p, line, n).0 <= 2 && 0 <= walk_square(p, line, n).1 <= 2,
    decreases n,
{
    if n > 0 {
        lemma_walk_square_range(p, line, (n - 1) as nat);
    }
}

proof fn lemma_square_code(ls: Seq<Seq<char>>, n: nat)
    requires
        n <= ls.len(),
    ensures
        0 <= square_code(ls, n).0.0 <= 2 && 0 <= square_code(ls, n).0.1 <= 2,
        square_code(ls, n).1 >= 0,
    decreases n,
{
    if n > 0 {
        lemma_square_code(ls, (n - 1) as nat);
        let (p, v) = square_code(ls, (n - 1) as nat);
        lemma_walk_square_range(p, ls[n - 1], ls[n - 1].len());
    }
}

proof fn lemma_square_code_grows(ls: Seq<Seq<char>>, m: nat, n: nat)
    requires
        m <= n <= ls.len(),
    ensures
        square_code(ls, m).1 <= square_code(ls, n).1,
    decreases n - m,
{
    if m < n {
        lemma_square_code_grows(ls, m, (n - 1) as nat);
        lemma_square_code(ls, (n - 1) as nat);
        let (p, v) = square_code(ls, (n - 1) as nat);
        lemma_walk_square_range(p, ls[n - 1], ls[n - 1].len());
    }
}

fn walk_square_line(x: usize, y: usize, line: &Vec<char>) -> (r: (usize, usize))
    requires
        x <= 2 && y <= 2,
    ensures
        r.0 <= 2 && r.1 <= 2,
        (r.0 as int, r.1 as int) == walk_square((x as int, y as int), line@, line@.len()),
{
    let mut cx = x;
    let mut cy = y;
    let mut k: usize = 0;
    while k < line.len()
        invariant
            k <= line@.len(),
            cx <= 2 && cy <= 2,
            (cx as int, cy as int) == walk_square((x as int, y as int), line@, k as nat),
        decreases line@.len() - k,
    {
        let c = line[k];
        if c == 'L' {
            if cx > 0 {
                cx = cx - 1;
            }
        } else if c == 'R' {
            if cx < 2 {
                cx = cx + 1;
            }
        } else if c == 'U' {
            if cy > 0 {
                cy = cy - 1;
            }
        } else if c == 'D' {
            if cy < 2 {
                cy = cy + 1;
            }
        }
        k = k + 1;
    }
    (cx, cy)
}

/// The bathroom code on the square keypad, as a number.
pub fn solve(input: &str) -> (r: i32)
    requires
        square_code(lines(input@), lines(input@).len()).1 <= i32::MAX,
    ensures
        r == square_code(lines(input@), lines(input@).len()).1,
{
    let rows = read_lines(input);
    let ghost ls = lines(input@);
    let mut x: usize = 1;
    let mut y: usize = 1;
    let mut value: i32 = 0;
    let mut i: usize = 0;
    while i < rows.len()
        invariant
            rows@.map_values(|l: Vec<char>| l@) == ls,
            ls == lines(input@),
            i <= rows@.len(),
            square_code(ls, ls.len()).1 <= i32::MAX,
            square_code(ls, i as nat) == ((x as int, y as int), value as int),
            x <= 2 && y <= 2,
            value >= 0,
        decreases rows@.len() - i,
    {
        proof {
            assert(ls[i as int] == rows@[i as int]@);
            lemma_square_code_grows(ls, (i + 1) as nat, ls.len());
        }
        let (nx, ny) = walk_square_line(x, y, &rows[i]);
        value = value * 10 + (1 + nx + 3 * ny) as i32;
        x = nx;
        y = ny;
        i = i + 1;
    }
    value
}

fn diamond_key(x: usize, y: usize) -> (r: char)
    requires
        x < 5 && y < 5,
    ensures
        r == diamond((x as int, y as int)),
{
    let pad = "  1   234 56789 ABC   D  ";
    proof {
        reveal_strlit("  1   234 56789 ABC   D  ");
    }
    pad.get_char(y * 5 + x)
}

fn walk_diamond_line(x: usize, y: usize, line: &Vec<char>) -> (r: (usize, usize))
    requires
        x <= 4 && y <= 4,
    ensures
        r.0 <= 4 && r.1 <= 4,
        (r.0 as int, r.1 as int) == walk_diamond((x as int, y as int), line@, line@.len()),
{
    let mut cx = x;
    let mut cy = y;
    let mut k: usize = 0;
    while k < line.len()
        invariant
            k <= line@.len(),
            cx <= 4 && cy <= 4,
            (cx as int, cy as int) == walk_diamond((x as int, y as int), line@, k as nat),
        decreases line@.len() - k,
    {
        let c = line[k];
        let mut nx = cx;
        let mut ny = cy;
        if c == 'L' {
            if cx > 0 {
                nx = cx - 1;
            }
        } else if c == 'R' {
            if cx < 4 {
                nx = cx + 1;
            }
        } else if c == 'U' {
            if cy > 0 {
                ny = cy - 1;
            }
        } else if c == 'D' {
            if cy < 4 {
                ny = cy + 1;
            }
        }
        if diamond_key(nx, ny) != ' ' {
            cx = nx;
            cy = ny;
        }
        k = k + 1;
    }
    (cx, cy)
}

/// The bathroom code on the diamond keypad: one key per line.
pub fn solve2(input: &str) -> (r: String)
    ensures
        r@ == Seq::new(lines(input@).len(), |i: int| diamond(diamond_pos(lines(input@), (i + 1) as nat))),
{
    let rows = read_lines(input);
    let ghost ls = lines(input@);
    let mut x: usize = 0;
    let mut y: usize = 2;
    let mut out: Vec<char> = Vec::new();
    let mut i: usize = 0;
    while i < rows.len()
        invariant
            rows@.map_values(|l: Vec<char>| l@) == ls,
            ls == lines(input@),
            i <= rows@.len(),
            diamond_pos(ls, i as nat) == (x as int, y as int),
            x <= 4 && y <= 4,
            out@ == Seq::new(i as nat, |q: int| diamond(diamond_pos(ls, (q + 1) as nat))),
        decreases rows@.len() - i,
    {
        proof {
            assert(ls[i as int] == rows@[i as int]@);
        }
        let (nx, ny) = walk_diamond_line(x, y, &rows[i]);
        x = nx;
        y = ny;
        out.push(diamond_key(x, y));
        i = i + 1;
        proof {
            assert(out@ =~= Seq::new(i as nat, |q: int| diamond(diamond_pos(ls, (q + 1) as nat))));
        }
    }
    string_from_chars(&out)
}

} // verus!
