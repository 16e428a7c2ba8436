use vstd::prelude::*;
use crate::loader::{literal_of, parse_literal};
use crate::text::{chars_of, line_spans, lines, sub_chars, word_spans, words};

verus! {

/// Three lengths that make a triangle: each side shorter than the other two together.
pub open spec fn triangle(a: int, b: int, c: int) -> bool {
    a + b > c && a + c > b && b + c > a
}

/// Side `k` written on `line`.
pub open spec fn side(line: Seq<char>, k: int) -> int {
    literal_of(words(line)[k])->0 as int
}

/// A line of three whitespace-separated `i32` numbers.
pub open spec fn three_numbers(line: Seq<char>) -> bool {
    &&& words(line).len() == 3
    &&& forall|k: int| 0 <= k < 3 ==> (#[trigger] literal_of(words(line)[k])) is Some
}

pub open spec fn valid_input(input: Seq<char>) -> bool {
    forall|k: int| 0 <= k < lines(input).len() ==> #[trigger] three_numbers(lines(input)[k])
}

/// The number of lines among the first `n` that are triangles.
pub open spec fn count_rows(ls: Seq<Seq<char>>, n: nat) -> nat
    decreases n,
{
    if n == 0 {
        0
    } else {
        count_rows(ls, (n - 1) as nat) + if triangle(
            side(ls[n - 1], 0),
            side(ls[n - 1], 1),
            side(ls[n - 1], 2),
        ) {
            1nat
        } else {
            0nat
        }
    }
}

/// The number of column triangles in the first `n` groups of three lines:
/// each group gives three triangles, one per column.
pub open spec fn count_columns(ls: Seq<Seq<char>>, n: nat) -> nat
    decreases n,
{
    if n == 0 {
        0
    } else {
        let g = 3 * (n - 1);
        count_columns(ls, (n - 1) as nat) + (if triangle(side(ls[g], 0), side(ls[g + 1], 0), side(ls[g + 2], 0)) {
            1nat
        } else {
            0nat
        }) + (if triangle(side(ls[g], 1), side(ls[g + 1], 1), side(ls[g + 2], 1)) {
            1nat
        } else {
            0nat
        }) + (if triangle(side(ls[g], 2), side(ls[g + 1], 2), side(ls[g + 2], 2)) {
            1nat
        } else {
            0nat
        })
    }
}

/// The three sides written on a line.
fn read_sides(line: &Vec<char>) -> (r: (i64, i64, i64))
    requires
        three_numbers(line@),
    ensures
        r.0 == side(line@, 0),
        r.1 == side(line@, 1),
        r.2 == side(line@, 2),
{
    let w = word_spans(line);
    proof {
        assert(literal_of(words(line@)[0]) is Some);
        assert(literal_of(words(line@)[1]) is Some);
        assert(literal_of(words(line@)[2]) is Some);
        assert(words(line@)[0] == line@.subrange(w@[0].0 as int, w@[0].1 as int));
        assert(words(line@)[1] == line@.subrange(w@[1].0 as int, w@[1].1 as int));
        assert(words(line@)[2] == line@.subrange(w@[2].0 as int, w@[2].1 as int));
        assert(w@[0].0 <= w@[0].1 <= line@.len());
        assert(w@[1].0 <= w@[1].1 <= line@.len());
        assert(w@[2].0 <= w@[2].1 <= line@.len());
    }
    let a = parse_literal(&sub_chars(line, w[0].0, w[0].1));
    let b = parse_literal(&sub_chars(line, w[1].0, w[1].1));
    let c = parse_literal(&sub_chars(line, w[2].0, w[2].1));
    match (a, b, c) {
        (Some(a), Some(b), Some(c)) => (a as i64, b as i64, c as i64),
        _ => (0, 0, 0),
    }
}

fn is_triangle(a: i64, b: i64, c: i64) -> (r: bool)
    requires
        i32::MIN <= a <= i32::MAX,
        i32::MIN <= b <= i32::MAX,
        i32::MIN <= c <= i32::MAX,
    ensures
        r == triangle(a as int, b as int, c as int),
{
    a + b > c && a + c > b && b + c > a
}

/// The sides of every line of `input`.
fn read_all(input: &str) -> (r: Vec<(i64, i64, i64)>)
    requires
        valid_input(input@),
    ensures
        r@.len() == lines(input@).len(),
        forall|k: int|
            0 <= k < r@.len() ==> {
                &&& (#[trigger] r@[k]).0 == side(lines(input@)[k], 0)
                &&& r@[k].1 == side(lines(input@)[k], 1)
                &&& r@[k].2 == side(lines(input@)[k], 2)
            },
{
    let cs = chars_of(input);
    let spans = line_spans(&cs);
    let ghost ls = lines(input@);
    let mut r: Vec<(i64, i64, i64)> = Vec::new();
    let mut i: usize = 0;
    while i < spans.len()
        invariant
            ls == lines(input@),
            valid_input(input@),
            cs@ == input@,
            spans@.len() == ls.len(),
            forall|k: int| #![trigger spans@[k]] 0 <= k < spans@.len() ==> spans@[k].0 <= spans@[k].1 <= cs@.len(),
            forall|k: int|
                0 <= k < spans@.len() ==> #[trigger] ls[k] == cs@.subrange(
                    spans@[k].0 as int,
                    spans@[k].1 as int,
                ),
            i <= spans@.len(),
            r@.len() == i,
            forall|k: int|
                0 <= k < i ==> {
                    &&& (#[trigger] r@[k]).0 == side(ls[k], 0)
                    &&& r@[k].1 == side(ls[k], 1)
                    &&& r@[k].2 == side(ls[k], 2)
                },
        decreases spans@.len() - i,
    {
        let (st, en) = spans[i];
        proof {
            assert(ls[i as int] == cs@.subrange(st as int, en as int));
            assert(three_numbers(ls[i as int]));
        }
        let line = sub_chars(&cs, st, en);
        let t = read_sides(&line);
        let ghost before = r@;
        r.push(t);
        proof {
            assert forall|k: int| 0 <= k < i + 1 implies {
                &&& (#[trigger] r@[k]).0 == side(ls[k], 0)
                &&& r@[k].1 == side(ls[k], 1)
                &&& r@[k].2 == side(ls[k], 2)
            } by {
                if k < i {
                    assert(r@[k] == before[k]);
                }
            }
        }
        i = i + 1;
    }
    r
}

/// The number of lines whose three numbers make a triangle.
pub fn solve(input: &str) -> (r: usize)
    requires
        valid_input(input@),
    ensures
        r == count_rows(lines(input@), lines(input@).len()),
{
    let rows = read_all(input);
    let ghost ls = lines(input@);
    let mut count: usize = 0;
    let mut i: usize = 0;
    while i < rows.len()
        invariant
            i <= rows@.len() == ls.len(),
            ls == lines(input@),
            valid_input(input@),
            forall|k: int|
                0 <= k < rows@.len() ==> {
                    &&& (#[trigger] rows@[k]).0 == side(ls[k], 0)
                    &&& rows@[k].1 == side(ls[k], 1)
                    &&& rows@[k].2 == side(ls[k], 2)
                },
            count == count_rows(ls, i as nat),
            count <= i,
        decreases rows@.len() - i,
    {
        let (a, b, c) = rows[i];
        proof {
            assert(rows@[i as int].0 == side(ls[i as int], 0));
            assert(three_numbers(ls[i as int]));
            assert(literal_of(words(ls[i as int])[0]) is Some);
            assert(literal_of(words(ls[i as int])[1]) is Some);
            assert(literal_of(words(ls[i as int])[2]) is Some);
        }
        if is_triangle(a, b, c) {
            count = count + 1;
        }
        i = i + 1;
    }
    count
}

/// The number of column triangles: lines are taken three at a time, and each
/// column of such a group is one triangle.
pub fn solve2(input: &str) -> (r: usize)
    requires
        valid_input(input@),
        lines(input@).len() % 3 == 0,
    ensures
        r == count_columns(lines(input@), lines(input@).len() / 3),
{
    let rows = read_all(input);
    let ghost ls = lines(input@);
    let n = rows.len();
    let groups = n / 3;
    assert(3 * groups == rows@.len());
    let mut count: usize = 0;
    let mut g: usize = 0;
    while g < groups
        invariant
            g <= groups,
            3 * groups == rows@.len(),
            n == rows@.len(),
            rows@.len() == ls.len(),
            ls == lines(input@),
            valid_input(input@),
            forall|k: int|
                0 <= k < rows@.len() ==> {
                    &&& (#[trigger] rows@[k]).0 == side(ls[k], 0)
                    &&& rows@[k].1 == side(ls[k], 1)
                    &&& rows@[k].2 == side(ls[k], 2)
                },
            count == count_columns(ls, g as nat),
            count <= 3 * g,
        decreases groups - g,
    {
        assert(3 * g + 2 < rows@.len());
        let x = rows[3 * g];
        let y = rows[3 * g + 1];
        let z = rows[3 * g + 2];
        proof {
            assert(rows@[3 * g as int] == x);
            assert(rows@[3 * g + 1] == y);
            assert(rows@[3 * g + 2] == z);
            assert forall|j: int| 3 * g <= j < 3 * g + 3 implies (#[trigger] literal_of(words(ls[j])[0])) is Some
                && literal_of(words(ls[j])[1]) is Some && literal_of(words(ls[j])[2]) is Some by {
                assert(three_numbers(ls[j]));
            }
        }
        let mut add: usize = 0;
        if is_triangle(x.0, y.0, z.0) {
            add = add + 1;
        }
        if is_triangle(x.1, y.1, z.1) {
            add = add + 1;
        }
        if is_triangle(x.2, y.2, z.2) {
            add = add + 1;
        }
        count = count + add;
        g = g + 1;
    }
    count
}

} // verus!
