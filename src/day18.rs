use vstd::prelude::*;
use crate::text::{chars_of, string_from_chars};

verus! {

/// A tile is safe when its left and right neighbours above agree.
pub open spec fn safe_below(t: (bool, bool, bool)) -> bool {
    t.0 == t.2
}

/// The row under `row`: tiles past either edge count as safe.
pub open spec fn next_row(row: Seq<bool>) -> Seq<bool> {
    Seq::new(
        row.len(),
        |i: int|
            {
                let left = if i == 0 { true } else { row[i - 1] };
                let right = if i + 1 < row.len() { row[i + 1] } else { true };
                left == right
            },
    )
}

/// Row `k` below `first`.
pub open spec fn row_at(first: Seq<bool>, k: nat) -> Seq<bool>
    decreases k,
{
    if k == 0 {
        first
    } else {
        next_row(row_at(first, (k - 1) as nat))
    }
}

/// The number of safe tiles in a row.
pub open spec fn count_safe(row: Seq<bool>) -> nat
    decreases row.len(),
{
    if row.len() == 0 {
        0
    } else {
        count_safe(row.drop_last()) + if row.last() {
            1nat
        } else {
            0nat
        }
    }
}

/// The number of safe tiles in the first `rows` rows.
pub open spec fn total_safe(first: Seq<bool>, rows: nat) -> nat
    decreases rows,
{
    if rows == 0 {
        0
    } else {
        total_safe(first, (rows - 1) as nat) + count_safe(row_at(first, (rows - 1) as nat))
    }
}

/// Whether the tile under the three tiles `t` is safe: it is a trap exactly
/// when the left and right tiles above differ.
pub fn is_safe(t: (bool, bool, bool)) -> (r: bool)
    ensures
        r == safe_below(t),
{
    match t {
        (false, false, true) => false,
        (true, false, false) => false,
        (true, true, false) => false,
        (false, true, true) => false,
        _ => true,
    }
}

/// The row under `curr`.
pub fn next_line(curr: &[bool]) -> (r: Vec<bool>)
    ensures
        r@ == next_row(curr@),
{
    let n = curr.len();
    let mut r: Vec<bool> = Vec::new();
    let mut i: usize = 0;
    while i < n
        invariant
            n == curr@.len(),
            i <= n,
            r@ =~= next_row(curr@).take(i as int),
        decreases n - i,
    {
        let left = if i == 0 { true } else { curr[i - 1] };
        let centre = curr[i];
        let right = if i + 1 < n { curr[i + 1] } else { true };
        r.push(is_safe((left, centre, right)));
        i = i + 1;
        proof {
            assert(r@ =~= next_row(curr@).take(i as int));
        }
    }
    proof {
        assert(next_row(curr@).take(n as int) =~= next_row(curr@));
    }
    r
}

/// A row written with `.` for a safe tile and anything else for a trap.
pub fn parse(s: &str) -> (r: Vec<bool>)
    ensures
        r@ == Seq::new(s@.len(), |i: int| s@[i] == '.'),
{
    let cs = chars_of(s);
    let n = cs.len();
    let mut r: Vec<bool> = Vec::new();
    let mut i: usize = 0;
    while i < n
        invariant
            n == cs@.len(),
            cs@ == s@,
            i <= n,
            r@ =~= Seq::new(i as nat, |k: int| s@[k] == '.'),
        decreases n - i,
    {
        r.push(cs[i] == '.');
        i = i + 1;
        proof {
            assert(r@ =~= Seq::new(i as nat, |k: int| s@[k] == '.'));
        }
    }
    r
}

/// A row written back: `.` for a safe tile, `^` for a trap.
pub fn view(l: &[bool]) -> (r: String)
    ensures
        r@ == Seq::new(l@.len(), |i: int| if l@[i] { '.' } else { '^' }),
{
    let n = l.len();
    let mut v: Vec<char> = Vec::new();
    let mut i: usize = 0;
    while i < n
        invariant
            n == l@.len(),
            i <= n,
            v@ =~= Seq::new(i as nat, |k: int| if l@[k] { '.' } else { '^' }),
        decreases n - i,
    {
        v.push(if l[i] { '.' } else { '^' });
        i = i + 1;
        proof {
            assert(v@ =~= Seq::new(i as nat, |k: int| if l@[k] { '.' } else { '^' }));
        }
    }
    string_from_chars(&v)
}

proof fn lemma_count_safe_bound(row: Seq<bool>)
    ensures
        count_safe(row) <= row.len(),
    decreases row.len(),
{
    if row.len() > 0 {
        lemma_count_safe_bound(row.drop_last());
    }
}

fn count_line(line: &Vec<bool>) -> (r: usize)
    ensures
        r == count_safe(line@),
{
    let n = line.len();
    let mut c: usize = 0;
    let mut i: usize = 0;
    while i < n
        invariant
            n == line@.len(),
            i <= n,
            c == count_safe(line@.take(i as int)),
            c <= i,
        decreases n - i,
    {
        proof {
            assert(line@.take(i + 1).drop_last() =~= line@.take(i as int));
        }
        if line[i] {
            c = c + 1;
        }
        i = i + 1;
    }
    proof {
        assert(line@.take(n as int) =~= line@);
    }
    c
}

/// The number of safe tiles in `rows` rows, the first written in `input`.
pub fn safe(input: &str, rows: usize) -> (r: usize)
    requires
        rows >= 1,
        rows * input@.len() <= usize::MAX,
    ensures
        r == total_safe(Seq::new(input@.len(), |i: int| input@[i] == '.'), rows as nat),
{
    let ghost first = Seq::new(input@.len(), |i: int| input@[i] == '.');
    let mut line = parse(input);
    let n = line.len();
    let mut count = count_line(&line);
    let mut k: usize = 1;
    proof {
        lemma_count_safe_bound(first);
        assert(line@ =~= first);
        assert(row_at(first, 0) == first);
        assert(total_safe(first, 0) == 0);
        assert(total_safe(first, 1) == count_safe(first));
    }
    while k < rows
        invariant
            1 <= k <= rows,
            rows * n <= usize::MAX,
            n == first.len(),
            line@ == row_at(first, (k - 1) as nat),
            line@.len() == n,
            count == total_safe(first, k as nat),
            count <= k * n,
        decreases rows - k,
    {
        line = next_line(&line);
        let c = count_line(&line);
        proof {
            lemma_count_safe_bound(line@);
            assert((k + 1) * n <= rows * n) by (nonlinear_arith)
                requires
                    k + 1 <= rows,
            ;
            assert((k + 1) * n == k * n + n) by (nonlinear_arith);
        }
        count = count + c;
        k = k + 1;
    }
    count
}

/// Safe tiles in forty rows.
pub fn solve(input: &str) -> (r: usize)
    requires
        40 * input@.len() <= usize::MAX,
    ensures
        r == total_safe(Seq::new(input@.len(), |i: int| input@[i] == '.'), 40),
{
    safe(input, 40)
}

/// Safe tiles in 400000 rows.
pub fn solve2(input: &str) -> (r: usize)
    requires
        400000 * input@.len() <= usize::MAX,
    ensures
        r == total_safe(Seq::new(input@.len(), |i: int| input@[i] == '.'), 400000),
{
    safe(input, 400000)
}

} // verus!
