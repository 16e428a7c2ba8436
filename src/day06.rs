use vstd::prelude::*;
use crate::text::{chars_of, line_spans, lines, string_from_chars, sub_chars};

verus! {

/// How many of `rows` hold `c` at position `i`.
pub open spec fn col_count(rows: Seq<Seq<char>>, i: int, c: char) -> nat
    decreases rows.len(),
{
    if rows.len() == 0 {
        0
    } else {
        col_count(rows.drop_last(), i, c) + if rows.last().len() > i && rows.last()[i] == c {
            1nat
        } else {
            0nat
        }
    }
}

/// The length of the longest of `rows`.
pub open spec fn width(rows: Seq<Seq<char>>) -> nat
    decreases rows.len(),
{
    if rows.len() == 0 {
        0
    } else {
        let w = width(rows.drop_last());
        if rows.last().len() > w {
            rows.last().len()
        } else {
            w
        }
    }
}

/// `c` is a most common character of column `i` (`most`), or a least common
/// one among those that occur there (`!most`).
pub open spec fn chosen(rows: Seq<Seq<char>>, i: int, c: char, most: bool) -> bool {
    &&& col_count(rows, i, c) > 0
    &&& forall|d: char|
        col_count(rows, i, d) > 0 ==> if most {
            #[trigger] col_count(rows, i, d) <= col_count(rows, i, c)
        } else {
            col_count(rows, i, c) <= col_count(rows, i, d)
        }
}

/// The message: one chosen character per column.
pub open spec fn message(rows: Seq<Seq<char>>, r: Seq<char>, most: bool) -> bool {
    r.len() == width(rows) && forall|i: int| 0 <= i < r.len() ==> #[trigger] chosen(rows, i, r[i], most)
}

proof fn lemma_width(rows: Seq<Seq<char>>, i: int)
    requires
        0 <= i < width(rows),
    ensures
        exists|c: char| col_count(rows, i, c) > 0,
    decreases rows.len(),
{
    let last = rows.last();
    if last.len() > i {
        assert(col_count(rows, i, last[i]) > 0);
    } else {
        lemma_width(rows.drop_last(), i);
        let c = choose|c: char| col_count(rows.drop_last(), i, c) > 0;
        assert(col_count(rows, i, c) > 0);
    }
}

/// The index of the pair whose key is `c`, or the length if there is none.
fn find_key(pairs: &Vec<(char, usize)>, c: char) -> (k: usize)
    ensures
        k <= pairs@.len(),
        forall|q: int| 0 <= q < k ==> (#[trigger] pairs@[q]).0 != c,
        k < pairs@.len() ==> pairs@[k as int].0 == c,
{
    let mut k: usize = 0;
    while k < pairs.len() && pairs[k].0 != c
        invariant
            k <= pairs@.len(),
            forall|q: int| 0 <= q < k ==> (#[trigger] pairs@[q]).0 != c,
        decreases pairs@.len() - k,
    {
        k = k + 1;
    }
    k
}

fn column_counts(rows: &Vec<Vec<char>>, i: usize) -> (r: Vec<(char, usize)>)
    ensures
        forall|k: int| 0 <= k < r@.len() ==> (#[trigger] r@[k]).1 == col_count(views(rows@), i as int, r@[k].0),
        forall|c: char| #[trigger] col_count(views(rows@), i as int, c) > 0 ==> exists|k: int| 0 <= k < r@.len() && (#[trigger] r@[k]).0 == c,
        forall|k: int| 0 <= k < r@.len() ==> (#[trigger] r@[k]).1 > 0,
{
    let ghost all = views(rows@);
    let mut pairs: Vec<(char, usize)> = Vec::new();
    let mut j: usize = 0;
    while j < rows.len()
        invariant
            j <= rows@.len(),
            all == views(rows@),
            forall|k: int| 0 <= k < pairs@.len() ==> (#[trigger] pairs@[k]).1 == col_count(all.take(j as int), i as int, pairs@[k].0),
            forall|k: int| 0 <= k < pairs@.len() ==> (#[trigger] pairs@[k]).1 > 0,
            forall|k: int| 0 <= k < pairs@.len() ==> (#[trigger] pairs@[k]).1 <= j,
            forall|c: char| #[trigger] col_count(all.take(j as int), i as int, c) > 0 ==> exists|k: int| 0 <= k < pairs@.len() && (#[trigger] pairs@[k]).0 == c,
            forall|a: int, b: int| 0 <= a < b < pairs@.len() ==> (#[trigger] pairs@[a]).0 != (#[trigger] pairs@[b]).0,
        decreases rows@.len() - j,
    {
        let ghost before = pairs@;
        proof {
            assert(all.take(j + 1).drop_last() =~= all.take(j as int));
            assert(all.take(j + 1).last() == rows@[j as int]@);
        }
        if i < rows[j].len() {
            let c = rows[j][i];
            let k = find_key(&pairs, c);
            proof {
                let rowv = all.take(j + 1).last();
                assert(rowv == rows@[j as int]@);
                assert(rowv.len() > i && rowv[i as int] == c);
                if k == pairs@.len() && col_count(all.take(j as int), i as int, c) > 0 {
                    let z = choose|z: int| 0 <= z < before.len() && (#[trigger] before[z]).0 == c;
                    assert(before[z].0 != c);
                }
            }
            if k < pairs.len() {
                let n = pairs[k].1;
                pairs.set(k, (c, n + 1));
            } else {
                pairs.push((c, 1));
            }
            proof {
                assert forall|q: int| 0 <= q < pairs@.len() implies (#[trigger] pairs@[q]).1 == col_count(
                    all.take(j + 1),
                    i as int,
                    pairs@[q].0,
                ) by {
                    if q < before.len() && q != k {
                        assert(pairs@[q] == before[q]);
                        if k < before.len() {
                            assert(before[k as int].0 == c);
                        }
                        assert(before[q].0 != c);
                    }
                }
                assert forall|d: char| #[trigger] col_count(all.take(j + 1), i as int, d) > 0 implies exists|q: int|
                    0 <= q < pairs@.len() && (#[trigger] pairs@[q]).0 == d by {
                    if d == c {
                        assert(pairs@[k as int].0 == c);
                    } else {
                        assert(col_count(all.take(j as int), i as int, d) > 0);
                        let q = choose|q: int| 0 <= q < before.len() && (#[trigger] before[q]).0 == d;
                        assert(pairs@[q].0 == d);
                    }
                }
                assert forall|a: int, b: int| 0 <= a < b < pairs@.len() implies (#[trigger] pairs@[a]).0
                    != (#[trigger] pairs@[b]).0 by {
                    if b < before.len() {
                        if a != k && b != k {
                            assert(pairs@[a] == before[a] && pairs@[b] == before[b]);
                        } else if a == k {
                            assert(pairs@[b] == before[b]);
                        } else {
                            assert(pairs@[a] == before[a]);
                        }
                    } else {
                        assert(pairs@[a] == before[a]);
                    }
                }
                assert forall|q: int| 0 <= q < pairs@.len() implies (#[trigger] pairs@[q]).1 <= j + 1 by {
                    if q < before.len() && q != k {
                        assert(pairs@[q] == before[q]);
                    }
                }
            }
        } else {
            proof {
                assert forall|q: int| 0 <= q < pairs@.len() implies (#[trigger] pairs@[q]).1 == col_count(
                    all.take(j + 1),
                    i as int,
                    pairs@[q].0,
                ) by {
                }
                assert forall|d: char| #[trigger] col_count(all.take(j + 1), i as int, d) > 0 implies exists|q: int|
                    0 <= q < pairs@.len() && (#[trigger] pairs@[q]).0 == d by {
                    assert(col_count(all.take(j as int), i as int, d) > 0);
                }
            }
        }
        j = j + 1;
    }
    proof {
        assert(all.take(j as int) =~= all);
    }
    pairs
}

pub open spec fn views(v: Seq<Vec<char>>) -> Seq<Seq<char>> {
    v.map_values(|x: Vec<char>| x@)
}

fn pick(pairs: &Vec<(char, usize)>, most: bool) -> (r: (char, usize))
    requires
        pairs@.len() > 0,
    ensures
        exists|k: int| 0 <= k < pairs@.len() && pairs@[k] == r,
        forall|k: int|
            0 <= k < pairs@.len() ==> if most {
                (#[trigger] pairs@[k]).1 <= r.1
            } else {
                r.1 <= (#[trigger] pairs@[k]).1
            },
{
    let mut best = pairs[0];
    let mut k: usize = 1;
    while k < pairs.len()
        invariant
            1 <= k <= pairs@.len(),
            exists|q: int| 0 <= q < pairs@.len() && pairs@[q] == best,
            forall|q: int|
                0 <= q < k ==> if most {
                    (#[trigger] pairs@[q]).1 <= best.1
                } else {
                    best.1 <= (#[trigger] pairs@[q]).1
                },
        decreases pairs@.len() - k,
    {
        let p = pairs[k];
        if (most && p.1 > best.1) || (!most && p.1 < best.1) {
            best = p;
        }
        k = k + 1;
    }
    best
}

fn read_rows(input: &str) -> (r: Vec<Vec<char>>)
    ensures
        views(r@) == lines(input@),
{
    let cs = chars_of(input);
    let spans = line_spans(&cs);
    let ghost ls = lines(input@);
    let mut r: Vec<Vec<char>> = Vec::new();
    let mut i: usize = 0;
    while i < spans.len()
        invariant
            ls == lines(input@),
            cs@ == input@,
            spans@.len() == ls.len(),
            forall|k: int| #![trigger spans@[k]] 0 <= k < spans@.len() ==> spans@[k].0 <= spans@[k].1 <= cs@.len(),
            forall|k: int|
                0 <= k < spans@.len() ==> #[trigger] ls[k] == cs@.subrange(
                    spans@[k].0 as int,
                    spans@[k].1 as int,
                ),
            i <= spans@.len(),
            views(r@) == ls.take(i as int),
        decreases spans@.len() - i,
    {
        let (st, en) = spans[i];
        proof {
            assert(ls[i as int] == cs@.subrange(st as int, en as int));
        }
        let row = sub_chars(&cs, st, en);
        let ghost before = r@;
        r.push(row);
        proof {
            assert(views(r@) =~= views(before).push(row@));
            assert(views(r@) =~= ls.take(i + 1));
        }
        i = i + 1;
    }
    proof {
        assert(ls.take(i as int) =~= ls);
    }
    r
}

fn row_width(rows: &Vec<Vec<char>>) -> (w: usize)
    ensures
        w == width(views(rows@)),
{
    let mut w: usize = 0;
    let mut j: usize = 0;
    while j < rows.len()
        invariant
            j <= rows@.len(),
            w == width(views(rows@).take(j as int)),
        decreases rows@.len() - j,
    {
        proof {
            assert(views(rows@).take(j + 1).drop_last() =~= views(rows@).take(j as int));
        }
        if rows[j].len() > w {
            w = rows[j].len();
        }
        j = j + 1;
    }
    proof {
        assert(views(rows@).take(j as int) =~= views(rows@));
    }
    w
}

/// The message read off `input` column by column: the most common
/// character of each column (`most`), or the least common one.
pub fn solver(input: &str, most: bool) -> (r: String)
    ensures
        message(lines(input@), r@, most),
{
    let rows = read_rows(input);
    let w = row_width(&rows);
    let ghost all = views(rows@);
    let mut out: Vec<char> = Vec::new();
    let mut i: usize = 0;
    while i < w
        invariant
            all == views(rows@),
            all == lines(input@),
            w == width(all),
            i <= w,
            out@.len() == i,
            forall|q: int| 0 <= q < i ==> #[trigger] chosen(all, q, out@[q], most),
        decreases w - i,
    {
        let pairs = column_counts(&rows, i);
        proof {
            lemma_width(all, i as int);
            let c = choose|c: char| col_count(all, i as int, c) > 0;
            let k = choose|k: int| 0 <= k < pairs@.len() && (#[trigger] pairs@[k]).0 == c;
        }
        let (c, n) = pick(&pairs, most);
        proof {
            assert forall|d: char| col_count(all, i as int, d) > 0 implies if most {
                #[trigger] col_count(all, i as int, d) <= col_count(all, i as int, c)
            } else {
                col_count(all, i as int, c) <= col_count(all, i as int, d)
            } by {
                let k = choose|k: int| 0 <= k < pairs@.len() && (#[trigger] pairs@[k]).0 == d;
                assert(pairs@[k].1 == col_count(all, i as int, d));
            }
            let q = choose|q: int| 0 <= q < pairs@.len() && pairs@[q] == (c, n);
            assert(pairs@[q].1 > 0);
        }
        out.push(c);
        proof {
            assert forall|q: int| 0 <= q < i + 1 implies #[trigger] chosen(all, q, out@[q], most) by {
                if q < i {
                    assert(chosen(all, q, out@[q], most));
                }
            }
        }
        i = i + 1;
    }
    string_from_chars(&out)
}

/// The most common character of each column.
pub fn solve(input: &str) -> (r: String)
    ensures
        message(lines(input@), r@, true),
{
    solver(input, true)
}

/// The least common character of each column.
pub fn solve2(input: &str) -> (r: String)
    ensures
        message(lines(input@), r@, false),
{
    solver(input, false)
}

} // verus!
