use vstd::prelude::*;
use crate::loader::{literal_of, parse_literal};
use crate::text::{chars_of, sub_chars};

verus! {

/// The index of the first `, ` in `s`, or its length.
pub open spec fn sep_index(s: Seq<char>) -> nat
    decreases s.len(),
{
    if s.len() < 2 {
        s.len()
    } else if s[0] == ',' && s[1] == ' ' {
        0
    } else {
        1 + sep_index(s.drop_first())
    }
}

/// The commands of `s`, separated by `, `.
pub open spec fn commands(s: Seq<char>) -> Seq<Seq<char>>
    decreases s.len(),
{
    let i = sep_index(s);
    if i + 2 <= s.len() {
        seq![s.take(i as int)] + commands(s.skip(i + 2int))
    } else {
        seq![s]
    }
}

/// A command: a turn letter, then the distance as an `i32`.
pub open spec fn command_ok(c: Seq<char>) -> bool {
    c.len() >= 1 && (c[0] as u32) < 128 && literal_of(c.drop_first()) is Some
}

/// The heading after the turn `t` from heading `f` (0 north, then clockwise);
/// any letter but `L` and `R` faces north.
pub open spec fn turned(f: int, t: char) -> int {
    if t == 'L' {
        (f + 3) % 4
    } else if t == 'R' {
        (f + 1) % 4
    } else {
        0
    }
}

pub open spec fn dx(f: int) -> int {
    if f == 1 {
        1
    } else if f == 3 {
        -1
    } else {
        0
    }
}

pub open spec fn dy(f: int) -> int {
    if f == 0 {
        1
    } else if f == 2 {
        -1
    } else {
        0
    }
}

/// Heading and position after the first `n` commands.
pub open spec fn walked(cs: Seq<Seq<char>>, n: nat) -> (int, int, int)
    decreases n,
{
    if n == 0 {
        (0, 0, 0)
    } else {
        let (f, x, y) = walked(cs, (n - 1) as nat);
        moved(f, x, y, cs[n - 1])
    }
}

/// Heading and position after the command `c`.
pub open spec fn moved(f: int, x: int, y: int, c: Seq<char>) -> (int, int, int) {
    let g = turned(f, c[0]);
    let d = literal_of(c.drop_first())->0 as int;
    (g, x + dx(g) * d, y + dy(g) * d)
}

pub open spec fn abs(v: int) -> int {
    if v < 0 {
        -v
    } else {
        v
    }
}

/// Every position along the way is within `2^29` of the start on each axis.
pub open spec fn walk_bounded(cs: Seq<Seq<char>>) -> bool {
    forall|n: nat| n <= cs.len() ==> abs(#[trigger] walked(cs, n).1) <= 0x2000_0000 && abs(walked(cs, n).2) <= 0x2000_0000
}

fn command_spans(s: &Vec<char>) -> (r: Vec<(usize, usize)>)
    ensures
        r@.len() == commands(s@).len(),
        forall|k: int| #![trigger r@[k]] 0 <= k < r@.len() ==> r@[k].0 <= r@[k].1 <= s@.len() && commands(s@)[k]
            == s@.subrange(r@[k].0 as int, r@[k].1 as int),
{
    let n = s.len();
    let mut r: Vec<(usize, usize)> = Vec::new();
    let mut st: usize = 0;
    let mut i: usize = 0;
    proof {
        assert(s@.skip(0) =~= s@);
        assert(s@.skip(0).skip(0) =~= s@.skip(0));
    }
    loop
        invariant
            st <= i <= n == s@.len(),
            commands(s@) == r@.map_values(|p: (usize, usize)| s@.subrange(p.0 as int, p.1 as int)) + commands(s@.skip(st as int)),
            sep_index(s@.skip(st as int)) == (i - st) + sep_index(s@.skip(i as int)),
            forall|k: int| #![trigger r@[k]] 0 <= k < r@.len() ==> r@[k].0 <= r@[k].1 <= n,
        decreases n - i,
    {
        if n - i > 1 && s[i] == ',' && s[i + 1] == ' ' {
            let ghost t = s@.skip(st as int);
            proof {
                assert(sep_index(s@.skip(i as int)) == 0);
                assert(t.take(i - st) =~= s@.subrange(st as int, i as int));
                assert(t.skip(i - st + 2) =~= s@.skip(i + 2));
                assert(r@.push((st, i)).map_values(|p: (usize, usize)| s@.subrange(p.0 as int, p.1 as int)) =~= r@.map_values(
                    |p: (usize, usize)| s@.subrange(p.0 as int, p.1 as int),
                ).push(s@.subrange(st as int, i as int)));
                assert(s@.skip(i + 2).skip(0) =~= s@.skip(i + 2));
            }
            r.push((st, i));
            st = i + 2;
            i = i + 2;
        } else if n - i > 1 {
            proof {
                assert(s@.skip(i as int).drop_first() =~= s@.skip(i + 1));
            }
            i = i + 1;
        } else {
            let ghost t = s@.skip(st as int);
            proof {
                assert(s@.skip(i as int).len() < 2);
                assert(t =~= s@.subrange(st as int, n as int));
                assert(r@.push((st, n)).map_values(|p: (usize, usize)| s@.subrange(p.0 as int, p.1 as int)) =~= r@.map_values(
                    |p: (usize, usize)| s@.subrange(p.0 as int, p.1 as int),
                ).push(s@.subrange(st as int, n as int)));
            }
            r.push((st, n));
            proof {
                assert(commands(s@) =~= r@.map_values(|p: (usize, usize)| s@.subrange(p.0 as int, p.1 as int)));
                assert forall|k: int| #![trigger r@[k]] 0 <= k < r@.len() implies commands(s@)[k] == s@.subrange(
                    r@[k].0 as int,
                    r@[k].1 as int,
                ) by {
                    assert(r@.map_values(|p: (usize, usize)| s@.subrange(p.0 as int, p.1 as int))[k] == s@.subrange(
                        r@[k].0 as int,
                        r@[k].1 as int,
                    ));
                }
            }
            return r;
        }
    }
}

fn apply_command(f: usize, x: i32, y: i32, c: &Vec<char>) -> (r: (usize, i32, i32))
    requires
        f < 4,
        command_ok(c@),
        abs(moved(f as int, x as int, y as int, c@).1) <= 0x2000_0000,
        abs(moved(f as int, x as int, y as int, c@).2) <= 0x2000_0000,
        abs(x as int) <= 0x2000_0000,
        abs(y as int) <= 0x2000_0000,
    ensures
        r.0 < 4,
        (r.0 as int, r.1 as int, r.2 as int) == moved(f as int, x as int, y as int, c@),
{
    let t = c[0];
    let g: usize = if t == 'L' {
        (f + 3) % 4
    } else if t == 'R' {
        (f + 1) % 4
    } else {
        0
    };
    let rest = sub_chars(c, 1, c.len());
    proof {
        assert(rest@ =~= c@.drop_first());
    }
    let d = match parse_literal(&rest) {
        Some(d) => d,
        None => 0,
    };
    if g == 0 {
        (g, x, y + d)
    } else if g == 1 {
        (g, x + d, y)
    } else if g == 2 {
        (g, x, y - d)
    } else {
        (g, x - d, y)
    }
}

/// The blocks from the start to where the directions end.
pub fn solve(input: &str) -> (r: i32)
    requires
        forall|k: int| 0 <= k < commands(input@).len() ==> #[trigger] command_ok(commands(input@)[k]),
        walk_bounded(commands(input@)),
    ensures
        r == abs(walked(commands(input@), commands(input@).len()).1) + abs(walked(commands(input@), commands(input@).len()).2),
{
    let cs = chars_of(input);
    let spans = command_spans(&cs);
    let ghost cmds = commands(input@);
    let mut f: usize = 0;
    let mut x: i32 = 0;
    let mut y: i32 = 0;
    let mut k: usize = 0;
    while k < spans.len()
        invariant
            cs@ == input@,
            cmds == commands(input@),
            spans@.len() == cmds.len(),
            forall|q: int| #![trigger spans@[q]] 0 <= q < spans@.len() ==> spans@[q].0 <= spans@[q].1 <= cs@.len() && cmds[q]
                == cs@.subrange(spans@[q].0 as int, spans@[q].1 as int),
            forall|q: int| 0 <= q < cmds.len() ==> #[trigger] command_ok(cmds[q]),
            walk_bounded(cmds),
            k <= spans@.len(),
            f < 4,
            walked(cmds, k as nat) == (f as int, x as int, y as int),
        decreases spans@.len() - k,
    {
        let (st, en) = spans[k];
        let c = sub_chars(&cs, st, en);
        proof {
            assert(cmds[k as int] == cs@.subrange(st as int, en as int));
            assert(c@ == cmds[k as int]);
            assert(command_ok(cmds[k as int]));
            assert(abs(walked(cmds, k as nat).1) <= 0x2000_0000);
            assert(abs(walked(cmds, (k + 1) as nat).1) <= 0x2000_0000);
        }
        let (g, nx, ny) = apply_command(f, x, y, &c);
        f = g;
        x = nx;
        y = ny;
        k = k + 1;
    }
    proof {
        assert(abs(walked(cmds, k as nat).1) <= 0x2000_0000);
    }
    let ax = if x < 0 { -x } else { x };
    let ay = if y < 0 { -y } else { y };
    ax + ay
}

} // verus!
