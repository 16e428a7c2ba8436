use vstd::prelude::*;
use crate::loader::{literal_of, parse_literal};
use crate::text::chars_of;

verus! {

/// The number of one bits of `v`.
pub open spec fn ones(v: nat) -> nat
    decreases v,
{
    if v == 0 {
        0
    } else {
        v % 2 + ones(v / 2)
    }
}

/// The office formula at `(x, y)` for the favourite number `seed`.
pub open spec fn formula(seed: int, x: int, y: int) -> int {
    x * x + 3 * x + 2 * x * y + y + y * y + seed
}

/// The formula at `(x, y)` fits the 32-bit arithmetic it is computed in.
pub open spec fn formula_fits(seed: i32, x: i32, y: i32) -> bool {
    x < 0 || y < 0 || i32::MIN <= formula(seed as int, x as int, y as int) <= i32::MAX
}

/// Walls: everything left of or above the grid, and every cell whose formula
/// value, as a 32-bit pattern, has an odd number of one bits.
pub open spec fn wall(seed: i32, x: i32, y: i32) -> bool {
    x < 0 || y < 0 || ones((formula(seed as int, x as int, y as int) as i32 as u32) as nat) % 2 == 1
}

proof fn lemma_ones_le(v: nat)
    ensures
        ones(v) <= v,
    decreases v,
{
    if v > 0 {
        lemma_ones_le(v / 2);
    }
}

fn count_ones(v: u32) -> (r: u32)
    ensures
        r == ones(v as nat),
{
    let mut w: u32 = v;
    let mut c: u32 = 0;
    proof {
        lemma_ones_le(v as nat);
    }
    while w > 0
        invariant
            c + ones(w as nat) == ones(v as nat),
            ones(v as nat) <= v,
        decreases w,
    {
        assert(ones(w as nat) == w % 2 + ones((w / 2) as nat));
        c = c + w % 2;
        w = w / 2;
    }
    c
}

/// Whether `(x, y)` is a wall.
pub fn is_wall(seed: i32, x: i32, y: i32) -> (r: bool)
    requires
        formula_fits(seed, x, y),
    ensures
        r == wall(seed, x, y),
{
    if x < 0 || y < 0 {
        true
    } else {
        let xx = x as i64;
        let yy = y as i64;
        proof {
            assert(0 <= xx * xx) by (nonlinear_arith)
                requires
                    0 <= xx,
            ;
            assert(0 <= xx * yy) by (nonlinear_arith)
                requires
                    0 <= xx,
                    0 <= yy,
            ;
            assert(0 <= yy * yy) by (nonlinear_arith)
                requires
                    0 <= yy,
            ;
            assert(formula(seed as int, x as int, y as int) == xx * xx + 3 * xx + 2 * (xx * yy) + yy
                + yy * yy + seed) by (nonlinear_arith)
                requires
                    xx == x,
                    yy == y,
            ;
        }
        let v = xx * xx + 3 * xx + 2 * (xx * yy) + yy + yy * yy + seed as i64;
        let bits = #[verifier::truncate] ((v as i32) as u32);
        count_ones(bits) % 2 == 1
    }
}

/// The open cells next to `(x, y)`, left, right, down, up, each one step away.
pub fn successors(seed: i32, x: i32, y: i32) -> (r: Vec<((i32, i32), usize)>)
    requires
        i32::MIN < x < i32::MAX,
        i32::MIN < y < i32::MAX,
        formula_fits(seed, (x - 1) as i32, y),
        formula_fits(seed, (x + 1) as i32, y),
        formula_fits(seed, x, (y + 1) as i32),
        formula_fits(seed, x, (y - 1) as i32),
    ensures
        r@ == seq![((x - 1) as i32, y), ((x + 1) as i32, y), (x, (y + 1) as i32), (x, (y - 1) as i32)].filter(
            |p: (i32, i32)| !wall(seed, p.0, p.1),
        ).map_values(|p: (i32, i32)| (p, 1usize)),
{
    let cands = [(x - 1, y), (x + 1, y), (x, y + 1), (x, y - 1)];
    let ghost all = seq![((x - 1) as i32, y), ((x + 1) as i32, y), (x, (y + 1) as i32), (x, (y - 1) as i32)];
    let mut r: Vec<((i32, i32), usize)> = Vec::new();
    let mut i: usize = 0;
    proof {
        assert(cands@ =~= all);
    }
    while i < 4
        invariant
            i <= 4,
            cands@ == all,
            forall|k: int| 0 <= k < 4 ==> formula_fits(seed, #[trigger] all[k].0, all[k].1),
            r@ == all.take(i as int).filter(|p: (i32, i32)| !wall(seed, p.0, p.1)).map_values(
                |p: (i32, i32)| (p, 1usize),
            ),
        decreases 4 - i,
    {
        let (cx, cy) = cands[i];
        proof {
            assert(all.take(i + 1).drop_last() =~= all.take(i as int));
            reveal(Seq::filter);
            assert(formula_fits(seed, all[i as int].0, all[i as int].1));
        }
        if !is_wall(seed, cx, cy) {
            r.push(((cx, cy), 1));
            proof {
                let f = all.take(i as int).filter(|p: (i32, i32)| !wall(seed, p.0, p.1));
                let g = all.take(i + 1).filter(|p: (i32, i32)| !wall(seed, p.0, p.1));
                assert(g == f.push((cx, cy)));
                assert(r@ =~= g.map_values(|p: (i32, i32)| (p, 1usize)));
            }
        } else {
            proof {
                let f = all.take(i as int).filter(|p: (i32, i32)| !wall(seed, p.0, p.1));
                let g = all.take(i + 1).filter(|p: (i32, i32)| !wall(seed, p.0, p.1));
                assert(g == f);
            }
        }
        i = i + 1;
    }
    proof {
        assert(all.take(4) =~= all);
    }
    r
}

/// One step from `a` to the open cell `b` next to it.
pub open spec fn open_step(seed: i32, a: (i32, i32), b: (i32, i32)) -> bool {
    &&& !wall(seed, b.0, b.1)
    &&& (b.0 == a.0 && (b.1 == a.1 + 1 || b.1 == a.1 - 1)) || (b.1 == a.1 && (b.0 == a.0 + 1 || b.0 == a.0 - 1))
}

/// `c` is a route of open steps from `(1, 1)` to `goal`.
pub open spec fn route(seed: i32, c: Seq<(i32, i32)>, goal: (i32, i32)) -> bool {
    &&& c.len() >= 1
    &&& c[0] == (1i32, 1i32)
    &&& c.last() == goal
    &&& forall|i: int| 0 <= i < c.len() - 1 ==> open_step(seed, #[trigger] c[i], c[i + 1])
}

pub open spec fn distance(x: int, y: int) -> int {
    (if x >= 1 { x - 1 } else { 1 - x }) + (if y >= 1 { y - 1 } else { 1 - y })
}

/// Every cell within `r` steps of `(1, 1)` has a formula that fits.
pub open spec fn fits_near(seed: i32, r: int) -> bool {
    forall|x: i32, y: i32| 0 <= x && 0 <= y && distance(x as int, y as int) <= r ==> #[trigger] formula_fits(seed, x, y)
}

/// The search can run: some route reaches `goal`, short enough that every
/// cell the search may look at has a formula that fits.
pub open spec fn searchable(seed: i32, goal: (i32, i32)) -> bool {
    exists|c: Seq<(i32, i32)>| #[trigger] route(seed, c, goal) && c.len() < 0x4000_0000 && fits_near(seed, c.len() + 1int)
}

/// Relies on `pathfinding::directed::dijkstra::dijkstra`: a cheapest path,
/// start and end included, from `(1, 1)` to `goal` with its cost, following
/// `successors` (each step costs one); it finds one whenever one exists.
#[verifier::external_body]
fn cheapest_route(seed: i32, goal: (i32, i32)) -> (r: Option<(Vec<(i32, i32)>, usize)>)
    requires
        searchable(seed, goal),
    ensures
        r matches Some(found) ==> route(seed, found.0@, goal) && found.1 == found.0@.len() - 1 && forall|q: Seq<(i32, i32)>|
            #[trigger] route(seed, q, goal) ==> q.len() >= found.0@.len(),
        r is Some,
{
    pathfinding::prelude::dijkstra(&(1, 1), |&(x, y): &(i32, i32)| successors(seed, x, y), |&p: &(i32, i32)| p == goal)
}

/// The fewest steps from `(1, 1)` to `(dx, dy)`.
pub fn find_route(seed: i32, dx: i32, dy: i32) -> (r: usize)
    requires
        searchable(seed, (dx, dy)),
    ensures
        exists|c: Seq<(i32, i32)>| #[trigger] route(seed, c, (dx, dy)) && c.len() == r + 1,
        forall|c: Seq<(i32, i32)>| #[trigger] route(seed, c, (dx, dy)) ==> c.len() >= r + 1,
{
    match cheapest_route(seed, (dx, dy)) {
        Some((path, cost)) => {
            proof {
                assert(route(seed, path@, (dx, dy)));
            }
            cost
        },
        None => 0,
    }
}

/// The fewest steps to `(31, 39)` for the favourite number written in `input`.
pub fn solve(input: &str) -> (r: usize)
    requires
        literal_of(input@) is Some,
        searchable(literal_of(input@)->0, (31i32, 39i32)),
    ensures
        exists|c: Seq<(i32, i32)>| #[trigger] route(literal_of(input@)->0, c, (31i32, 39i32)) && c.len() == r + 1,
        forall|c: Seq<(i32, i32)>| #[trigger] route(literal_of(input@)->0, c, (31i32, 39i32)) ==> c.len() >= r + 1,
{
    match parse_literal(&chars_of(input)) {
        Some(seed) => find_route(seed, 31, 39),
        None => 0,
    }
}

} // verus!
