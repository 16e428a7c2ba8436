use vstd::prelude::*;
use crate::day07::find_char;
use crate::text::{chars_of, digits_of, line_spans, lines, read_digits, string_from_chars, word_spans, words};

verus! {

/// A storage node of the grid, sizes in terabytes.
#[derive(Debug, Clone, Copy, PartialEq, Eq, Structural)]
pub struct Node {
    pub x: usize,
    pub y: usize,
    pub used: usize,
    pub avail: usize,
}

/// Why a line is not a node.
#[derive(Debug, Clone, Copy, PartialEq, Eq, Structural)]
pub enum NodeParseError {
    /// The line does not have the columns of a node listing.
    Shape,
    /// A number is not a `usize`.
    ParseInt,
}

/// The map mark of a node: `_` empty, `#` too full to move, `.` otherwise.
pub open spec fn mark(n: Node) -> char {
    if n.used == 0 {
        '_'
    } else if n.used > 100 {
        '#'
    } else {
        '.'
    }
}

impl Node {
    /// The map mark of this node.
    pub fn describe(&self) -> (r: char)
        ensures
            r == mark(*self),
    {
        if self.used == 0 {
            return '_';
        }
        if self.used > 100 {
            return '#';
        }
        '.'
    }
}

/// The parts of a node path `.../node-xX-yY`: the text between the first
/// and second dash, and after the second up to a third dash or the end.
pub open spec fn path_parts(p: Seq<char>) -> Option<(Seq<char>, Seq<char>)> {
    let i = find_char(p, '-');
    if i >= p.len() {
        None
    } else {
        let r1 = p.skip(i + 1int);
        let j = find_char(r1, '-');
        if j >= r1.len() {
            None
        } else {
            let r2 = r1.skip(j + 1int);
            Some((r1.take(j as int), r2.take(find_char(r2, '-') as int)))
        }
    }
}

/// How a listing line `/dev/grid/node-xX-yY  SizeT  UsedT  AvailT  Use%` reads.
pub open spec fn node_spec(s: Seq<char>) -> Result<Node, NodeParseError> {
    let w = words(s);
    if w.len() < 4 || path_parts(w[0]) is None {
        Err(NodeParseError::Shape)
    } else {
        let (px, py) = path_parts(w[0])->0;
        if px.len() == 0 || py.len() == 0 {
            Err(NodeParseError::Shape)
        } else {
            let x = digits_of(px.drop_first());
            let y = digits_of(py.drop_first());
            let used = digits_of(w[2].drop_last());
            let avail = digits_of(w[3].drop_last());
            if x is Some && y is Some && used is Some && avail is Some {
                Ok(Node { x: x->0, y: y->0, used: used->0, avail: avail->0 })
            } else {
                Err(NodeParseError::ParseInt)
            }
        }
    }
}

fn find_from(v: &Vec<char>, lo: usize, hi: usize, c: char) -> (r: usize)
    requires
        lo <= hi <= v@.len(),
    ensures
        r == lo + find_char(v@.subrange(lo as int, hi as int), c),
        lo <= r <= hi,
{
    let mut i = lo;
    while i < hi && v[i] != c
        invariant
            lo <= i <= hi <= v@.len(),
            find_char(v@.subrange(lo as int, hi as int), c) == (i - lo) + find_char(v@.subrange(i as int, hi as int), c),
        decreases hi - i,
    {
        proof {
            assert(v@.subrange(i as int, hi as int).drop_first() =~= v@.subrange(i + 1, hi as int));
        }
        i = i + 1;
    }
    i
}

impl Node {
    /// Reads one line of the listing.
    pub fn parse(s: &str) -> (r: Result<Node, NodeParseError>)
        ensures
            r == node_spec(s@),
    {
        let cs = chars_of(s);
        let w = word_spans(&cs);
        let ghost ws = words(s@);
        if w.len() < 4 {
            return Err(NodeParseError::Shape);
        }
        proof {
            assert forall|k: int| 0 <= k < 4 implies #[trigger] ws[k] == cs@.subrange(
                w@[k].0 as int,
                w@[k].1 as int,
            ) && w@[k].0 < w@[k].1 <= cs@.len() by {
                assert(w@[k].0 < w@[k].1 <= cs@.len());
            }
        }
        let (a0, b0) = w[0];
        let ghost p = ws[0];
        let i = find_from(&cs, a0, b0, '-');
        if i >= b0 {
            return Err(NodeParseError::Shape);
        }
        proof {
            assert(p.skip(i - a0 + 1) =~= cs@.subrange(i + 1, b0 as int));
        }
        let j = find_from(&cs, i + 1, b0, '-');
        if j >= b0 {
            return Err(NodeParseError::Shape);
        }
        let k = find_from(&cs, j + 1, b0, '-');
        proof {
            let r1 = p.skip(i - a0 + 1);
            assert(r1.take(j - i - 1) =~= cs@.subrange(i + 1, j as int));
            assert(r1.skip(j - i) =~= cs@.subrange(j + 1, b0 as int));
            assert(r1.skip(j - i).take(k - j - 1) =~= cs@.subrange(j + 1, k as int));
        }
        if j == i + 1 || k == j + 1 {
            return Err(NodeParseError::Shape);
        }
        let (a2, b2) = w[2];
        let (a3, b3) = w[3];
        proof {
            assert(cs@.subrange(i + 1, j as int).drop_first() =~= cs@.subrange(i + 2, j as int));
            assert(cs@.subrange(j + 1, k as int).drop_first() =~= cs@.subrange(j + 2, k as int));
            assert(ws[2].drop_last() =~= cs@.subrange(a2 as int, b2 - 1));
            assert(ws[3].drop_last() =~= cs@.subrange(a3 as int, b3 - 1));
        }
        let x = read_digits(&cs, i + 2, j);
        let y = read_digits(&cs, j + 2, k);
        let used = read_digits(&cs, a2, b2 - 1);
        let avail = read_digits(&cs, a3, b3 - 1);
        match (x, y, used, avail) {
            (Some(x), Some(y), Some(used), Some(avail)) => Ok(Node { x, y, used, avail }),
            _ => Err(NodeParseError::ParseInt),
        }
    }
}

/// The nodes listed in `s`, after its two header lines.
pub fn generate(s: &str) -> (r: Vec<Node>)
    requires
        forall|k: int| 2 <= k < lines(s@).len() ==> (#[trigger] node_spec(lines(s@)[k])) is Ok,
    ensures
        r@.len() == if lines(s@).len() >= 2 { lines(s@).len() - 2 } else { 0 },
        forall|k: int| 0 <= k < r@.len() ==> node_spec(lines(s@)[k + 2]) == Ok::<Node, NodeParseError>(#[trigger] r@[k]),
{
    let cs = chars_of(s);
    let spans = line_spans(&cs);
    let ghost ls = lines(s@);
    let mut r: Vec<Node> = Vec::new();
    let mut i: usize = 2;
    while i < spans.len()
        invariant
            ls == lines(s@),
            cs@ == s@,
            spans@.len() == ls.len(),
            forall|k: int| 2 <= k < ls.len() ==> (#[trigger] node_spec(ls[k])) is Ok,
            forall|k: int| #![trigger spans@[k]] 0 <= k < spans@.len() ==> spans@[k].0 <= spans@[k].1 <= cs@.len(),
            forall|k: int|
                0 <= k < spans@.len() ==> #[trigger] ls[k] == cs@.subrange(
                    spans@[k].0 as int,
                    spans@[k].1 as int,
                ),
            2 <= i,
            i <= spans@.len() || (spans@.len() < 2 && r@.len() == 0),
            i <= spans@.len() ==> r@.len() == i - 2,
            forall|k: int| 0 <= k < r@.len() ==> node_spec(ls[k + 2]) == Ok::<Node, NodeParseError>(#[trigger] r@[k]),
        decreases spans@.len() - i,
    {
        let (st, en) = spans[i];
        proof {
            assert(ls[i as int] == cs@.subrange(st as int, en as int));
            assert(node_spec(ls[i as int]) is Ok);
        }
        match Node::parse(s.substring_char(st, en)) {
            Ok(n) => {
                let ghost before = r@;
                r.push(n);
                proof {
                    assert forall|k: int| 0 <= k < r@.len() implies node_spec(ls[k + 2]) == Ok::<Node, NodeParseError>(#[trigger] r@[k]) by {
                        if k < before.len() {
                            assert(r@[k] == before[k]);
                        }
                    }
                }
            },
            Err(_) => {
                return r;
            },
        }
        i = i + 1;
    }
    r
}

/// The pair `(a, b)` is viable: different nodes, `a` holds data, and it
/// fits in what `b` has free.
pub open spec fn viable(a: Node, b: Node) -> bool {
    a != b && a.used != 0 && b.avail >= a.used
}

/// The viable pairs `(nodes[i], nodes[j])` with `i < n`, `j < m`, and `i != j`.
pub open spec fn viable_count(nodes: Seq<Node>, n: nat, m: nat) -> nat
    decreases n, m,
{
    if n == 0 {
        0
    } else if m == 0 {
        viable_count(nodes, (n - 1) as nat, nodes.len())
    } else {
        viable_count(nodes, n, (m - 1) as nat) + if (n - 1) != (m - 1) && viable(nodes[n - 1], nodes[m - 1]) {
            1nat
        } else {
            0nat
        }
    }
}

proof fn lemma_viable_bound(nodes: Seq<Node>, n: nat, m: nat)
    requires
        n <= nodes.len(),
        m <= nodes.len(),
    ensures
        viable_count(nodes, n, m) <= (if n == 0 { 0 } else { (n - 1) * nodes.len() + m }),
    decreases n, m,
{
    if n > 0 {
        if m == 0 {
            lemma_viable_bound(nodes, (n - 1) as nat, nodes.len());
            if n >= 2 {
                assert((n - 2) * nodes.len() + nodes.len() == (n - 1) * nodes.len()) by (nonlinear_arith);
            }
        } else {
            lemma_viable_bound(nodes, n, (m - 1) as nat);
        }
    }
}

/// The number of viable pairs of nodes.
pub fn solve(nodes: &[Node]) -> (r: usize)
    requires
        nodes@.len() * nodes@.len() <= usize::MAX,
    ensures
        r == viable_count(nodes@, nodes@.len(), nodes@.len()),
{
    let n = nodes.len();
    let mut count: usize = 0;
    let mut i: usize = 0;
    while i < n
        invariant
            n == nodes@.len(),
            n * n <= usize::MAX,
            i <= n,
            count == viable_count(nodes@, i as nat, n as nat),
        decreases n - i,
    {
        proof {
            assert(viable_count(nodes@, (i + 1) as nat, 0) == viable_count(nodes@, i as nat, n as nat));
        }
        let mut j: usize = 0;
        while j < n
            invariant
                n == nodes@.len(),
                n * n <= usize::MAX,
                i < n,
                j <= n,
                count == viable_count(nodes@, (i + 1) as nat, j as nat),
            decreases n - j,
        {
            proof {
                lemma_viable_bound(nodes@, (i + 1) as nat, (j + 1) as nat);
                assert(i * n + j + 1 <= n * n) by (nonlinear_arith)
                    requires
                        i < n,
                        j < n,
                ;
            }
            let a = nodes[i];
            let b = nodes[j];
            if i != j && a != b && a.used != 0 && b.avail >= a.used {
                count = count + 1;
            }
            j = j + 1;
        }
        i = i + 1;
    }
    count
}

/// The largest `x` among the first `n` nodes.
pub open spec fn max_x(nodes: Seq<Node>, n: nat) -> nat
    decreases n,
{
    if n == 0 {
        0
    } else if nodes[n - 1].x > max_x(nodes, (n - 1) as nat) {
        nodes[n - 1].x as nat
    } else {
        max_x(nodes, (n - 1) as nat)
    }
}

/// The largest `y` among the first `n` nodes.
pub open spec fn max_y(nodes: Seq<Node>, n: nat) -> nat
    decreases n,
{
    if n == 0 {
        0
    } else if nodes[n - 1].y > max_y(nodes, (n - 1) as nat) {
        nodes[n - 1].y as nat
    } else {
        max_y(nodes, (n - 1) as nat)
    }
}

/// The index of the first empty node among the first `n`.
pub open spec fn first_empty(nodes: Seq<Node>, n: nat) -> Option<nat>
    decreases n,
{
    if n == 0 {
        None
    } else {
        match first_empty(nodes, (n - 1) as nat) {
            Some(i) => Some(i),
            None => if nodes[n - 1].used == 0 { Some((n - 1) as nat) } else { None },
        }
    }
}

/// The index of the leftmost wall node among the first `n`; the earliest
/// one where several share that column.
pub open spec fn leftmost_wall(nodes: Seq<Node>, n: nat) -> Option<nat>
    decreases n,
{
    if n == 0 {
        None
    } else {
        let prev = leftmost_wall(nodes, (n - 1) as nat);
        let k = (n - 1) as nat;
        if mark(nodes[k as int]) == '#' && (prev is None || nodes[k as int].x < nodes[prev->0 as int].x) {
            Some(k)
        } else {
            prev
        }
    }
}

/// The step count worked out by hand for the usual grid: clear the wall to
/// the left, go up, go right to the goal, then spiral the data home.
pub open spec fn moves_by_hand(nodes: Seq<Node>) -> int {
    let mx = max_x(nodes, nodes.len()) as int;
    let e = nodes[first_empty(nodes, nodes.len())->0 as int];
    let w = nodes[leftmost_wall(nodes, nodes.len())->0 as int];
    (e.x - w.x - 1) + e.y + (mx - w.x - 1) + (mx * 5 - 1)
}

/// The grid holds an empty node, a wall, room for the steps, and the sum fits.
pub open spec fn hand_count_fits(nodes: Seq<Node>) -> bool {
    let mx = max_x(nodes, nodes.len()) as int;
    &&& first_empty(nodes, nodes.len()) is Some
    &&& leftmost_wall(nodes, nodes.len()) is Some
    &&& nodes[first_empty(nodes, nodes.len())->0 as int].x >= nodes[leftmost_wall(nodes, nodes.len())->0 as int].x + 1
    &&& mx >= nodes[leftmost_wall(nodes, nodes.len())->0 as int].x + 1
    &&& mx * 5 + mx + nodes[first_empty(nodes, nodes.len())->0 as int].x + nodes[first_empty(nodes, nodes.len())->0 as int].y
        <= usize::MAX
}

proof fn lemma_indices(nodes: Seq<Node>, n: nat)
    requires
        n <= nodes.len(),
    ensures
        first_empty(nodes, n) matches Some(i) ==> i < n,
        leftmost_wall(nodes, n) matches Some(i) ==> i < n,
        forall|k: int| 0 <= k < n ==> nodes[k].x <= max_x(nodes, n),
    decreases n,
{
    if n > 0 {
        lemma_indices(nodes, (n - 1) as nat);
    }
}

/// The fewest steps to bring the goal data home, by the hand count.
pub fn do_math(nodes: &[Node]) -> (r: usize)
    requires
        hand_count_fits(nodes@),
    ensures
        r == moves_by_hand(nodes@),
{
    let n = nodes.len();
    let mut mx: usize = 0;
    let mut empty: Option<usize> = None;
    let mut wall: Option<usize> = None;
    let mut i: usize = 0;
    while i < n
        invariant
            n == nodes@.len(),
            i <= n,
            mx == max_x(nodes@, i as nat),
            empty == (match first_empty(nodes@, i as nat) { Some(k) => Some(k as usize), None => None::<usize> }),
            wall == (match leftmost_wall(nodes@, i as nat) { Some(k) => Some(k as usize), None => None::<usize> }),
            forall|k: int| 0 <= k < i ==> nodes@[k].x <= mx,
        decreases n - i,
    {
        proof {
            lemma_indices(nodes@, i as nat);
        }
        let node = nodes[i];
        if node.x > mx {
            mx = node.x;
        }
        if empty.is_none() && node.used == 0 {
            empty = Some(i);
        }
        let is_wall = node.describe() == '#';
        match wall {
            None => {
                if is_wall {
                    wall = Some(i);
                }
            },
            Some(w) => {
                if is_wall && node.x < nodes[w].x {
                    wall = Some(i);
                }
            },
        }
        i = i + 1;
    }
    proof {
        lemma_indices(nodes@, n as nat);
    }
    match (empty, wall) {
        (Some(e), Some(w)) => {
            let e = nodes[e];
            let w = nodes[w];
            let left = e.x - w.x - 1;
            let up = e.y;
            let right = mx - w.x - 1;
            let home = mx * 5 - 1;
            left + up + right + home
        },
        _ => 0,
    }
}

/// The mark at `(x, y)`: that of the last node listed there, or a space.
pub open spec fn cell(nodes: Seq<Node>, n: nat, x: int, y: int) -> char
    decreases n,
{
    if n == 0 {
        ' '
    } else if nodes[n - 1].x == x && nodes[n - 1].y == y {
        mark(nodes[n - 1])
    } else {
        cell(nodes, (n - 1) as nat, x, y)
    }
}

/// Row `y` of the map, with its line end.
pub open spec fn map_row(nodes: Seq<Node>, y: int) -> Seq<char> {
    Seq::new(max_x(nodes, nodes.len()) + 1, |x: int| cell(nodes, nodes.len(), x, y)).push('\n')
}

/// The first `k` rows of the map.
pub open spec fn map_rows(nodes: Seq<Node>, k: nat) -> Seq<char>
    decreases k,
{
    if k == 0 {
        seq![]
    } else {
        map_rows(nodes, (k - 1) as nat) + map_row(nodes, k - 1)
    }
}

fn cell_at(nodes: &[Node], x: usize, y: usize) -> (r: char)
    ensures
        r == cell(nodes@, nodes@.len(), x as int, y as int),
{
    let mut i = nodes.len();
    while i > 0
        invariant
            i <= nodes@.len(),
            forall|k: int| i <= k < nodes@.len() ==> !(nodes@[k].x == x && nodes@[k].y == y),
            cell(nodes@, nodes@.len(), x as int, y as int) == cell(nodes@, i as nat, x as int, y as int),
        decreases i,
    {
        let node = nodes[i - 1];
        if node.x == x && node.y == y {
            return node.describe();
        }
        i = i - 1;
    }
    ' '
}

/// The map of the grid, one text row for each `y`.
pub fn draw_maze(nodes: &[Node]) -> (r: String)
    requires
        max_x(nodes@, nodes@.len()) < usize::MAX,
        max_y(nodes@, nodes@.len()) < usize::MAX,
    ensures
        r@ == map_rows(nodes@, max_y(nodes@, nodes@.len()) + 1),
{
    let n = nodes.len();
    let mut mx: usize = 0;
    let mut my: usize = 0;
    let mut i: usize = 0;
    while i < n
        invariant
            n == nodes@.len(),
            i <= n,
            mx == max_x(nodes@, i as nat),
            my == max_y(nodes@, i as nat),
        decreases n - i,
    {
        if nodes[i].x > mx {
            mx = nodes[i].x;
        }
        if nodes[i].y > my {
            my = nodes[i].y;
        }
        i = i + 1;
    }
    let mut out: Vec<char> = Vec::new();
    let mut y: usize = 0;
    while y <= my
        invariant
            mx == max_x(nodes@, nodes@.len()),
            my == max_y(nodes@, nodes@.len()),
            mx < usize::MAX,
            my < usize::MAX,
            y <= my + 1,
            out@ == map_rows(nodes@, y as nat),
        decreases my + 1 - y,
    {
        let ghost start = out@;
        let mut x: usize = 0;
        while x <= mx
            invariant
                mx == max_x(nodes@, nodes@.len()),
                mx < usize::MAX,
                x <= mx + 1,
                out@ == start + Seq::new(x as nat, |q: int| cell(nodes@, nodes@.len(), q, y as int)),
            decreases mx + 1 - x,
        {
            let c = cell_at(nodes, x, y);
            out.push(c);
            x = x + 1;
            proof {
                assert(out@ =~= start + Seq::new(x as nat, |q: int| cell(nodes@, nodes@.len(), q, y as int)));
            }
        }
        out.push('\n');
        proof {
            assert(out@ =~= start + map_row(nodes@, y as int));
        }
        y = y + 1;
    }
    string_from_chars(&out)
}

} // verus!
