use vstd::prelude::*;
use vstd::utf8::encode_utf8;
use crate::text::{chars_of, string_from_chars};

verus! {

/// The MD5 digest of `data`.
pub uninterp spec fn md5_of(data: Seq<u8>) -> Seq<u8>;

/// Relies on `md5::compute`: the 16-byte MD5 digest of `data`, which depends
/// on `data` alone.
#[verifier::external_body]
pub(crate) fn md5_digest(data: &[u8]) -> (r: [u8; 16])
    ensures
        r@ == md5_of(data@),
{
    md5::compute(data).0
}

/// A position in the vault maze, with the passcode and the moves made so far.
#[derive(Clone, PartialEq, Eq, Hash, Debug)]
pub struct Maze {
    pub salt: String,
    pub path: Vec<char>,
    pub x: u8,
    pub y: u8,
}

pub struct MazeView {
    pub salt: Seq<char>,
    pub path: Seq<char>,
    pub x: u8,
    pub y: u8,
}

impl View for Maze {
    type V = MazeView;

    open spec fn view(&self) -> MazeView {
        MazeView { salt: self.salt@, path: self.path@, x: self.x, y: self.y }
    }
}

/// A lower-case hex digit `b` to `f`: an open door.
pub open spec fn open_char(c: u8) -> bool {
    98 <= c <= 102
}

/// The lower-case hex digit of `n < 16`, as a byte.
pub open spec fn hex_byte(n: int) -> u8 {
    if n < 10 {
        (48 + n) as u8
    } else {
        (87 + n) as u8
    }
}

/// A move is possible without leaving the byte range of the coordinates.
pub open spec fn can_move(m: MazeView, step: char) -> bool {
    &&& step == 'U' ==> m.y >= 1
    &&& step == 'D' ==> m.y < 255
    &&& step == 'L' ==> m.x >= 1
    &&& step == 'R' ==> m.x < 255
}

/// The maze after the move `step`; letters other than `UDLR` are recorded but
/// do not move.
pub open spec fn moved(m: MazeView, step: char) -> MazeView {
    MazeView {
        path: m.path.push(step),
        x: if step == 'L' {
            (m.x - 1) as u8
        } else if step == 'R' {
            (m.x + 1) as u8
        } else {
            m.x
        },
        y: if step == 'U' {
            (m.y - 1) as u8
        } else if step == 'D' {
            (m.y + 1) as u8
        } else {
            m.y
        },
        ..m
    }
}

/// Door `k` (up, down, left, right) is open: the `k`-th hex digit of the
/// digest of the passcode followed by the path is `b` to `f`.
pub open spec fn door(m: MazeView, k: int) -> bool {
    let d = md5_of(encode_utf8(m.salt + m.path));
    let b = d[k / 2];
    open_char(hex_byte(if k % 2 == 0 { (b / 16) as int } else { (b % 16) as int }))
}

pub open spec fn at_vault(m: MazeView) -> bool {
    m.x == 4 && m.y == 4
}

/// The mazes one move on, through open doors inside the four by four grid,
/// in the order up, down, left, right; none once the vault is reached.
pub open spec fn next_mazes(m: MazeView) -> Seq<MazeView> {
    if at_vault(m) {
        seq![]
    } else {
        (if m.y > 1 && door(m, 0) { seq![moved(m, 'U')] } else { seq![] }) + (if m.y < 4 && door(m, 1) {
            seq![moved(m, 'D')]
        } else {
            seq![]
        }) + (if m.x > 1 && door(m, 2) { seq![moved(m, 'L')] } else { seq![] }) + (if m.x < 4 && door(
            m,
            3,
        ) {
            seq![moved(m, 'R')]
        } else {
            seq![]
        })
    }
}

/// Whether the hex digit `c` marks an open door.
pub fn door_open(c: u8) -> (r: bool)
    ensures
        r == open_char(c),
{
    98 <= c && c <= 102
}

fn hex_digit(n: u8) -> (r: u8)
    requires
        n < 16,
    ensures
        r == hex_byte(n as int),
{
    if n < 10 {
        48 + n
    } else {
        87 + n
    }
}

impl Maze {
    /// The start: top-left room, no moves yet.
    pub fn new(salt: &str) -> (r: Maze)
        ensures
            r@ == (start_view(salt@)),
    {
        Maze { salt: salt.to_owned(), path: Vec::new(), x: 1, y: 1 }
    }

    /// This maze after the move `step`.
    pub fn make_move(&self, step: char) -> (r: Maze)
        requires
            can_move(self@, step),
        ensures
            r@ == moved(self@, step),
    {
        let mut path = vstd::slice::slice_to_vec(self.path.as_slice());
        path.push(step);
        let x = if step == 'L' {
            self.x - 1
        } else if step == 'R' {
            self.x + 1
        } else {
            self.x
        };
        let y = if step == 'U' {
            self.y - 1
        } else if step == 'D' {
            self.y + 1
        } else {
            self.y
        };
        Maze { salt: self.salt.clone(), path, x, y }
    }

    /// Whether this is the vault room.
    pub fn success(&self) -> (r: bool)
        ensures
            r == at_vault(self@),
    {
        self.x == 4 && self.y == 4
    }

    /// The mazes one move on through open doors.
    pub fn successors(&self) -> (r: Vec<Maze>)
        ensures
            r@.map_values(|z: Maze| z@) == next_mazes(self@),
    {
        let ghost m = self@;
        if self.success() {
            let r: Vec<Maze> = Vec::new();
            assert(r@.map_values(|z: Maze| z@) =~= next_mazes(m));
            return r;
        }
        let mut all = chars_of(self.salt.as_str());
        let mut i: usize = 0;
        while i < self.path.len()
            invariant
                i <= self.path@.len(),
                all@ == self.salt@ + self.path@.take(i as int),
            decreases self.path@.len() - i,
        {
            all.push(self.path[i]);
            i = i + 1;
            proof {
                assert(all@ =~= self.salt@ + self.path@.take(i as int));
            }
        }
        proof {
            assert(self.path@.take(i as int) =~= self.path@);
        }
        let text = string_from_chars(&all);
        let d = md5_digest(text.as_str().as_bytes());
        let up = door_open(hex_digit(d[0] / 16));
        let down = door_open(hex_digit(d[0] % 16));
        let left = door_open(hex_digit(d[1] / 16));
        let right = door_open(hex_digit(d[1] % 16));
        proof {
            assert(up == door(m, 0));
            assert(down == door(m, 1));
            assert(left == door(m, 2));
            assert(right == door(m, 3));
        }
        let mut r: Vec<Maze> = Vec::new();
        let ghost mut want: Seq<MazeView> = seq![];
        if self.y > 1 && up {
            r.push(self.make_move('U'));
            proof {
                want = want + seq![moved(m, 'U')];
            }
        }
        proof {
            assert(r@.map_values(|z: Maze| z@) =~= want);
        }
        if self.y < 4 && down {
            let z = self.make_move('D');
            proof {
                assert(r@.push(z).map_values(|z: Maze| z@) =~= r@.map_values(|z: Maze| z@).push(z@));
                want = want + seq![moved(m, 'D')];
            }
            r.push(z);
        }
        proof {
            assert(r@.map_values(|z: Maze| z@) =~= want);
        }
        if self.x > 1 && left {
            let z = self.make_move('L');
            proof {
                assert(r@.push(z).map_values(|z: Maze| z@) =~= r@.map_values(|z: Maze| z@).push(z@));
                want = want + seq![moved(m, 'L')];
            }
            r.push(z);
        }
        proof {
            assert(r@.map_values(|z: Maze| z@) =~= want);
        }
        if self.x < 4 && right {
            let z = self.make_move('R');
            proof {
                assert(r@.push(z).map_values(|z: Maze| z@) =~= r@.map_values(|z: Maze| z@).push(z@));
                want = want + seq![moved(m, 'R')];
            }
            r.push(z);
        }
        proof {
            assert(r@.map_values(|z: Maze| z@) =~= want);
            assert(want =~= next_mazes(m));
        }
        r
    }
}

/// The start for the passcode `salt`: top-left room, no moves yet.
pub open spec fn start_view(salt: Seq<char>) -> MazeView {
    MazeView { salt, path: seq![], x: 1, y: 1 }
}

/// `p` is a walk through the vault maze: each maze one move on from the one before.
pub open spec fn maze_walk(p: Seq<Maze>) -> bool {
    p.len() >= 1 && forall|i: int| 0 <= i < p.len() - 1 ==> next_mazes((#[trigger] p[i])@).contains(p[i + 1]@)
}

/// A walk from `start` that reaches the vault.
pub open spec fn vault_walk(p: Seq<Maze>, start: MazeView) -> bool {
    maze_walk(p) && p[0]@ == start && at_vault(p.last()@)
}

/// Relies on `pathfinding::directed::bfs::bfs`: a shortest path, start and
/// end included, from `start` to a maze at the vault, following
/// `Maze::successors`; `None` when there is none.
#[verifier::external_body]
fn bfs_vault(start: &Maze) -> (r: Option<Vec<Maze>>)
    ensures
        r matches Some(p) ==> vault_walk(p@, start@) && forall|q: Seq<Maze>| vault_walk(q, start@) ==> q.len() >= p@.len(),
        r is None ==> forall|q: Seq<Maze>| !vault_walk(q, start@),
{
    pathfinding::prelude::bfs(start, |m: &Maze| m.successors(), |m: &Maze| m.success())
}

/// The moves of a shortest way to the vault for the passcode `salt`, or
/// `Not found`.
pub fn shortest(salt: &str) -> (r: String)
    ensures
        (exists|p: Seq<Maze>| #[trigger] vault_walk(p, start_view(salt@)))
            ==> exists|p: Seq<Maze>|
            #[trigger] vault_walk(p, start_view(salt@)) && r@ == p.last()@.path
                && forall|q: Seq<Maze>| vault_walk(q, start_view(salt@)) ==> q.len()
                >= p.len(),
        !(exists|p: Seq<Maze>| #[trigger] vault_walk(p, start_view(salt@)))
            ==> r@ == "Not found"@,
{
    let maze = Maze::new(salt);
    match bfs_vault(&maze) {
        Some(path) => {
            let n = path.len();
            let last = &path[n - 1];
            let r = string_from_chars(&last.path);
            proof {
                assert(vault_walk(path@, maze@));
            }
            r
        },
        None => String::from_str("Not found"),
    }
}

/// Every walk from `start` has at most `n` mazes.
pub open spec fn walks_bounded(start: MazeView, n: nat) -> bool {
    forall|q: Seq<Maze>| maze_walk(q) && q[0]@ == start ==> #[trigger] q.len() <= n
}

/// `m` is reached by some walk from `start`.
pub open spec fn reachable_from(start: MazeView, m: MazeView) -> bool {
    exists|q: Seq<Maze>| #[trigger] maze_walk(q) && q[0]@ == start && q.last()@ == m
}

/// Relies on `pathfinding::directed::bfs::bfs_reach`: every maze reachable
/// from `start` following `Maze::successors`, `start` included. It returns
/// only when there are finitely many.
#[verifier::external_body]
fn reachable_mazes(start: &Maze) -> (r: Vec<Maze>)
    requires
        exists|n: nat| walks_bounded(start@, n),
    ensures
        forall|m: MazeView| r@.map_values(|z: Maze| z@).contains(m) <==> reachable_from(start@, m),
{
    pathfinding::prelude::bfs_reach(start.clone(), |m: &Maze| m.successors()).collect()
}

/// The length of a longest way to the vault for the passcode `salt`; there
/// must be one, and finitely many walks.
pub fn longest(salt: &str) -> (r: usize)
    requires
        exists|n: nat| walks_bounded(start_view(salt@), n),
        exists|m: MazeView| reachable_from(start_view(salt@), m) && at_vault(m),
    ensures
        exists|m: MazeView| reachable_from(start_view(salt@), m) && at_vault(m) && m.path.len() == r,
        forall|m: MazeView| reachable_from(start_view(salt@), m) && at_vault(m) ==> m.path.len() <= r,
{
    let maze = Maze::new(salt);
    let all = reachable_mazes(&maze);
    let ghost views = all@.map_values(|z: Maze| z@);
    let mut best: Option<usize> = None;
    let mut k: usize = 0;
    while k < all.len()
        invariant
            k <= all@.len(),
            views == all@.map_values(|z: Maze| z@),
            forall|m: MazeView| views.contains(m) <==> reachable_from(start_view(salt@), m),
            best matches Some(b) ==> exists|j: int| 0 <= j < k && at_vault(all@[j]@) && all@[j]@.path.len() == b,
            forall|j: int| 0 <= j < k && at_vault(#[trigger] all@[j]@) ==> (best matches Some(b) && all@[j]@.path.len() <= b),
        decreases all@.len() - k,
    {
        let m = &all[k];
        if m.success() {
            let len = m.path.len();
            match best {
                Some(b) => {
                    if len > b {
                        best = Some(len);
                    }
                },
                None => {
                    best = Some(len);
                },
            }
        }
        k = k + 1;
    }
    proof {
        let m = choose|m: MazeView| reachable_from(start_view(salt@), m) && at_vault(m);
        assert(views.contains(m));
        let j = choose|j: int| 0 <= j < views.len() && views[j] == m;
        assert(all@[j]@ == m);
    }
    match best {
        Some(b) => {
            proof {
                let j = choose|j: int| 0 <= j < k && at_vault(all@[j]@) && all@[j]@.path.len() == b;
                assert(views[j] == all@[j]@);
                assert(views.contains(all@[j]@));
                assert forall|m: MazeView| reachable_from(start_view(salt@), m) && at_vault(m) implies m.path.len() <= b by {
                    assert(views.contains(m));
                    let i = choose|i: int| 0 <= i < views.len() && views[i] == m;
                    assert(all@[i]@ == m);
                }
            }
            b
        },
        None => 0,
    }
}

} // verus!
