use vstd::prelude::*;
use crate::text::{chars_of, digits_of, line_spans, lines, read_digits, string_from_chars, sub_chars};

verus! {

/// A room listing: an encrypted name, a sector id and a claimed checksum.
#[derive(Debug, Clone, PartialEq, Eq)]
pub struct Room {
    pub name: String,
    pub sector: u32,
    pub checksum: String,
}

/// The index of the last `c` in `s`, if any.
pub open spec fn last_index(s: Seq<char>, c: char) -> Option<nat>
    decreases s.len(),
{
    if s.len() == 0 {
        None
    } else if s.last() == c {
        Some((s.len() - 1) as nat)
    } else {
        last_index(s.drop_last(), c)
    }
}

/// The index of the first `c` in `s`, if any.
pub open spec fn first_of(s: Seq<char>, c: char) -> Option<nat>
    decreases s.len(),
{
    if s.len() == 0 {
        None
    } else if s[0] == c {
        Some(0)
    } else {
        match first_of(s.drop_first(), c) {
            Some(i) => Some(i + 1),
            None => None,
        }
    }
}

/// A listing `name-sector[check]`: the name is all before the last `-`, the
/// sector the digits up to the `[`, the checksum the five characters after it.
pub open spec fn room_line(s: Seq<char>) -> Option<(Seq<char>, u32, Seq<char>)> {
    match last_index(s, '-') {
        None => None,
        Some(d) => {
            let rest = s.skip(d + 1int);
            match first_of(rest, '[') {
                None => None,
                Some(b) => {
                    let num = rest.take(b as int);
                    let after = rest.skip(b + 1int);
                    if digits_of(num) is Some && digits_of(num)->0 <= u32::MAX && after.len() >= 5 {
                        Some((s.take(d as int), digits_of(num)->0 as u32, after.take(5)))
                    } else {
                        None
                    }
                },
            }
        },
    }
}

/// How often `c` occurs in `s`.
pub open spec fn occurrences(s: Seq<char>, c: char) -> nat
    decreases s.len(),
{
    if s.len() == 0 {
        0
    } else {
        occurrences(s.drop_last(), c) + if s.last() == c {
            1nat
        } else {
            0nat
        }
    }
}

/// `a` ranks before `b` in the checksum: more frequent, or as frequent and
/// earlier in the alphabet.
pub open spec fn ranks_before(name: Seq<char>, a: char, b: char) -> bool {
    occurrences(name, a) > occurrences(name, b) || (occurrences(name, a) == occurrences(name, b) && a < b)
}

pub open spec fn is_letter_of(name: Seq<char>, c: char) -> bool {
    c != '-' && occurrences(name, c) > 0
}

/// `r` is the checksum of `name`: its up to five highest-ranked letters, in rank order.
pub open spec fn checksum_of(name: Seq<char>, r: Seq<char>) -> bool {
    &&& r.len() <= 5
    &&& forall|k: int| 0 <= k < r.len() ==> #[trigger] is_letter_of(name, r[k])
    &&& forall|k: int| 0 <= k < r.len() - 1 ==> ranks_before(name, #[trigger] r[k], r[k + 1])
    &&& forall|c: char|
        #[trigger] is_letter_of(name, c) && !r.contains(c) ==> r.len() == 5 && ranks_before(name, r[4], c)
}

fn count_letters(name: &Vec<char>) -> (r: Vec<(char, usize)>)
    ensures
        forall|k: int| 0 <= k < r@.len() ==> (#[trigger] r@[k]).1 == occurrences(name@, r@[k].0),
        forall|k: int| 0 <= k < r@.len() ==> #[trigger] is_letter_of(name@, r@[k].0),
        forall|c: char| #[trigger] is_letter_of(name@, c) ==> exists|k: int| 0 <= k < r@.len() && (#[trigger] r@[k]).0 == c,
        forall|a: int, b: int| 0 <= a < b < r@.len() ==> (#[trigger] r@[a]).0 != (#[trigger] r@[b]).0,
{
    let mut pairs: Vec<(char, usize)> = Vec::new();
    let mut j: usize = 0;
    while j < name.len()
        invariant
            j <= name@.len(),
            forall|k: int| 0 <= k < pairs@.len() ==> (#[trigger] pairs@[k]).1 == occurrences(name@.take(j as int), pairs@[k].0),
            forall|k: int| 0 <= k < pairs@.len() ==> (#[trigger] pairs@[k]).1 <= j,
            forall|k: int| 0 <= k < pairs@.len() ==> #[trigger] is_letter_of(name@.take(j as int), pairs@[k].0),
            forall|c: char| #[trigger] is_letter_of(name@.take(j as int), c) ==> exists|k: int| 0 <= k < pairs@.len() && (#[trigger] pairs@[k]).0 == c,
            forall|a: int, b: int| 0 <= a < b < pairs@.len() ==> (#[trigger] pairs@[a]).0 != (#[trigger] pairs@[b]).0,
        decreases name@.len() - j,
    {
        let ghost before = pairs@;
        let ghost pre = name@.take(j as int);
        let ghost post = name@.take(j + 1);
        proof {
            assert(post.drop_last() =~= pre);
        }
        let c = name[j];
        if c != '-' {
            let k = find_pair(&pairs, c);
            proof {
                if k == pairs@.len() && occurrences(pre, c) > 0 {
                    assert(is_letter_of(pre, c));
                    let z = choose|z: int| 0 <= z < before.len() && (#[trigger] before[z]).0 == c;
                    assert(before[z].0 != c);
                }
            }
            if k < pairs.len() {
                let n = pairs[k].1;
                pairs.set(k, (c, n + 1));
            } else {
                pairs.push((c, 1));
            }
            proof {
                assert forall|q: int| 0 <= q < pairs@.len() implies (#[trigger] pairs@[q]).1 == occurrences(post, pairs@[q].0)
                    && pairs@[q].1 <= j + 1 && is_letter_of(post, pairs@[q].0) by {
                    if q < before.len() && q != k {
                        assert(pairs@[q] == before[q]);
                        if k < before.len() {
                            assert(before[k as int].0 == c);
                        }
                        assert(before[q].0 != c);
                        assert(is_letter_of(pre, before[q].0));
                    }
                }
                assert forall|d: char| #[trigger] is_letter_of(post, d) implies exists|q: int|
                    0 <= q < pairs@.len() && (#[trigger] pairs@[q]).0 == d by {
                    if d == c {
                        assert(pairs@[k as int].0 == c);
                    } else {
                        assert(is_letter_of(pre, d));
                        let q = choose|q: int| 0 <= q < before.len() && (#[trigger] before[q]).0 == d;
                        assert(pairs@[q].0 == d);
                    }
                }
                assert forall|a: int, b: int| 0 <= a < b < pairs@.len() implies (#[trigger] pairs@[a]).0
                    != (#[trigger] pairs@[b]).0 by {
                    if b < before.len() {
                        if a != k && b != k {
                            assert(pairs@[a] == before[a] && pairs@[b] == before[b]);
                        } else if a == k {
                            assert(pairs@[b] == before[b]);
                        } else {
                            assert(pairs@[a] == before[a]);
                        }
                    } else {
                        assert(pairs@[a] == before[a]);
                    }
                }
            }
        } else {
            proof {
                assert forall|q: int| 0 <= q < pairs@.len() implies (#[trigger] pairs@[q]).1 == occurrences(post, pairs@[q].0)
                    && is_letter_of(post, pairs@[q].0) by {
                    assert(is_letter_of(pre, pairs@[q].0));
                }
                assert forall|d: char| #[trigger] is_letter_of(post, d) implies exists|q: int|
                    0 <= q < pairs@.len() && (#[trigger] pairs@[q]).0 == d by {
                    assert(is_letter_of(pre, d));
                }
            }
        }
        j = j + 1;
    }
    proof {
        assert(name@.take(j as int) =~= name@);
    }
    pairs
}

fn find_pair(pairs: &Vec<(char, usize)>, c: char) -> (k: usize)
    ensures
        k <= pairs@.len(),
        forall|q: int| 0 <= q < k ==> (#[trigger] pairs@[q]).0 != c,
        k < pairs@.len() ==> pairs@[k as int].0 == c,
{
    let mut k: usize = 0;
    while k < pairs.len() && pairs[k].0 != c
        invariant
            k <= pairs@.len(),
            forall|q: int| 0 <= q < k ==> (#[trigger] pairs@[q]).0 != c,
        decreases pairs@.len() - k,
    {
        k = k + 1;
    }
    k
}

fn ranks(a: (char, usize), b: (char, usize)) -> (r: bool)
    ensures
        r == (a.1 > b.1 || (a.1 == b.1 && a.0 < b.0)),
{
    a.1 > b.1 || (a.1 == b.1 && a.0 < b.0)
}

fn holds(v: &Vec<char>, c: char) -> (r: bool)
    ensures
        r == v@.contains(c),
{
    let mut k: usize = 0;
    while k < v.len()
        invariant
            k <= v@.len(),
            forall|q: int| 0 <= q < k ==> v@[q] != c,
        decreases v@.len() - k,
    {
        if v[k] == c {
            assert(v@[k as int] == c);
            return true;
        }
        k = k + 1;
    }
    false
}

/// The up to five highest-ranked letters of `name`, in rank order.
fn top_five(name: &Vec<char>) -> (r: Vec<char>)
    ensures
        checksum_of(name@, r@),
{
    let ghost nm = name@;
    let pairs = count_letters(name);
    let mut r: Vec<char> = Vec::new();
    while r.len() < 5
        invariant
            r@.len() <= 5,
            nm == name@,
            forall|k: int| 0 <= k < pairs@.len() ==> (#[trigger] pairs@[k]).1 == occurrences(nm, pairs@[k].0),
            forall|k: int| 0 <= k < pairs@.len() ==> #[trigger] is_letter_of(nm, pairs@[k].0),
            forall|c: char| #[trigger] is_letter_of(nm, c) ==> exists|k: int| 0 <= k < pairs@.len() && (#[trigger] pairs@[k]).0 == c,
            forall|k: int| 0 <= k < r@.len() ==> #[trigger] is_letter_of(nm, r@[k]),
            forall|k: int| 0 <= k < r@.len() - 1 ==> ranks_before(nm, #[trigger] r@[k], r@[k + 1]),
            r@.len() > 0 ==> forall|c: char| #[trigger] is_letter_of(nm, c) && !r@.contains(c) ==> ranks_before(nm, r@.last(), c),
        decreases 5 - r@.len(),
    {
        let mut best: Option<(char, usize)> = None;
        let mut k: usize = 0;
        while k < pairs.len()
            invariant
                k <= pairs@.len(),
                forall|q: int| 0 <= q < pairs@.len() ==> (#[trigger] pairs@[q]).1 == occurrences(nm, pairs@[q].0),
                forall|q: int| 0 <= q < pairs@.len() ==> #[trigger] is_letter_of(nm, pairs@[q].0),
                match best {
                    Some(b) => is_letter_of(nm, b.0) && !r@.contains(b.0) && b.1 == occurrences(nm, b.0)
                        && forall|q: int| 0 <= q < k && !r@.contains((#[trigger] pairs@[q]).0) && pairs@[q].0 != b.0 ==> ranks_before(nm, b.0, pairs@[q].0),
                    None => forall|q: int| 0 <= q < k ==> r@.contains((#[trigger] pairs@[q]).0),
                },
            decreases pairs@.len() - k,
        {
            let p = pairs[k];
            if !holds(&r, p.0) {
                match best {
                    None => {
                        best = Some(p);
                    },
                    Some(b) => {
                        if ranks(p, b) {
                            best = Some(p);
                        }
                    },
                }
            }
            k = k + 1;
        }
        match best {
            None => {
                proof {
                    assert forall|c: char| #[trigger] is_letter_of(nm, c) && !r@.contains(c) implies r@.len() == 5
                        && ranks_before(nm, r@[4], c) by {
                        let q = choose|q: int| 0 <= q < pairs@.len() && (#[trigger] pairs@[q]).0 == c;
                        assert(r@.contains(pairs@[q].0));
                    }
                }
                return r;
            },
            Some(b) => {
                let ghost before = r@;
                r.push(b.0);
                proof {
                    assert forall|k: int| 0 <= k < r@.len() - 1 implies ranks_before(nm, #[trigger] r@[k], r@[k + 1]) by {
                        if k < before.len() - 1 {
                            assert(r@[k] == before[k] && r@[k + 1] == before[k + 1]);
                        } else {
                            assert(r@[k] == before.last());
                        }
                    }
                    assert forall|c: char| #[trigger] is_letter_of(nm, c) && !r@.contains(c) implies ranks_before(nm, r@.last(), c) by {
                        assert(!before.contains(c)) by {
                            if before.contains(c) {
                                let z = choose|z: int| 0 <= z < before.len() && before[z] == c;
                                assert(r@[z] == c);
                            }
                        }
                        let q = choose|q: int| 0 <= q < pairs@.len() && (#[trigger] pairs@[q]).0 == c;
                        assert(c != b.0) by {
                            assert(r@[before.len() as int] == b.0);
                        }
                    }
                    assert forall|k: int| 0 <= k < r@.len() implies #[trigger] is_letter_of(nm, r@[k]) by {
                        if k < before.len() {
                            assert(r@[k] == before[k]);
                        }
                    }
                }
            },
        }
    }
    r
}

/// The decrypted form of `c`: letters shifted `sector` places round the
/// alphabet, dashes become spaces.
pub open spec fn shifted(c: char, sector: u32) -> char {
    if c == '-' {
        ' '
    } else {
        "abcdefghijklmnopqrstuvwxyz"@[((c as u32) as int - 97 + sector as int) % 26]
    }
}

impl Room {
    /// Reads a listing `name-sector[check]`.
    pub fn parse(input: &str) -> (r: Option<Room>)
        ensures
            match r {
                Some(room) => room_line(input@) == Some((room.name@, room.sector, room.checksum@)),
                None => room_line(input@) is None,
            },
    {
        let cs = chars_of(input);
        let n = cs.len();
        let mut d = n;
        proof {
            assert(cs@.take(n as int) =~= cs@);
        }
        while d > 0 && cs[d - 1] != '-'
            invariant
                d <= n == cs@.len(),
                last_index(cs@, '-') == last_index(cs@.take(d as int), '-'),
            decreases d,
        {
            proof {
                assert(cs@.take(d as int).drop_last() =~= cs@.take(d - 1));
            }
            d = d - 1;
        }
        proof {
            assert(cs@.take(n as int) =~= cs@);
        }
        if d == 0 {
            proof {
                assert(cs@.take(0) =~= Seq::<char>::empty());
            }
            return None;
        }
        let dash = d - 1;
        proof {
            assert(cs@.take(d as int).last() == '-');
            assert(cs@ == input@);
        }
        let ghost rest = cs@.skip(dash + 1);
        let mut b = dash + 1;
        proof {
            assert(cs@.skip(b as int) =~= rest);
        }
        while b < n && cs[b] != '['
            invariant
                dash + 1 <= b <= n == cs@.len(),
                rest == cs@.skip(dash + 1),
                first_of(rest, '[') == match first_of(cs@.skip(b as int), '[') {
                    Some(i) => Some((i + b - dash - 1) as nat),
                    None => None::<nat>,
                },
            decreases n - b,
        {
            proof {
                assert(cs@.skip(b as int).drop_first() =~= cs@.skip(b + 1));
            }
            b = b + 1;
        }
        if b == n {
            proof {
                assert(cs@.skip(b as int).len() == 0);
            }
            return None;
        }
        proof {
            assert(rest.take(b - dash - 1) =~= cs@.subrange(dash + 1, b as int));
        }
        let sector = match read_digits(&cs, dash + 1, b) {
            Some(v) => v,
            None => {
                return None;
            },
        };
        if sector > 0xffff_ffff || n - (b + 1) < 5 {
            return None;
        }
        proof {
            assert(rest.skip(b - dash).take(5) =~= cs@.subrange(b + 1, b + 6));
            assert(cs@.take(dash as int) =~= cs@.subrange(0, dash as int));
        }
        let name = string_from_chars(&sub_chars(&cs, 0, dash));
        let checksum = string_from_chars(&sub_chars(&cs, b + 1, b + 6));
        Some(Room { name, sector: sector as u32, checksum })
    }

    /// The five most common letters of the name, ties broken alphabetically.
    pub fn checksum(&self) -> (r: String)
        ensures
            checksum_of(self.name@, r@),
    {
        let name = chars_of(self.name.as_str());
        string_from_chars(&top_five(&name))
    }

    /// Whether the claimed checksum is the real one.
    pub fn legal(&self) -> (r: bool)
        ensures
            r == checksum_of(self.name@, self.checksum@),
    {
        let actual = chars_of(self.checksum().as_str());
        let claimed = chars_of(self.checksum.as_str());
        let ghost nm = self.name@;
        if actual.len() != claimed.len() {
            proof {
                lemma_checksum_unique(nm, actual@, claimed@);
            }
            return false;
        }
        let mut k: usize = 0;
        while k < actual.len()
            invariant
                nm == self.name@,
                claimed@ == self.checksum@,
                checksum_of(nm, actual@),
                k <= actual@.len() == claimed@.len(),
                forall|q: int| 0 <= q < k ==> actual@[q] == claimed@[q],
            decreases actual@.len() - k,
        {
            if actual[k] != claimed[k] {
                proof {
                    lemma_checksum_unique(nm, actual@, claimed@);
                }
                return false;
            }
            k = k + 1;
        }
        proof {
            assert(actual@ =~= claimed@);
        }
        true
    }

    /// The real name: each letter shifted by the sector id, dashes as spaces.
    pub fn decrypt(&self) -> (r: String)
        requires
            forall|k: int| 0 <= k < self.name@.len() ==> (#[trigger] self.name@[k]) == '-' || ('a' <= self.name@[k] <= 'z'),
        ensures
            r@ == self.name@.map_values(|c: char| shifted(c, self.sector)),
    {
        let name = chars_of(self.name.as_str());
        let alphabet = "abcdefghijklmnopqrstuvwxyz";
        proof {
            reveal_strlit("abcdefghijklmnopqrstuvwxyz");
        }
        let shift = self.sector % 26;
        let mut out: Vec<char> = Vec::new();
        let mut k: usize = 0;
        while k < name.len()
            invariant
                name@ == self.name@,
                k <= name@.len(),
                shift == self.sector % 26,
                alphabet@.len() == 26,
                forall|q: int| 0 <= q < name@.len() ==> (#[trigger] name@[q]) == '-' || ('a' <= name@[q] <= 'z'),
                alphabet@ == "abcdefghijklmnopqrstuvwxyz"@,
                out@ =~= self.name@.map_values(|c: char| shifted(c, self.sector)).take(k as int),
            decreases name@.len() - k,
        {
            let c = name[k];
            if c == '-' {
                out.push(' ');
            } else {
                let idx = ((c as u32 - 97 + shift) % 26) as usize;
                proof {
                    assert(((c as u32) as int - 97 + shift) % 26 == ((c as u32) as int - 97 + self.sector as int) % 26) by (nonlinear_arith)
                        requires
                            shift == self.sector % 26,
                            (c as u32) >= 97,
                    ;
                }
                let letter = alphabet.get_char(idx);
                proof {
                    assert(letter == shifted(c, self.sector));
                }
                out.push(letter);
            }
            k = k + 1;
            proof {
                assert(out@ =~= self.name@.map_values(|c: char| shifted(c, self.sector)).take(k as int));
            }
        }
        string_from_chars(&out)
    }
}

/// There is one checksum of a name.
proof fn lemma_checksum_unique(name: Seq<char>, a: Seq<char>, b: Seq<char>)
    requires
        checksum_of(name, a),
    ensures
        checksum_of(name, b) ==> a == b,
{
    if checksum_of(name, b) {
        assert forall|k: int| 0 <= k < a.len() && k < b.len() implies a[k] == b[k] by {
            lemma_rank_prefix(name, a, b, k);
        }
        if a.len() < b.len() {
            assert(is_letter_of(name, b[a.len() as int]));
            lemma_not_in_prefix(name, b, a.len() as int);
            assert(!a.contains(b[a.len() as int])) by {
                if a.contains(b[a.len() as int]) {
                    let z = choose|z: int| 0 <= z < a.len() && a[z] == b[a.len() as int];
                    assert(b[z] == a[z]);
                }
            }
        } else if b.len() < a.len() {
            assert(is_letter_of(name, a[b.len() as int]));
            lemma_not_in_prefix(name, a, b.len() as int);
            assert(!b.contains(a[b.len() as int])) by {
                if b.contains(a[b.len() as int]) {
                    let z = choose|z: int| 0 <= z < b.len() && b[z] == a[b.len() as int];
                    assert(b[z] == a[z]);
                }
            }
        }
        assert(a =~= b);
    }
}

/// In a checksum, an entry ranks after every earlier one.
proof fn lemma_rank_chain(name: Seq<char>, a: Seq<char>, i: int, j: int)
    requires
        checksum_of(name, a),
        0 <= i < j < a.len(),
    ensures
        ranks_before(name, a[i], a[j]),
    decreases j - i,
{
    if j > i + 1 {
        lemma_rank_chain(name, a, i, j - 1);
        assert(ranks_before(name, a[j - 1], a[j]));
    }
}

proof fn lemma_not_in_prefix(name: Seq<char>, a: Seq<char>, k: int)
    requires
        checksum_of(name, a),
        0 <= k < a.len(),
    ensures
        forall|j: int| 0 <= j < k ==> a[j] != a[k],
{
    assert forall|j: int| 0 <= j < k implies a[j] != a[k] by {
        lemma_rank_chain(name, a, j, k);
    }
}

/// Two checksums of one name agree on every place both have.
proof fn lemma_rank_prefix(name: Seq<char>, a: Seq<char>, b: Seq<char>, k: int)
    requires
        checksum_of(name, a),
        checksum_of(name, b),
        0 <= k < a.len(),
        k < b.len(),
    ensures
        a[k] == b[k],
    decreases k,
{
    if k > 0 {
        lemma_rank_prefix(name, a, b, k - 1);
    }
    assert forall|j: int| 0 <= j < k implies a[j] == b[j] by {
        if j < k - 1 {
            lemma_rank_prefix(name, a, b, j);
        }
    }
    lemma_not_in_prefix(name, a, k);
    lemma_not_in_prefix(name, b, k);
    // a[k] is not among a[..k] = b[..k]; if it were missing from b, b would rank all of it last
    assert(is_letter_of(name, a[k]));
    assert(is_letter_of(name, b[k]));
    if a[k] != b[k] {
        if !b.contains(a[k]) {
            assert(b.len() == 5);
            assert(ranks_before(name, b[4], a[k]));
            if k < 4 {
                lemma_rank_chain(name, b, k, 4);
            }
            assert(ranks_before(name, b[k], a[k]));
        } else {
            let z = choose|z: int| 0 <= z < b.len() && b[z] == a[k];
            assert(z > k) by {
                if z < k {
                    assert(a[z] == b[z]);
                }
            }
            lemma_rank_chain(name, b, k, z);
        }
        if !a.contains(b[k]) {
            assert(a.len() == 5);
            assert(ranks_before(name, a[4], b[k]));
            if k < 4 {
                lemma_rank_chain(name, a, k, 4);
            }
        } else {
            let z = choose|z: int| 0 <= z < a.len() && a[z] == b[k];
            assert(z > k) by {
                if z < k {
                    assert(a[z] == b[z]);
                }
            }
            lemma_rank_chain(name, a, k, z);
        }
    }
}

/// The rooms listed in `input`, one per line.
pub fn generate(input: &str) -> (r: Vec<Room>)
    requires
        forall|k: int| 0 <= k < lines(input@).len() ==> (#[trigger] room_line(lines(input@)[k])) is Some,
    ensures
        r@.len() == lines(input@).len(),
        forall|k: int| 0 <= k < r@.len() ==> room_line(lines(input@)[k]) == Some(((#[trigger] r@[k]).name@, r@[k].sector, r@[k].checksum@)),
{
    let cs = chars_of(input);
    let spans = line_spans(&cs);
    let ghost ls = lines(input@);
    let mut r: Vec<Room> = Vec::new();
    let mut i: usize = 0;
    while i < spans.len()
        invariant
            ls == lines(input@),
            cs@ == input@,
            spans@.len() == ls.len(),
            forall|k: int| 0 <= k < ls.len() ==> (#[trigger] room_line(ls[k])) is Some,
            forall|k: int| #![trigger spans@[k]] 0 <= k < spans@.len() ==> spans@[k].0 <= spans@[k].1 <= cs@.len(),
            forall|k: int|
                0 <= k < spans@.len() ==> #[trigger] ls[k] == cs@.subrange(
                    spans@[k].0 as int,
                    spans@[k].1 as int,
                ),
            i <= spans@.len(),
            r@.len() == i,
            forall|k: int| 0 <= k < i ==> room_line(ls[k]) == Some(((#[trigger] r@[k]).name@, r@[k].sector, r@[k].checksum@)),
        decreases spans@.len() - i,
    {
        let (st, en) = spans[i];
        proof {
            assert(ls[i as int] == cs@.subrange(st as int, en as int));
            assert(room_line(ls[i as int]) is Some);
        }
        match Room::parse(input.substring_char(st, en)) {
            Some(room) => {
                let ghost before = r@;
                r.push(room);
                proof {
                    assert forall|k: int| 0 <= k < i + 1 implies room_line(ls[k]) == Some(((#[trigger] r@[k]).name@, r@[k].sector, r@[k].checksum@)) by {
                        if k < i {
                            assert(r@[k] == before[k]);
                        }
                    }
                }
            },
            None => {
                return r;
            },
        }
        i = i + 1;
    }
    r
}

/// The sum of the sectors of the first `n` rooms that are real.
pub open spec fn legal_sum(rooms: Seq<Room>, n: nat) -> nat
    decreases n,
{
    if n == 0 {
        0
    } else {
        legal_sum(rooms, (n - 1) as nat) + if checksum_of(rooms[n - 1].name@, rooms[n - 1].checksum@) {
            rooms[n - 1].sector as nat
        } else {
            0nat
        }
    }
}

/// The name of the room that stores the north pole objects.
pub open spec fn north_pole_room(room: Room) -> bool {
    checksum_of(room.name@, room.checksum@) && room.name@.map_values(|c: char| shifted(c, room.sector))
        == "northpole object storage"@
}

/// The sum of the sector ids of the real rooms.
pub fn solve(rooms: &[Room]) -> (r: u32)
    requires
        legal_sum(rooms@, rooms@.len()) <= u32::MAX,
    ensures
        r == legal_sum(rooms@, rooms@.len()),
{
    let mut total: u32 = 0;
    let mut i: usize = 0;
    while i < rooms.len()
        invariant
            i <= rooms@.len(),
            legal_sum(rooms@, rooms@.len()) <= u32::MAX,
            total == legal_sum(rooms@, i as nat),
        decreases rooms@.len() - i,
    {
        proof {
            lemma_legal_sum_grows(rooms@, (i + 1) as nat, rooms@.len());
        }
        if rooms[i].legal() {
            total = total + rooms[i].sector;
        }
        i = i + 1;
    }
    total
}

proof fn lemma_legal_sum_grows(rooms: Seq<Room>, m: nat, n: nat)
    requires
        m <= n,
    ensures
        legal_sum(rooms, m) <= legal_sum(rooms, n),
    decreases n - m,
{
    if m < n {
        lemma_legal_sum_grows(rooms, m, (n - 1) as nat);
    }
}

/// The sum of the sectors of the first `n` rooms that are the north pole room.
pub open spec fn north_sum(rooms: Seq<Room>, n: nat) -> nat
    decreases n,
{
    if n == 0 {
        0
    } else {
        north_sum(rooms, (n - 1) as nat) + if north_pole_room(rooms[n - 1]) {
            rooms[n - 1].sector as nat
        } else {
            0nat
        }
    }
}

proof fn lemma_north_sum_grows(rooms: Seq<Room>, m: nat, n: nat)
    requires
        m <= n,
    ensures
        north_sum(rooms, m) <= north_sum(rooms, n),
    decreases n - m,
{
    if m < n {
        lemma_north_sum_grows(rooms, m, (n - 1) as nat);
    }
}

/// The sum of the sector ids of the real rooms whose name decrypts to
/// `northpole object storage`.
pub fn solve2(rooms: &[Room]) -> (r: u32)
    requires
        forall|i: int, k: int|
            0 <= i < rooms@.len() && 0 <= k < rooms@[i].name@.len() ==> (#[trigger] rooms@[i].name@[k]) == '-' || (
            'a' <= rooms@[i].name@[k] <= 'z'),
        north_sum(rooms@, rooms@.len()) <= u32::MAX,
    ensures
        r == north_sum(rooms@, rooms@.len()),
{
    let target = "northpole object storage";
    let mut total: u32 = 0;
    let mut i: usize = 0;
    while i < rooms.len()
        invariant
            i <= rooms@.len(),
            target@ == "northpole object storage"@,
            forall|j: int, k: int|
                0 <= j < rooms@.len() && 0 <= k < rooms@[j].name@.len() ==> (#[trigger] rooms@[j].name@[k]) == '-' || (
                'a' <= rooms@[j].name@[k] <= 'z'),
            north_sum(rooms@, rooms@.len()) <= u32::MAX,
            total == north_sum(rooms@, i as nat),
        decreases rooms@.len() - i,
    {
        proof {
            lemma_north_sum_grows(rooms@, (i + 1) as nat, rooms@.len());
        }
        let room = &rooms[i];
        let mut hit = false;
        if room.legal() {
            let plain = chars_of(room.decrypt().as_str());
            let want = chars_of(target);
            if plain.len() == want.len() && same_chars(&plain, &want) {
                hit = true;
            }
        }
        proof {
            assert(hit == north_pole_room(rooms@[i as int]));
        }
        if hit {
            total = total + room.sector;
        }
        i = i + 1;
    }
    total
}

fn same_chars(a: &Vec<char>, b: &Vec<char>) -> (r: bool)
    requires
        a@.len() == b@.len(),
    ensures
        r == (a@ == b@),
{
    let mut k: usize = 0;
    while k < a.len()
        invariant
            a@.len() == b@.len(),
            k <= a@.len(),
            forall|q: int| 0 <= q < k ==> a@[q] == b@[q],
        decreases a@.len() - k,
    {
        if a[k] != b[k] {
            return false;
        }
        k = k + 1;
    }
    assert(a@ =~= b@);
    true
}

} // verus!
