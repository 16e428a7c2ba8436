use vstd::prelude::*;
use crate::text::{chars_of, string_from_chars};

verus! {

pub open spec fn flip(c: char) -> char {
    if c == '0' {
        '1'
    } else {
        '0'
    }
}

/// One step of the dragon curve: `s`, then `0`, then `s` reversed with
/// every digit flipped.
pub open spec fn dragon(s: Seq<char>) -> Seq<char> {
    s + seq!['0'] + Seq::new(s.len(), |i: int| flip(s[s.len() - 1 - i]))
}

/// One round of the checksum: a `1` for each pair of equal characters, a `0`
/// for each unequal pair; a last unpaired character is dropped.
pub open spec fn pair_sum(s: Seq<char>) -> Seq<char> {
    Seq::new(s.len() / 2, |i: int| if s[2 * i] == s[2 * i + 1] { '1' } else { '0' })
}

/// Rounds of `pair_sum` until the length is odd.
pub open spec fn checksum_spec(s: Seq<char>) -> Seq<char>
    decreases s.len(),
{
    let t = pair_sum(s);
    if t.len() % 2 == 1 || t.len() == 0 {
        t
    } else {
        checksum_spec(t)
    }
}

/// The curve grown from `s` until it holds at least `size` characters.
pub open spec fn grow(s: Seq<char>, size: nat) -> Seq<char>
    decreases (if s.len() < size { size - s.len() } else { 0 }),
{
    if s.len() >= size {
        s
    } else if dragon(s).len() > s.len() {
        grow(dragon(s), size)
    } else {
        s
    }
}

pub open spec fn fill_spec(seed: Seq<char>, size: nat) -> Seq<char> {
    checksum_spec(grow(seed, size).take(size as int))
}

fn dragon_chars(s: &Vec<char>) -> (r: Vec<char>)
    requires
        s@.len() < usize::MAX / 2,
    ensures
        r@ == dragon(s@),
{
    let n = s.len();
    let mut r: Vec<char> = Vec::new();
    let mut i: usize = 0;
    while i < n
        invariant
            n == s@.len(),
            i <= n,
            r@ == s@.take(i as int),
        decreases n - i,
    {
        r.push(s[i]);
        i = i + 1;
        proof {
            assert(r@ =~= s@.take(i as int));
        }
    }
    r.push('0');
    let mut j: usize = 0;
    while j < n
        invariant
            n == s@.len(),
            j <= n,
            r@ == s@ + seq!['0'] + Seq::new(j as nat, |i: int| flip(s@[n - 1 - i])),
        decreases n - j,
    {
        let c = s[n - 1 - j];
        r.push(if c == '0' { '1' } else { '0' });
        j = j + 1;
        proof {
            assert(r@ =~= s@ + seq!['0'] + Seq::new(j as nat, |i: int| flip(s@[n - 1 - i])));
        }
    }
    proof {
        assert(s@.take(n as int) =~= s@);
        assert(r@ =~= dragon(s@));
    }
    r
}

/// One dragon step on the string `s`.
pub fn expand(s: &str) -> (r: String)
    requires
        s@.len() < usize::MAX / 2,
    ensures
        r@ == dragon(s@),
{
    let v = chars_of(s);
    string_from_chars(&dragon_chars(&v))
}

fn pair_sum_chars(s: &Vec<char>) -> (r: Vec<char>)
    ensures
        r@ == pair_sum(s@),
{
    let n = s.len();
    let mut r: Vec<char> = Vec::new();
    let mut j: usize = 0;
    while j + 1 < n
        invariant
            n == s@.len(),
            j == 2 * r@.len(),
            j <= n,
            r@ =~= pair_sum(s@).take(r@.len() as int),
        decreases n - j,
    {
        r.push(if s[j] == s[j + 1] { '1' } else { '0' });
        j = j + 2;
        proof {
            assert(r@ =~= pair_sum(s@).take(r@.len() as int));
        }
    }
    proof {
        assert(r@.len() == n / 2);
        assert(pair_sum(s@).take(r@.len() as int) =~= pair_sum(s@));
    }
    r
}

fn checksum_chars(s: &Vec<char>) -> (r: Vec<char>)
    requires
        s@.len() >= 2,
    ensures
        r@ == checksum_spec(s@),
{
    let mut sum = pair_sum_chars(s);
    while sum.len() % 2 == 0 && sum.len() > 0
        invariant
            checksum_spec(s@) == if sum@.len() % 2 == 1 || sum@.len() == 0 {
                sum@
            } else {
                checksum_spec(sum@)
            },
        decreases sum@.len(),
    {
        sum = pair_sum_chars(&sum);
    }
    sum
}

/// The checksum of `s`: pairs of characters folded until the length is odd.
/// `s` needs two characters at least, else no odd length is ever reached.
pub fn checksum(s: &str) -> (r: String)
    requires
        s@.len() >= 2,
    ensures
        r@ == checksum_spec(s@),
{
    let v = chars_of(s);
    string_from_chars(&checksum_chars(&v))
}

/// The checksum of the first `size` characters of the curve grown from `seed`.
pub fn fill_disk(seed: &str, size: usize) -> (r: String)
    requires
        2 <= size < usize::MAX / 4,
    ensures
        r@ == fill_spec(seed@, size as nat),
{
    let mut pattern = chars_of(seed);
    while pattern.len() < size
        invariant
            grow(pattern@, size as nat) == grow(seed@, size as nat),
            2 <= size < usize::MAX / 4,
        decreases (if pattern@.len() < size { size - pattern@.len() } else { 0 }),
    {
        let ghost before = pattern@;
        pattern = dragon_chars(&pattern);
        assert(pattern@.len() == 2 * before.len() + 1);
        assert(dragon(before).len() > before.len());
    }
    let mut head: Vec<char> = Vec::new();
    let mut i: usize = 0;
    while i < size
        invariant
            i <= size <= pattern@.len(),
            head@ == pattern@.take(i as int),
        decreases size - i,
    {
        head.push(pattern[i]);
        i = i + 1;
        proof {
            assert(head@ =~= pattern@.take(i as int));
        }
    }
    string_from_chars(&checksum_chars(&head))
}

/// The checksum for a disk of 272 characters.
pub fn solve(seed: &str) -> (r: String)
    ensures
        r@ == fill_spec(seed@, 272),
{
    fill_disk(seed, 272)
}

/// The checksum for a disk of 35651584 characters.
pub fn solve2(seed: &str) -> (r: String)
    ensures
        r@ == fill_spec(seed@, 35651584),
{
    fill_disk(seed, 35651584)
}

} // verus!
