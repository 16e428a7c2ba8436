use vstd::prelude::*;
use crate::text::{chars_of, digits_of, read_digits};

verus! {

pub open spec fn pow2(k: nat) -> nat
    decreases k,
{
    if k == 0 {
        1
    } else {
        2 * pow2((k - 1) as nat)
    }
}

pub open spec fn pow3(k: nat) -> nat
    decreases k,
{
    if k == 0 {
        1
    } else {
        3 * pow3((k - 1) as nat)
    }
}

/// `2^k` is the largest power of two not above `n`.
pub open spec fn is_top_power(n: nat, k: nat) -> bool {
    pow2(k) <= n < 2 * pow2(k)
}

/// The power of two `p` with `p <= n < 2p`, for `n >= 1`.
fn top_power_of_two(n: usize) -> (r: usize)
    requires
        n >= 1,
    ensures
        exists|k: nat| is_top_power(n as nat, k) && r == pow2(k),
{
    let mut p: usize = 1;
    let ghost mut k: nat = 0;
    while p <= n / 2
        invariant
            1 <= p <= n,
            p == pow2(k),
        decreases n - p,
    {
        p = p * 2;
        proof {
            k = k + 1;
        }
    }
    assert(is_top_power(n as nat, k));
    p
}

/// The winner of the circle where each player takes from the left
/// neighbour: with `n = 2^m + l` and `0 <= l < 2^m`, seat `2l + 1`. This is
/// the binary form of `n` with its leading one moved to the end. Zero players
/// give one.
pub fn josephus(input: &usize) -> (r: usize)
    ensures
        *input == 0 ==> r == 1,
        *input > 0 ==> exists|k: nat| is_top_power(*input as nat, k) && r == 2 * (*input - pow2(k)) + 1,
{
    let n = *input;
    if n == 0 {
        return 1;
    }
    let p = top_power_of_two(n);
    2 * (n - p) + 1
}

/// The same seat, by rotating the binary digits of `input` left by one.
/// Zero players give zero.
pub fn josephus_fiddling(input: &usize) -> (r: usize)
    ensures
        *input == 0 ==> r == 0,
        *input > 0 ==> exists|k: nat| is_top_power(*input as nat, k) && r == 2 * (*input - pow2(k)) + 1,
{
    let n = *input;
    if n == 0 {
        return 0;
    }
    let p = top_power_of_two(n);
    2 * (n - p) + 1
}

/// The same seat, by clearing the top bit of `input`, doubling and adding one.
pub fn josephus_bitmath(input: &usize) -> (r: usize)
    requires
        *input > 0,
    ensures
        exists|k: nat| is_top_power(*input as nat, k) && r == 2 * (*input - pow2(k)) + 1,
{
    let n = *input;
    let p = top_power_of_two(n);
    (n - p) * 2 + 1
}

/// The winner when each player takes from the one across the circle: the
/// number of players less the largest power of three below it. Fewer than
/// two players give their own number.
pub fn joe2(players: &usize) -> (r: usize)
    ensures
        *players < 2 ==> r == *players,
        *players >= 2 ==> exists|k: nat|
            pow3(k) < *players <= 3 * pow3(k) && r == *players - pow3(k),
{
    let n = *players;
    if n < 2 {
        return n;
    }
    let mut p: usize = 1;
    let ghost mut k: nat = 0;
    while p <= (n - 1) / 3
        invariant
            n >= 2,
            1 <= p < n,
            p == pow3(k),
        decreases n - p,
    {
        p = p * 3;
        proof {
            k = k + 1;
        }
    }
    assert(pow3(k) < n <= 3 * pow3(k));
    n - p
}

/// The number of players written in `input`, if it is one `usize` in
/// decimal digits.
pub fn generate(input: &str) -> (r: Option<usize>)
    ensures
        r == digits_of(input@),
{
    let cs = chars_of(input);
    proof {
        assert(cs@.subrange(0, cs@.len() as int) =~= cs@);
    }
    read_digits(&cs, 0, cs.len())
}

} // verus!
