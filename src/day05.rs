use vstd::prelude::*;
use vstd::utf8::encode_utf8;
use crate::day14::dec_digits;
use crate::day17::{hex_byte, md5_digest, md5_of};
use crate::text::string_from_chars;

verus! {

/// The digest for the door id `salt` and the index `i`.
pub open spec fn door_digest(salt: Seq<char>, i: nat) -> Seq<u8> {
    md5_of(encode_utf8(salt) + dec_digits(i))
}

/// The hex form of the digest starts with five zeros.
pub open spec fn interesting(d: Seq<u8>) -> bool {
    d[0] == 0 && d[1] == 0 && d[2] < 16
}

/// The number of interesting indices below `n`.
pub open spec fn interesting_below(salt: Seq<char>, n: nat) -> nat
    decreases n,
{
    if n == 0 {
        0
    } else {
        interesting_below(salt, (n - 1) as nat) + if interesting(door_digest(salt, (n - 1) as nat)) {
            1nat
        } else {
            0nat
        }
    }
}

/// Hex digit `k` (from zero) of the digest `d`, as a character.
pub open spec fn hex_digit_at(d: Seq<u8>, k: int) -> char {
    (hex_byte(if k % 2 == 0 { (d[k / 2] / 16) as int } else { (d[k / 2] % 16) as int })) as char
}

/// `c` is the sixth hex digit of the digest at the index that is the
/// `k`-th interesting one (from zero).
pub open spec fn password_char(salt: Seq<char>, k: int, c: char) -> bool {
    exists|i: nat|
        #[trigger] interesting_below(salt, i) == k && interesting(door_digest(salt, i)) && c == hex_digit_at(
            door_digest(salt, i),
            5,
        )
}

fn push_decimal(buf: &mut Vec<u8>, n: usize)
    ensures
        final(buf)@ == old(buf)@ + dec_digits(n as nat),
    decreases n,
{
    let ghost start = buf@;
    if n >= 10 {
        push_decimal(buf, n / 10);
    }
    buf.push(48 + (n % 10) as u8);
    proof {
        if n >= 10 {
            assert(buf@ =~= start + dec_digits((n / 10) as nat).push((48 + n % 10) as u8));
        } else {
            assert(buf@ =~= start + dec_digits(n as nat));
        }
    }
}

/// The digest at index `i`, with `buf` holding the door id's bytes in its
/// first `plen` places; the bytes after them are replaced.
fn digest_into(buf: &mut Vec<u8>, plen: usize, salt: &str, i: usize) -> (r: [u8; 16])
    requires
        old(buf)@.len() >= plen,
        old(buf)@.take(plen as int) == encode_utf8(salt@),
    ensures
        r@ == door_digest(salt@, i as nat),
        final(buf)@.len() >= plen,
        final(buf)@.take(plen as int) == encode_utf8(salt@),
{
    buf.truncate(plen);
    proof {
        assert(buf@ =~= encode_utf8(salt@));
    }
    push_decimal(buf, i);
    proof {
        assert(buf@.take(plen as int) =~= encode_utf8(salt@));
    }
    md5_digest(buf.as_slice())
}

fn salt_buffer(salt: &str) -> (r: (Vec<u8>, usize))
    ensures
        r.0@.len() == r.1,
        r.0@.take(r.1 as int) == encode_utf8(salt@),
{
    let buf = vstd::slice::slice_to_vec(salt.as_bytes());
    let plen = buf.len();
    proof {
        assert(buf@.take(plen as int) =~= buf@);
    }
    (buf, plen)
}

fn hex_char(n: u8) -> (r: char)
    requires
        n < 16,
    ensures
        r == (hex_byte(n as int)) as char,
{
    if n < 10 {
        ((48 + n) as u8) as char
    } else {
        ((87 + n) as u8) as char
    }
}

/// The password: the sixth hex digit of each of the first eight interesting
/// digests, in order; `None` if the indices run out first.
pub fn solve(input: &str) -> (r: Option<String>)
    ensures
        r matches Some(p) ==> p@.len() == 8 && forall|k: int| 0 <= k < 8 ==> #[trigger] password_char(input@, k, p@[k]),
{
    let mut out: Vec<char> = Vec::new();
    let ghost mut found: Seq<nat> = seq![];
    let (mut buf, plen) = salt_buffer(input);
    let mut index: usize = 0;
    while out.len() < 8
        invariant
            buf@.len() >= plen,
            buf@.take(plen as int) == encode_utf8(input@),
            out@.len() <= 8,
            found.len() == out@.len(),
            out@.len() == interesting_below(input@, index as nat),
            forall|k: int|
                #![trigger found[k]]
                0 <= k < found.len() ==> interesting_below(input@, found[k]) == k && interesting(door_digest(input@, found[k]))
                    && out@[k] == hex_digit_at(door_digest(input@, found[k]), 5),
        decreases usize::MAX - index,
    {
        if index == usize::MAX {
            return None;
        }
        let d = digest_into(&mut buf, plen, input, index);
        let ghost dd = door_digest(input@, index as nat);
        proof {
            assert(d@ == dd);
            assert(d@[0] == d[0] && d@[1] == d[1] && d@[2] == d[2]);
            assert(interesting_below(input@, (index + 1) as nat) == interesting_below(input@, index as nat) + if interesting(dd) {
                1nat
            } else {
                0nat
            });
        }
        if d[0] == 0 && d[1] == 0 && d[2] < 16 {
            let c = hex_char(d[2] % 16);
            proof {
                assert(c == hex_digit_at(dd, 5));
            }
            let ghost before = out@;
            let ghost before_found = found;
            out.push(c);
            proof {
                found = found.push(index as nat);
                assert forall|k: int| #![trigger found[k]] 0 <= k < found.len() implies interesting_below(input@, found[k]) == k
                    && interesting(door_digest(input@, found[k])) && out@[k] == hex_digit_at(door_digest(input@, found[k]), 5) by {
                    if k < before.len() {
                        assert(out@[k] == before[k]);
                        assert(found[k] == before_found[k]);
                    }
                }
            }
        }
        index = index + 1;
    }
    let p = string_from_chars(&out);
    proof {
        assert(out@.len() == 8);
        assert(p@.len() == 8);
        assert forall|k: int| 0 <= k < 8 implies #[trigger] password_char(input@, k, p@[k]) by {
            assert(interesting_below(input@, found[k]) == k);
            assert(p@[k] == out@[k]);
        }
    }
    Some(p)
}

/// Index `i` gives a digit for position `p`: its digest is interesting and
/// its sixth hex digit is `p`.
pub open spec fn hit(salt: Seq<char>, i: nat, p: int) -> bool {
    interesting(door_digest(salt, i)) && door_digest(salt, i)[2] % 16 == p
}

/// `c` is the seventh hex digit of the first index that gives a digit for
/// position `p`.
pub open spec fn placed_char(salt: Seq<char>, p: int, c: char) -> bool {
    exists|i: nat|
        #[trigger] hit(salt, i, p) && (forall|j: nat| j < i ==> !hit(salt, j, p)) && c == hex_digit_at(
            door_digest(salt, i),
            6,
        )
}

fn all_placed(ans: &Vec<char>) -> (r: bool)
    ensures
        r == forall|p: int| 0 <= p < ans@.len() ==> ans@[p] != '_',
{
    let mut k: usize = 0;
    while k < ans.len()
        invariant
            k <= ans@.len(),
            forall|p: int| 0 <= p < k ==> ans@[p] != '_',
        decreases ans@.len() - k,
    {
        if ans[k] == '_' {
            return false;
        }
        k = k + 1;
    }
    true
}

/// The password of the second door: each interesting digest whose sixth hex
/// digit is a position 0 to 7 not yet filled puts its seventh hex digit
/// there. `None` if the indices run out first.
pub fn solve2(input: &str) -> (r: Option<String>)
    ensures
        r matches Some(p) ==> p@.len() == 8 && forall|k: int| 0 <= k < 8 ==> #[trigger] placed_char(input@, k, p@[k]),
{
    let mut ans: Vec<char> = Vec::new();
    let mut q: usize = 0;
    while q < 8
        invariant
            q <= 8,
            ans@.len() == q,
            forall|p: int| 0 <= p < q ==> ans@[p] == '_',
        decreases 8 - q,
    {
        ans.push('_');
        q = q + 1;
    }
    let ghost mut firsts: Seq<nat> = Seq::new(8, |p: int| 0nat);
    let (mut buf, plen) = salt_buffer(input);
    let mut index: usize = 0;
    while !all_placed(&ans)
        invariant
            buf@.len() >= plen,
            buf@.take(plen as int) == encode_utf8(input@),
            ans@.len() == 8,
            firsts.len() == 8,
            forall|p: int|
                #![trigger ans@[p]]
                0 <= p < 8 ==> (ans@[p] == '_' <==> forall|j: nat| j < index ==> !hit(input@, j, p)),
            forall|p: int|
                #![trigger ans@[p]]
                0 <= p < 8 && ans@[p] != '_' ==> hit(input@, firsts[p], p) && (forall|j: nat| j < firsts[p] ==> !hit(input@, j, p))
                    && ans@[p] == hex_digit_at(door_digest(input@, firsts[p]), 6),
        decreases usize::MAX - index,
    {
        if index == usize::MAX {
            return None;
        }
        let d = digest_into(&mut buf, plen, input, index);
        let ghost dd = door_digest(input@, index as nat);
        proof {
            assert(d@ == dd);
            assert(d@[0] == d[0] && d@[1] == d[1] && d@[2] == d[2] && d@[3] == d[3]);
        }
        if d[0] == 0 && d[1] == 0 && d[2] < 16 && d[2] % 16 < 8 {
            let pos = (d[2] % 16) as usize;
            if ans[pos] == '_' {
                let c = hex_char(d[3] / 16);
                proof {
                    assert(c == hex_digit_at(dd, 6));
                    assert(hit(input@, index as nat, pos as int));
                }
                let ghost before = ans@;
                ans.set(pos, c);
                proof {
                    firsts = firsts.update(pos as int, index as nat);
                    assert(c != '_');
                }
            }
        }
        proof {
            assert forall|p: int| #![trigger ans@[p]] 0 <= p < 8 implies (ans@[p] == '_' <==> forall|j: nat| j < index + 1 ==> !hit(input@, j, p)) by {
                if hit(input@, index as nat, p) {
                    assert(ans@[p] != '_');
                }
            }
        }
        index = index + 1;
    }
    let p = string_from_chars(&ans);
    proof {
        assert forall|k: int| 0 <= k < 8 implies #[trigger] placed_char(input@, k, p@[k]) by {
            assert(p@[k] == ans@[k]);
            assert(ans@[k] != '_');
            assert(hit(input@, firsts[k], k));
        }
    }
    Some(p)
}

} // verus!
