use vstd::prelude::*;
use vstd::utf8::encode_utf8;
use crate::day17::{hex_byte, md5_digest, md5_of};
use crate::text::string_from_chars;

verus! {

/// The lower-case hex form of the bytes `d`, two digits a byte.
pub open spec fn hex_of(d: Seq<u8>) -> Seq<u8> {
    Seq::new(2 * d.len(), |i: int| hex_byte(if i % 2 == 0 { (d[i / 2] / 16) as int } else { (d[i / 2] % 16) as int }))
}

/// The decimal digits of `n`.
pub open spec fn dec_digits(n: nat) -> Seq<u8>
    decreases n,
{
    if n < 10 {
        seq![(48 + n) as u8]
    } else {
        dec_digits(n / 10).push((48 + n % 10) as u8)
    }
}

/// The hash of `salt` and `index`: the hex MD5 digest of the salt followed by
/// the index in decimal.
pub open spec fn single_hash(salt: Seq<char>, index: nat) -> Seq<u8> {
    hex_of(md5_of(encode_utf8(salt) + dec_digits(index)))
}

/// `h` hashed again `n` times, each time the hex digest of the previous one.
pub open spec fn rehashed(h: Seq<u8>, n: nat) -> Seq<u8>
    decreases n,
{
    if n == 0 {
        h
    } else {
        hex_of(md5_of(rehashed(h, (n - 1) as nat)))
    }
}

/// The hash used for the one-time pad: plain, or stretched by 2016 more rounds.
pub open spec fn pad_hash(salt: Seq<char>, index: nat, stretch: bool) -> Seq<u8> {
    if stretch {
        rehashed(single_hash(salt, index), 2016)
    } else {
        single_hash(salt, index)
    }
}

/// The character of the first run of three equal characters in `h`.
pub open spec fn first_triple(h: Seq<u8>) -> Option<u8>
    decreases h.len(),
{
    if h.len() < 3 {
        None
    } else if h[0] == h[1] && h[0] == h[2] {
        Some(h[0])
    } else {
        first_triple(h.drop_first())
    }
}

/// A run of five `c` starts in `h` before its last five places.
pub open spec fn has_five(c: u8, h: Seq<u8>) -> bool {
    exists|i: int|
        0 <= i && i + 5 < h.len() && #[trigger] h[i] == c && h[i + 1] == c && h[i + 2] == c && h[i + 3] == c
            && h[i + 4] == c
}

/// Index `i` gives a key: its hash has a triple whose character runs five
/// times in one of the next thousand hashes.
pub open spec fn is_key(salt: Seq<char>, stretch: bool, i: nat) -> bool {
    match first_triple(pad_hash(salt, i, stretch)) {
        Some(c) => exists|j: nat| i < j <= i + 1000 && #[trigger] has_five(c, pad_hash(salt, j, stretch)),
        None => false,
    }
}

/// The number of keys below `n`.
pub open spec fn keys_below(salt: Seq<char>, stretch: bool, n: nat) -> nat
    decreases n,
{
    if n == 0 {
        0
    } else {
        keys_below(salt, stretch, (n - 1) as nat) + if is_key(salt, stretch, (n - 1) as nat) {
            1nat
        } else {
            0nat
        }
    }
}

/// The first run of three equal bytes in `hash`, by its byte.
pub fn three_in_a_row(hash: &[u8]) -> (r: Option<u8>)
    ensures
        r == first_triple(hash@),
{
    let n = hash.len();
    let mut i: usize = 0;
    proof {
        assert(hash@.skip(0) =~= hash@);
    }
    while i < n && n - i > 2
        invariant
            n == hash@.len(),
            i <= n,
            first_triple(hash@) == first_triple(hash@.skip(i as int)),
        decreases n - i,
    {
        proof {
            assert(hash@.skip(i as int).drop_first() =~= hash@.skip(i + 1));
        }
        if hash[i] == hash[i + 1] && hash[i] == hash[i + 2] {
            return Some(hash[i]);
        }
        i = i + 1;
    }
    None
}

/// Whether a run of five `needle` starts in `hash` before its last five places.
pub fn five_in_a_row(needle: u8, hash: &[u8]) -> (r: bool)
    ensures
        r == has_five(needle, hash@),
{
    let n = hash.len();
    let mut i: usize = 0;
    while i < n && n - i > 5
        invariant
            n == hash@.len(),
            i <= n,
            forall|k: int|
                0 <= k < i ==> !(#[trigger] hash@[k] == needle && hash@[k + 1] == needle && hash@[k + 2] == needle
                    && hash@[k + 3] == needle && hash@[k + 4] == needle),
        decreases n - i,
    {
        if needle == hash[i] && needle == hash[i + 1] && needle == hash[i + 2] && needle == hash[i + 3]
            && needle == hash[i + 4] {
            return true;
        }
        i = i + 1;
    }
    false
}

fn hex_bytes(d: &[u8; 16]) -> (r: Vec<u8>)
    ensures
        r@ == hex_of(d@),
{
    let mut r: Vec<u8> = Vec::new();
    let mut k: usize = 0;
    while k < 16
        invariant
            k <= 16,
            d@.len() == 16,
            r@ =~= hex_of(d@).take(2 * k as int),
        decreases 16 - k,
    {
        let b = d[k];
        r.push(if b / 16 < 10 { 48 + b / 16 } else { 87 + b / 16 });
        r.push(if b % 16 < 10 { 48 + b % 16 } else { 87 + b % 16 });
        k = k + 1;
        proof {
            assert(r@ =~= hex_of(d@).take(2 * k as int));
        }
    }
    proof {
        assert(hex_of(d@).take(32) =~= hex_of(d@));
    }
    r
}

fn decimal_bytes(n: usize) -> (r: Vec<u8>)
    ensures
        r@ == dec_digits(n as nat),
    decreases n,
{
    if n < 10 {
        let mut v: Vec<u8> = Vec::new();
        v.push(48 + n as u8);
        assert(v@ =~= dec_digits(n as nat));
        v
    } else {
        let mut v = decimal_bytes(n / 10);
        v.push(48 + (n % 10) as u8);
        v
    }
}

fn hex_md5(data: &[u8]) -> (r: Vec<u8>)
    ensures
        r@ == hex_of(md5_of(data@)),
{
    let d = md5_digest(data);
    hex_bytes(&d)
}

fn pad_hash_bytes(salt: &str, index: usize, stretch: bool) -> (r: Vec<u8>)
    ensures
        r@ == pad_hash(salt@, index as nat, stretch),
{
    let mut input = vstd::slice::slice_to_vec(salt.as_bytes());
    let digits = decimal_bytes(index);
    let mut k: usize = 0;
    let ghost head = input@;
    while k < digits.len()
        invariant
            k <= digits@.len(),
            input@ == head + digits@.take(k as int),
        decreases digits@.len() - k,
    {
        input.push(digits[k]);
        k = k + 1;
        proof {
            assert(input@ =~= head + digits@.take(k as int));
        }
    }
    proof {
        assert(digits@.take(k as int) =~= digits@);
    }
    let mut h = hex_md5(input.as_slice());
    if stretch {
        let mut round: usize = 0;
        while round < 2016
            invariant
                round <= 2016,
                h@ == rehashed(single_hash(salt@, index as nat), round as nat),
            decreases 2016 - round,
        {
            h = hex_md5(h.as_slice());
            round = round + 1;
        }
    }
    h
}

fn bytes_to_string(v: &Vec<u8>) -> (r: String)
    requires
        forall|k: int| 0 <= k < v@.len() ==> #[trigger] v@[k] < 128,
    ensures
        r@ == v@.map_values(|b: u8| b as char),
{
    let mut cs: Vec<char> = Vec::new();
    let mut k: usize = 0;
    while k < v.len()
        invariant
            k <= v@.len(),
            cs@ =~= v@.map_values(|b: u8| b as char).take(k as int),
        decreases v@.len() - k,
    {
        cs.push(v[k] as char);
        k = k + 1;
        proof {
            assert(cs@ =~= v@.map_values(|b: u8| b as char).take(k as int));
        }
    }
    proof {
        assert(v@.map_values(|b: u8| b as char).take(k as int) =~= v@.map_values(|b: u8| b as char));
    }
    string_from_chars(&cs)
}

proof fn lemma_hex_ascii(d: Seq<u8>)
    ensures
        forall|k: int| 0 <= k < hex_of(d).len() ==> #[trigger] hex_of(d)[k] < 128,
{
}

/// The hex MD5 digest of `input`.
pub fn inner_hasher(input: String) -> (r: String)
    ensures
        r@ == hex_of(md5_of(encode_utf8(input@))).map_values(|b: u8| b as char),
{
    let h = hex_md5(input.as_str().as_bytes());
    proof {
        lemma_hex_ascii(md5_of(encode_utf8(input@)));
    }
    bytes_to_string(&h)
}

/// The hex MD5 digest of `salt` followed by `index`.
pub fn single_hasher(salt: String, index: usize) -> (r: String)
    ensures
        r@ == single_hash(salt@, index as nat).map_values(|b: u8| b as char),
{
    let h = pad_hash_bytes(salt.as_str(), index, false);
    proof {
        lemma_hex_ascii(md5_of(encode_utf8(salt@) + dec_digits(index as nat)));
    }
    bytes_to_string(&h)
}

/// The plain hash, hashed 2016 more times.
pub fn stretching_hasher(salt: String, index: usize) -> (r: String)
    ensures
        r@ == rehashed(single_hash(salt@, index as nat), 2016).map_values(|b: u8| b as char),
{
    let h = pad_hash_bytes(salt.as_str(), index, true);
    proof {
        lemma_hex_ascii(md5_of(rehashed(single_hash(salt@, index as nat), 2015)));
    }
    bytes_to_string(&h)
}

/// The hash at `index`, computing and keeping those below it first.
fn hash_at(cache: &mut Vec<Vec<u8>>, salt: &str, stretch: bool, index: usize) -> (r: Vec<u8>)
    requires
        forall|k: int| 0 <= k < old(cache)@.len() ==> (#[trigger] old(cache)@[k])@ == pad_hash(salt@, k as nat, stretch),
    ensures
        r@ == pad_hash(salt@, index as nat, stretch),
        forall|k: int| 0 <= k < final(cache)@.len() ==> (#[trigger] final(cache)@[k])@ == pad_hash(salt@, k as nat, stretch),
{
    while cache.len() <= index
        invariant
            forall|k: int| 0 <= k < cache@.len() ==> (#[trigger] cache@[k])@ == pad_hash(salt@, k as nat, stretch),
        decreases index + 1 - cache@.len(),
    {
        let k = cache.len();
        let h = pad_hash_bytes(salt, k, stretch);
        cache.push(h);
    }
    vstd::slice::slice_to_vec(cache[index].as_slice())
}

/// Whether a run of five `c` shows in one of the hashes after `index`, up to
/// a thousand on.
fn five_follows(cache: &mut Vec<Vec<u8>>, salt: &str, stretch: bool, index: usize, c: u8) -> (r: bool)
    requires
        index <= usize::MAX - 1001,
        forall|k: int| 0 <= k < old(cache)@.len() ==> (#[trigger] old(cache)@[k])@ == pad_hash(salt@, k as nat, stretch),
    ensures
        r == exists|j: nat| index < j <= index + 1000 && #[trigger] has_five(c, pad_hash(salt@, j, stretch)),
        forall|k: int| 0 <= k < final(cache)@.len() ==> (#[trigger] final(cache)@[k])@ == pad_hash(salt@, k as nat, stretch),
{
    let mut j: usize = index + 1;
    while j <= index + 1000
        invariant
            index + 1 <= j <= index + 1001,
            index <= usize::MAX - 1001,
            forall|k: int| 0 <= k < cache@.len() ==> (#[trigger] cache@[k])@ == pad_hash(salt@, k as nat, stretch),
            forall|q: nat| index < q < j ==> !#[trigger] has_five(c, pad_hash(salt@, q, stretch)),
        decreases index + 1001 - j,
    {
        let h = hash_at(cache, salt, stretch, j);
        if five_in_a_row(c, h.as_slice()) {
            return true;
        }
        j = j + 1;
    }
    false
}

/// The index that gives the 64th key, if one comes before the search runs
/// out of `usize` indices.
pub fn solver(salt: &str, stretch: bool) -> (r: Option<usize>)
    ensures
        r matches Some(i) ==> is_key(salt@, stretch, i as nat) && keys_below(salt@, stretch, i as nat) == 63,
        r is None ==> keys_below(salt@, stretch, (usize::MAX - 1001) as nat) < 64,
{
    let mut cache: Vec<Vec<u8>> = Vec::new();
    let mut found: usize = 0;
    let mut index: usize = 0;
    while index < usize::MAX - 1001
        invariant
            index <= usize::MAX - 1001,
            found < 64,
            found == keys_below(salt@, stretch, index as nat),
            forall|k: int| 0 <= k < cache@.len() ==> (#[trigger] cache@[k])@ == pad_hash(salt@, k as nat, stretch),
        decreases usize::MAX - 1001 - index,
    {
        let h = hash_at(&mut cache, salt, stretch, index);
        let mut key = false;
        match three_in_a_row(h.as_slice()) {
            Some(c) => {
                key = five_follows(&mut cache, salt, stretch, index, c);
            },
            None => {},
        }
        proof {
            assert(key == is_key(salt@, stretch, index as nat));
        }
        if key {
            if found == 63 {
                return Some(index);
            }
            found = found + 1;
        }
        index = index + 1;
    }
    None
}

/// The index of the 64th key with plain hashes.
pub fn solve(salt: &str) -> (r: Option<usize>)
    ensures
        r matches Some(i) ==> is_key(salt@, false, i as nat) && keys_below(salt@, false, i as nat) == 63,
        r is None ==> keys_below(salt@, false, (usize::MAX - 1001) as nat) < 64,
{
    solver(salt, false)
}

/// The index of the 64th key with stretched hashes.
pub fn solve2(salt: &str) -> (r: Option<usize>)
    ensures
        r matches Some(i) ==> is_key(salt@, true, i as nat) && keys_below(salt@, true, i as nat) == 63,
        r is None ==> keys_below(salt@, true, (usize::MAX - 1001) as nat) < 64,
{
    solver(salt, true)
}

} // verus!
