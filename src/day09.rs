use vstd::prelude::*;

verus! {

/// The index of the first `c` in `s`, or its length if there is none.
pub open spec fn find(s: Seq<u8>, c: u8) -> nat
    decreases s.len(),
{
    if s.len() == 0 {
        0
    } else if s[0] == c {
        0
    } else {
        1 + find(s.drop_first(), c)
    }
}

pub open spec fn is_digit_byte(b: u8) -> bool {
    48 <= b <= 57
}

pub open spec fn digits_value(t: Seq<u8>) -> nat
    decreases t.len(),
{
    if t.len() == 0 {
        0
    } else {
        digits_value(t.drop_last()) * 10 + (t.last() - 48) as nat
    }
}

pub open spec fn all_digit_bytes(t: Seq<u8>) -> bool {
    t.len() > 0 && forall|k: int| 0 <= k < t.len() ==> #[trigger] is_digit_byte(t[k])
}

/// The `usize` written by `t`: an optional `+`, then decimal digits.
pub open spec fn usize_of(t: Seq<u8>) -> Option<nat> {
    let d = if t.len() > 0 && t[0] == 43 { t.drop_first() } else { t };
    if all_digit_bytes(d) && digits_value(d) <= usize::MAX {
        Some(digits_value(d))
    } else {
        None
    }
}

/// The marker `(AxB)` that `s` starts with: the index of its `)`, the length
/// `A` of the data it repeats, and the repeat count `B`.
pub open spec fn marker(s: Seq<u8>) -> Option<(nat, nat, nat)> {
    let end = find(s, 41);
    if end >= s.len() || end < 1 {
        None
    } else {
        let inner = s.subrange(1, end as int);
        let x = find(inner, 120);
        if x >= inner.len() {
            None
        } else {
            match (usize_of(inner.take(x as int)), usize_of(inner.skip(x + 1int))) {
                (Some(a), Some(b)) => Some((end, a, b)),
                _ => None,
            }
        }
    }
}

/// The decompressed length of `s` when markers inside repeated data are
/// copied as they stand; `None` where a marker is malformed or its data runs
/// past the end.
pub open spec fn expanded(s: Seq<u8>) -> Option<nat>
    decreases s.len(),
{
    if s.len() == 0 {
        Some(0)
    } else if s[0] == 40 {
        match marker(s) {
            Some((e, a, b)) => if e + a + 1 <= s.len() {
                match expanded(s.skip(e + a + 1int)) {
                    Some(n) => Some(a * b + n),
                    None => None,
                }
            } else {
                None
            },
            None => None,
        }
    } else {
        match expanded(s.drop_first()) {
            Some(n) => Some(1 + n),
            None => None,
        }
    }
}

/// The decompressed length of `s` when markers inside repeated data are
/// themselves expanded; `None` where a marker is malformed, its data runs past
/// the end, or a repeated part alone is longer than `usize::MAX`.
pub open spec fn expanded_deep(s: Seq<u8>) -> Option<nat>
    decreases s.len(),
{
    if s.len() == 0 {
        Some(0)
    } else if s[0] == 40 {
        match marker(s) {
            Some((e, a, b)) => if e + a + 1 <= s.len() && e >= 1 {
                match (expanded_deep(s.subrange(e + 1int, e + a + 1int)), expanded_deep(s.skip(e + a + 1int))) {
                    (Some(m), Some(n)) => if m <= usize::MAX {
                        Some(b * m + n)
                    } else {
                        None
                    },
                    _ => None,
                }
            } else {
                None
            },
            None => None,
        }
    } else {
        match expanded_deep(s.drop_first()) {
            Some(n) => Some(1 + n),
            None => None,
        }
    }
}

fn find_from(s: &[u8], lo: usize, hi: usize, c: u8) -> (r: usize)
    requires
        lo <= hi <= s@.len(),
    ensures
        r == lo + find(s@.subrange(lo as int, hi as int), c),
        lo <= r <= hi,
{
    let mut i = lo;
    while i < hi && s[i] != c
        invariant
            lo <= i <= hi <= s@.len(),
            find(s@.subrange(lo as int, hi as int), c) == (i - lo) + find(s@.subrange(i as int, hi as int), c),
        decreases hi - i,
    {
        proof {
            assert(s@.subrange(i as int, hi as int).drop_first() =~= s@.subrange(i + 1, hi as int));
        }
        i = i + 1;
    }
    i
}

proof fn lemma_digits_grow(t: Seq<u8>, j: int)
    requires
        0 <= j <= t.len(),
    ensures
        digits_value(t.take(j)) <= digits_value(t),
    decreases t.len() - j,
{
    if j < t.len() {
        assert(t.drop_last().take(j) =~= t.take(j));
        lemma_digits_grow(t.drop_last(), j);
    } else {
        assert(t.take(j) =~= t);
    }
}

fn parse_usize(s: &[u8], lo: usize, hi: usize) -> (r: Option<usize>)
    requires
        lo <= hi <= s@.len(),
    ensures
        match r {
            Some(v) => usize_of(s@.subrange(lo as int, hi as int)) == Some(v as nat),
            None => usize_of(s@.subrange(lo as int, hi as int)) is None,
        },
{
    let ghost t = s@.subrange(lo as int, hi as int);
    let start = if lo < hi && s[lo] == 43 { lo + 1 } else { lo };
    let ghost d = s@.subrange(start as int, hi as int);
    proof {
        if lo < hi && s@[lo as int] == 43 {
            assert(t.drop_first() =~= d);
        } else {
            assert(t =~= d);
        }
    }
    if start >= hi {
        return None;
    }
    let mut acc: usize = 0;
    let mut i = start;
    while i < hi
        invariant
            start <= i <= hi <= s@.len(),
            d == s@.subrange(start as int, hi as int),
            t == s@.subrange(lo as int, hi as int),
            (if t.len() > 0 && t[0] == 43 { t.drop_first() } else { t }) == d,
            acc == digits_value(s@.subrange(start as int, i as int)),
            forall|k: int| start <= k < i ==> #[trigger] is_digit_byte(s@[k]),
        decreases hi - i,
    {
        let b = s[i];
        if b < 48 || b > 57 {
            proof {
                assert(!is_digit_byte(d[i - start]));
            }
            return None;
        }
        let digit = (b - 48) as usize;
        proof {
            assert(s@.subrange(start as int, i + 1).drop_last() =~= s@.subrange(start as int, i as int));
        }
        if acc > (usize::MAX - digit) / 10 {
            proof {
                let p = s@.subrange(start as int, i + 1);
                assert(digits_value(p) > usize::MAX);
                if all_digit_bytes(d) {
                    assert(d.take(i + 1 - start) =~= p);
                    lemma_digits_grow(d, i + 1 - start);
                }
            }
            return None;
        }
        acc = acc * 10 + digit;
        i = i + 1;
    }
    proof {
        assert(s@.subrange(start as int, i as int) =~= d);
        assert(all_digit_bytes(d));
    }
    Some(acc)
}

fn read_marker(s: &[u8], lo: usize, hi: usize) -> (r: Option<(usize, usize, usize)>)
    requires
        lo < hi <= s@.len(),
        s@[lo as int] == 40,
    ensures
        match r {
            Some((e, a, b)) => lo < e < hi && marker(s@.subrange(lo as int, hi as int)) == Some(
                ((e - lo) as nat, a as nat, b as nat),
            ),
            None => marker(s@.subrange(lo as int, hi as int)) is None,
        },
{
    let ghost t = s@.subrange(lo as int, hi as int);
    let e = find_from(s, lo, hi, 41);
    proof {
        assert(t.drop_first() =~= s@.subrange(lo + 1, hi as int));
    }
    if e >= hi || e == lo {
        return None;
    }
    let ghost inner = t.subrange(1, e - lo);
    proof {
        assert(inner =~= s@.subrange(lo + 1, e as int));
    }
    let x = find_from(s, lo + 1, e, 120);
    if x >= e {
        return None;
    }
    proof {
        assert(inner.take(x - lo - 1) =~= s@.subrange(lo + 1, x as int));
        assert(inner.skip(x - lo) =~= s@.subrange(x + 1, e as int));
    }
    let a = parse_usize(s, lo + 1, x);
    let b = parse_usize(s, x + 1, e);
    match (a, b) {
        (Some(a), Some(b)) => Some((e, a, b)),
        _ => None,
    }
}

/// The decompressed length of `input`, markers inside repeated data copied
/// as they stand.
pub fn solve(input: &[u8]) -> (r: usize)
    requires
        expanded(input@) is Some,
        expanded(input@)->0 <= usize::MAX,
    ensures
        r == expanded(input@)->0,
{
    let n = input.len();
    let mut count: usize = 0;
    let mut pos: usize = 0;
    proof {
        assert(input@.subrange(0, n as int) =~= input@);
    }
    while pos < n
        invariant
            pos <= n == input@.len(),
            expanded(input@.subrange(pos as int, n as int)) is Some,
            expanded(input@)->0 <= usize::MAX,
            expanded(input@)->0 == count + expanded(input@.subrange(pos as int, n as int))->0,
        decreases n - pos,
    {
        let ghost t = input@.subrange(pos as int, n as int);
        if input[pos] == 40 {
            match read_marker(input, pos, n) {
                Some((e, a, b)) => {
                    proof {
                        assert(t.skip(e - pos + a + 1) =~= input@.subrange(e + a + 1, n as int));
                    }
                    count = count + a * b;
                    pos = e + a + 1;
                },
                None => {
                    return 0;
                },
            }
        } else {
            proof {
                assert(t.drop_first() =~= input@.subrange(pos + 1, n as int));
            }
            count = count + 1;
            pos = pos + 1;
        }
    }
    count
}

fn expanded_len(s: &[u8], lo: usize, hi: usize) -> (r: usize)
    requires
        lo <= hi <= s@.len(),
        expanded_deep(s@.subrange(lo as int, hi as int)) is Some,
        expanded_deep(s@.subrange(lo as int, hi as int))->0 <= usize::MAX,
    ensures
        r == expanded_deep(s@.subrange(lo as int, hi as int))->0,
    decreases hi - lo,
{
    let ghost total = expanded_deep(s@.subrange(lo as int, hi as int))->0;
    let mut count: usize = 0;
    let mut pos: usize = lo;
    while pos < hi
        invariant
            lo <= pos <= hi <= s@.len(),
            expanded_deep(s@.subrange(pos as int, hi as int)) is Some,
            total <= usize::MAX,
            total == count + expanded_deep(s@.subrange(pos as int, hi as int))->0,
        decreases hi - pos,
    {
        let ghost t = s@.subrange(pos as int, hi as int);
        if s[pos] == 40 {
            match read_marker(s, pos, hi) {
                Some((e, a, b)) => {
                    proof {
                        assert(t.skip(e - pos + a + 1) =~= s@.subrange(e + a + 1, hi as int));
                        assert(t.subrange(e - pos + 1, e - pos + a + 1) =~= s@.subrange(e + 1, e + a + 1));
                    }
                    let inner = expanded_len(s, e + 1, e + a + 1);
                    count = count + b * inner;
                    pos = e + a + 1;
                },
                None => {
                    return 0;
                },
            }
        } else {
            proof {
                assert(t.drop_first() =~= s@.subrange(pos + 1, hi as int));
            }
            count = count + 1;
            pos = pos + 1;
        }
    }
    count
}

/// The decompressed length of `input`, markers inside repeated data expanded too.
pub fn solve2(input: &[u8]) -> (r: usize)
    requires
        expanded_deep(input@) is Some,
        expanded_deep(input@)->0 <= usize::MAX,
    ensures
        r == expanded_deep(input@)->0,
{
    proof {
        assert(input@.subrange(0, input@.len() as int) =~= input@);
    }
    expanded_len(input, 0, input.len())
}

} // verus!
