use vstd::prelude::*;
use crate::text::{chars_of, line_spans, lines, string_from_chars, sub_chars};

verus! {

/// The index of the first `c` in `s`, or its length if there is none.
pub open spec fn find_char(s: Seq<char>, c: char) -> nat
    decreases s.len(),
{
    if s.len() == 0 {
        0
    } else if s[0] == c {
        0
    } else {
        1 + find_char(s.drop_first(), c)
    }
}

/// Every `[` that opens a bracketed part is closed by a later `]`.
pub open spec fn brackets_closed(s: Seq<char>) -> bool
    decreases s.len(),
{
    let i = find_char(s, '[');
    if i >= s.len() {
        true
    } else {
        let rem = s.skip(i + 1int);
        let j = find_char(rem, ']');
        j < rem.len() && brackets_closed(rem.skip(j + 1int))
    }
}

/// The parts of an address outside brackets, and those inside, in order.
pub open spec fn split_addr(s: Seq<char>) -> (Seq<Seq<char>>, Seq<Seq<char>>)
    decreases s.len(),
{
    let i = find_char(s, '[');
    if i >= s.len() {
        (seq![s], seq![])
    } else {
        let rem = s.skip(i + 1int);
        let j = find_char(rem, ']');
        if j >= rem.len() {
            (seq![s.take(i as int)], seq![rem])
        } else {
            let rest = split_addr(rem.skip(j + 1int));
            (seq![s.take(i as int)] + rest.0, seq![rem.take(j as int)] + rest.1)
        }
    }
}

/// An ABBA at `i`: two different characters, then the same two reversed.
pub open spec fn abba_at(s: Seq<char>, i: int) -> bool {
    0 <= i && i + 3 < s.len() && s[i] == s[i + 3] && s[i + 1] == s[i + 2] && s[i] != s[i + 1]
}

pub open spec fn has_abba_spec(s: Seq<char>) -> bool {
    exists|i: int| #[trigger] abba_at(s, i)
}

/// Some part outside brackets holds an ABBA, and no part inside does.
pub open spec fn tls(s: Seq<char>) -> bool {
    let (addrs, nets) = split_addr(s);
    (exists|k: int| 0 <= k < addrs.len() && #[trigger] has_abba_spec(addrs[k])) && !(exists|k: int|
        0 <= k < nets.len() && #[trigger] has_abba_spec(nets[k]))
}

/// An ABA at `i`: a character, a different one, then the first again.
pub open spec fn aba_at(s: Seq<char>, i: int) -> bool {
    0 <= i && i + 2 < s.len() && s[i] == s[i + 2] && s[i] != s[i + 1]
}

/// The BAB that answers the ABA at `i`.
pub open spec fn bab_at(s: Seq<char>, i: int) -> Seq<char> {
    seq![s[i + 1], s[i], s[i + 1]]
}

/// The BABs answering the ABAs that start before `m`, in order.
pub open spec fn babs_upto(s: Seq<char>, m: int) -> Seq<Seq<char>>
    decreases m,
{
    if m <= 0 {
        seq![]
    } else if aba_at(s, m - 1) {
        babs_upto(s, m - 1).push(bab_at(s, m - 1))
    } else {
        babs_upto(s, m - 1)
    }
}

pub open spec fn babs(s: Seq<char>) -> Seq<Seq<char>> {
    babs_upto(s, s.len() as int)
}

pub open spec fn occurs_in(t: Seq<char>, a: Seq<char>) -> bool {
    exists|k: int| 0 <= k && k + t.len() <= a.len() && #[trigger] a.subrange(k, k + t.len()) == t
}

/// The BAB `b` stands in one of the parts `addrs`.
pub open spec fn stands_in(addrs: Seq<Seq<char>>, b: Seq<char>) -> bool {
    exists|ka: int| 0 <= ka < addrs.len() && occurs_in(b, #[trigger] addrs[ka])
}

/// Some ABA of `net` has its BAB in one of the parts `addrs`.
pub open spec fn answered(net: Seq<char>, addrs: Seq<Seq<char>>) -> bool {
    exists|i: int| #[trigger] aba_at(net, i) && stands_in(addrs, bab_at(net, i))
}

/// Some ABA inside brackets has its BAB in some part outside brackets.
pub open spec fn ssl(s: Seq<char>) -> bool {
    let (addrs, nets) = split_addr(s);
    exists|kn: int| 0 <= kn < nets.len() && answered(#[trigger] nets[kn], addrs)
}

pub open spec fn views(v: Seq<Vec<char>>) -> Seq<Seq<char>> {
    v.map_values(|x: Vec<char>| x@)
}

fn find_char_from(v: &Vec<char>, lo: usize, c: char) -> (r: usize)
    requires
        lo <= v@.len(),
    ensures
        r == lo + find_char(v@.skip(lo as int), c),
        lo <= r <= v@.len(),
{
    let mut i = lo;
    while i < v.len() && v[i] != c
        invariant
            lo <= i <= v@.len(),
            find_char(v@.skip(lo as int), c) == (i - lo) + find_char(v@.skip(i as int), c),
        decreases v@.len() - i,
    {
        proof {
            assert(v@.skip(i as int).drop_first() =~= v@.skip(i + 1));
        }
        i = i + 1;
    }
    i
}

/// The parts of `addr` outside brackets, and those inside.
pub fn parse_addr(addr: &Vec<char>) -> (r: (Vec<Vec<char>>, Vec<Vec<char>>))
    requires
        brackets_closed(addr@),
    ensures
        r.0@.map_values(|v: Vec<char>| v@) == split_addr(addr@).0,
        r.1@.map_values(|v: Vec<char>| v@) == split_addr(addr@).1,
{
    let n = addr.len();
    let mut addrs: Vec<Vec<char>> = Vec::new();
    let mut nets: Vec<Vec<char>> = Vec::new();
    let mut pos: usize = 0;
    proof {
        assert(addr@.skip(0) =~= addr@);
    }
    loop
        invariant
            pos <= n == addr@.len(),
            brackets_closed(addr@.skip(pos as int)),
            split_addr(addr@).0 == addrs@.map_values(|v: Vec<char>| v@) + split_addr(
                addr@.skip(pos as int),
            ).0,
            split_addr(addr@).1 == nets@.map_values(|v: Vec<char>| v@) + split_addr(
                addr@.skip(pos as int),
            ).1,
        decreases n - pos,
    {
        let ghost s = addr@.skip(pos as int);
        let i = find_char_from(addr, pos, '[');
        if i >= n {
            let last = sub_chars(addr, pos, n);
            proof {
                assert(last@ =~= s);
                assert(addrs@.push(last).map_values(|v: Vec<char>| v@) =~= addrs@.map_values(
                    |v: Vec<char>| v@,
                ) + seq![s]);
                assert(nets@.map_values(|v: Vec<char>| v@) + seq![] =~= nets@.map_values(
                    |v: Vec<char>| v@,
                ));
            }
            addrs.push(last);
            return (addrs, nets);
        }
        let j = find_char_from(addr, i + 1, ']');
        proof {
            assert(s.skip(i - pos + 1) =~= addr@.skip(i + 1));
        }
        let left = sub_chars(addr, pos, i);
        let mid = sub_chars(addr, i + 1, j);
        proof {
            assert(addr@.skip(i + 1).skip(j - i) =~= addr@.skip(j + 1));
            assert(left@ =~= s.take(i - pos));
            assert(mid@ =~= addr@.skip(i + 1).take(j - i - 1));
            assert(addrs@.push(left).map_values(|v: Vec<char>| v@) =~= addrs@.map_values(
                |v: Vec<char>| v@,
            ).push(left@));
            assert(nets@.push(mid).map_values(|v: Vec<char>| v@) =~= nets@.map_values(
                |v: Vec<char>| v@,
            ).push(mid@));
            let rest = split_addr(addr@.skip(j + 1));
            assert(addrs@.map_values(|v: Vec<char>| v@) + (seq![left@] + rest.0) =~= addrs@.map_values(
                |v: Vec<char>| v@,
            ).push(left@) + rest.0);
            assert(nets@.map_values(|v: Vec<char>| v@) + (seq![mid@] + rest.1) =~= nets@.map_values(
                |v: Vec<char>| v@,
            ).push(mid@) + rest.1);
        }
        addrs.push(left);
        nets.push(mid);
        pos = j + 1;
    }
}

fn abba_in(v: &Vec<char>) -> (r: bool)
    ensures
        r == has_abba_spec(v@),
{
    if v.len() < 4 {
        return false;
    }
    let n = v.len();
    let mut i: usize = 0;
    while i < n - 3
        invariant
            n == v@.len() >= 4,
            i <= n - 3,
            forall|k: int| 0 <= k < i ==> !#[trigger] abba_at(v@, k),
        decreases v@.len() - i,
    {
        if v[i] == v[i + 3] && v[i + 1] == v[i + 2] && v[i] != v[i + 1] {
            assert(abba_at(v@, i as int));
            return true;
        }
        i = i + 1;
    }
    false
}

/// Whether `s` holds an ABBA.
pub fn has_abba(s: &str) -> (r: bool)
    ensures
        r == has_abba_spec(s@),
{
    abba_in(&chars_of(s))
}

fn any_abba(parts: &Vec<Vec<char>>) -> (r: bool)
    ensures
        r == exists|k: int| 0 <= k < parts@.len() && #[trigger] has_abba_spec(parts@[k]@),
{
    let mut k: usize = 0;
    while k < parts.len()
        invariant
            k <= parts@.len(),
            forall|j: int| 0 <= j < k ==> !#[trigger] has_abba_spec(parts@[j]@),
        decreases parts@.len() - k,
    {
        if abba_in(&parts[k]) {
            return true;
        }
        k = k + 1;
    }
    false
}

/// Whether `addr` supports TLS: an ABBA outside brackets and none inside.
pub fn has_tls(addr: &str) -> (r: bool)
    requires
        brackets_closed(addr@),
    ensures
        r == tls(addr@),
{
    let cs = chars_of(addr);
    let (addrs, nets) = parse_addr(&cs);
    let ghost sa = split_addr(addr@);
    proof {
        assert forall|k: int| 0 <= k < addrs@.len() implies addrs@[k]@ == sa.0[k] by {
            assert(addrs@.map_values(|v: Vec<char>| v@)[k] == addrs@[k]@);
        }
        assert forall|k: int| 0 <= k < nets@.len() implies nets@[k]@ == sa.1[k] by {
            assert(nets@.map_values(|v: Vec<char>| v@)[k] == nets@[k]@);
        }
        assert(addrs@.map_values(|v: Vec<char>| v@).len() == addrs@.len());
        assert(nets@.map_values(|v: Vec<char>| v@).len() == nets@.len());
    }
    let in_net = any_abba(&nets);
    let in_addr = any_abba(&addrs);
    proof {
        if in_net {
            let k = choose|k: int| 0 <= k < nets@.len() && #[trigger] has_abba_spec(nets@[k]@);
            assert(has_abba_spec(sa.1[k]));
        }
        if in_addr {
            let k = choose|k: int| 0 <= k < addrs@.len() && #[trigger] has_abba_spec(addrs@[k]@);
            assert(has_abba_spec(sa.0[k]));
        }
        if exists|k: int| 0 <= k < sa.1.len() && #[trigger] has_abba_spec(sa.1[k]) {
            let k = choose|k: int| 0 <= k < sa.1.len() && #[trigger] has_abba_spec(sa.1[k]);
            assert(has_abba_spec(nets@[k]@));
        }
        if exists|k: int| 0 <= k < sa.0.len() && #[trigger] has_abba_spec(sa.0[k]) {
            let k = choose|k: int| 0 <= k < sa.0.len() && #[trigger] has_abba_spec(sa.0[k]);
            assert(has_abba_spec(addrs@[k]@));
        }
    }
    !in_net && in_addr
}

fn babs_in(v: &Vec<char>) -> (r: Vec<Vec<char>>)
    ensures
        r@.map_values(|b: Vec<char>| b@) == babs(v@),
{
    let mut r: Vec<Vec<char>> = Vec::new();
    let mut i: usize = 0;
    while i < v.len()
        invariant
            i <= v@.len(),
            r@.map_values(|b: Vec<char>| b@) == babs_upto(v@, i as int),
        decreases v@.len() - i,
    {
        if v.len() - i > 2 && v[i] == v[i + 2] && v[i] != v[i + 1] {
            let mut b: Vec<char> = Vec::new();
            b.push(v[i + 1]);
            b.push(v[i]);
            b.push(v[i + 1]);
            proof {
                assert(b@ =~= bab_at(v@, i as int));
                assert(r@.push(b).map_values(|b: Vec<char>| b@) =~= r@.map_values(|b: Vec<char>| b@).push(
                    b@,
                ));
            }
            r.push(b);
        }
        i = i + 1;
    }
    r
}

/// The BABs answering each ABA of `addr`, as strings, in order.
pub fn net_aba(addr: &str) -> (r: Vec<String>)
    ensures
        r@.map_values(|s: String| s@) == babs(addr@),
{
    let found = babs_in(&chars_of(addr));
    let mut r: Vec<String> = Vec::new();
    let mut k: usize = 0;
    while k < found.len()
        invariant
            k <= found@.len(),
            r@.map_values(|s: String| s@) == found@.map_values(|b: Vec<char>| b@).take(k as int),
        decreases found@.len() - k,
    {
        let s = string_from_chars(&found[k]);
        proof {
            assert(found@.map_values(|b: Vec<char>| b@)[k as int] == found@[k as int]@);
            assert(r@.push(s).map_values(|s: String| s@) =~= r@.map_values(|s: String| s@).push(s@));
            assert(r@.push(s).map_values(|s: String| s@) =~= found@.map_values(|b: Vec<char>| b@).take(
                k + 1,
            ));
        }
        r.push(s);
        k = k + 1;
    }
    proof {
        assert(found@.map_values(|b: Vec<char>| b@).take(k as int) =~= found@.map_values(
            |b: Vec<char>| b@,
        ));
    }
    r
}

fn occurs(t: &Vec<char>, a: &Vec<char>) -> (r: bool)
    ensures
        r == occurs_in(t@, a@),
{
    if t.len() > a.len() {
        return false;
    }
    if t.len() == 0 {
        assert(a@.subrange(0, 0 + t@.len() as int) =~= t@);
        return true;
    }
    let m = t.len();
    let last = a.len() - m;
    let mut k: usize = 0;
    while k <= last
        invariant
            1 <= m == t@.len() <= a@.len(),
            a@.len() <= usize::MAX,
            last == a@.len() - m,
            k <= last + 1,
            forall|j: int| 0 <= j < k ==> #[trigger] a@.subrange(j, j + m) != t@,
        decreases last + 1 - k,
    {
        let mut i: usize = 0;
        let mut same = true;
        while i < m && same
            invariant
                i <= m,
                k + m <= a@.len(),
                k <= last,
                last + m == a@.len(),
                a@.len() <= usize::MAX,
                m == t@.len(),
                same == (forall|q: int| 0 <= q < i ==> a@[k + q] == t@[q]),
            decreases m - i,
        {
            if a[k + i] != t[i] {
                same = false;
            }
            i = i + 1;
        }
        if same {
            assert(a@.subrange(k as int, k + m) =~= t@);
            return true;
        }
        proof {
            let q = choose|q: int| 0 <= q < i && a@[k + q] != t@[q];
            assert(a@.subrange(k as int, k + m)[q] != t@[q]);
        }
        k = k + 1;
    }
    false
}

fn stands_in_parts(addrs: &Vec<Vec<char>>, b: &Vec<char>) -> (r: bool)
    ensures
        r == stands_in(views(addrs@), b@),
{
    let mut ka: usize = 0;
    while ka < addrs.len()
        invariant
            ka <= addrs@.len(),
            forall|j: int| 0 <= j < ka ==> !occurs_in(b@, #[trigger] views(addrs@)[j]),
        decreases addrs@.len() - ka,
    {
        proof {
            assert(views(addrs@)[ka as int] == addrs@[ka as int]@);
        }
        if occurs(b, &addrs[ka]) {
            return true;
        }
        ka = ka + 1;
    }
    false
}

fn net_answered(net: &Vec<char>, addrs: &Vec<Vec<char>>) -> (r: bool)
    ensures
        r == answered(net@, views(addrs@)),
{
    let n = net.len();
    let mut i: usize = 0;
    while i < n
        invariant
            n == net@.len(),
            i <= n,
            forall|j: int| #[trigger] aba_at(net@, j) && j < i ==> !stands_in(views(addrs@), bab_at(net@, j)),
        decreases n - i,
    {
        if n - i > 2 && net[i] == net[i + 2] && net[i] != net[i + 1] {
            let mut b: Vec<char> = Vec::new();
            b.push(net[i + 1]);
            b.push(net[i]);
            b.push(net[i + 1]);
            proof {
                assert(b@ =~= bab_at(net@, i as int));
            }
            if stands_in_parts(addrs, &b) {
                assert(aba_at(net@, i as int));
                return true;
            }
        }
        i = i + 1;
    }
    false
}

/// Whether `addr` supports SSL: an ABA inside brackets whose BAB stands
/// outside brackets.
pub fn has_ssl(addr: &str) -> (r: bool)
    requires
        brackets_closed(addr@),
    ensures
        r == ssl(addr@),
{
    let cs = chars_of(addr);
    let (addrs, nets) = parse_addr(&cs);
    let ghost sa = split_addr(addr@);
    proof {
        assert(views(addrs@) == sa.0);
    }
    let mut kn: usize = 0;
    while kn < nets.len()
        invariant
            kn <= nets@.len(),
            views(addrs@) == sa.0,
            views(nets@) == sa.1,
            sa == split_addr(addr@),
            forall|j: int| 0 <= j < kn ==> !answered(#[trigger] sa.1[j], sa.0),
        decreases nets@.len() - kn,
    {
        proof {
            assert(views(nets@)[kn as int] == nets@[kn as int]@);
        }
        if net_answered(&nets[kn], &addrs) {
            return true;
        }
        kn = kn + 1;
    }
    false
}

/// The number of lines of `input` that support TLS.
pub fn solve(input: &str) -> (r: usize)
    requires
        forall|k: int| 0 <= k < lines(input@).len() ==> #[trigger] brackets_closed(lines(input@)[k]),
    ensures
        r == lines(input@).filter(|l: Seq<char>| tls(l)).len(),
{
    count_lines(input, false)
}

/// The number of lines of `input` that support SSL.
pub fn solve2(input: &str) -> (r: usize)
    requires
        forall|k: int| 0 <= k < lines(input@).len() ==> #[trigger] brackets_closed(lines(input@)[k]),
    ensures
        r == lines(input@).filter(|l: Seq<char>| ssl(l)).len(),
{
    count_lines(input, true)
}

fn count_lines(input: &str, want_ssl: bool) -> (r: usize)
    requires
        forall|k: int| 0 <= k < lines(input@).len() ==> #[trigger] brackets_closed(lines(input@)[k]),
    ensures
        !want_ssl ==> r == lines(input@).filter(|l: Seq<char>| tls(l)).len(),
        want_ssl ==> r == lines(input@).filter(|l: Seq<char>| ssl(l)).len(),
{
    let cs = chars_of(input);
    let spans = line_spans(&cs);
    let ghost ls = lines(input@);
    let ghost pred = if want_ssl { |l: Seq<char>| ssl(l) } else { |l: Seq<char>| tls(l) };
    let mut count: usize = 0;
    let mut i: usize = 0;
    while i < spans.len()
        invariant
            ls == lines(input@),
            cs@ == input@,
            spans@.len() == ls.len(),
            forall|k: int| 0 <= k < ls.len() ==> #[trigger] brackets_closed(ls[k]),
            forall|k: int| #![trigger spans@[k]] 0 <= k < spans@.len() ==> spans@[k].0 <= spans@[k].1 <= cs@.len(),
            forall|k: int|
                0 <= k < spans@.len() ==> #[trigger] ls[k] == cs@.subrange(
                    spans@[k].0 as int,
                    spans@[k].1 as int,
                ),
            i <= spans@.len(),
            pred == if want_ssl { |l: Seq<char>| ssl(l) } else { |l: Seq<char>| tls(l) },
            count == ls.take(i as int).filter(pred).len(),
            count <= i,
        decreases spans@.len() - i,
    {
        let (st, en) = spans[i];
        proof {
            assert(ls[i as int] == cs@.subrange(st as int, en as int));
            assert(brackets_closed(ls[i as int]));
            assert(ls.take(i + 1).drop_last() =~= ls.take(i as int));
            reveal(Seq::filter);
        }
        let line = sub_chars(&cs, st, en);
        let ok = if want_ssl {
            let s = string_from_chars(&line);
            has_ssl(s.as_str())
        } else {
            let s = string_from_chars(&line);
            has_tls(s.as_str())
        };
        if ok {
            count = count + 1;
        }
        i = i + 1;
    }
    proof {
        assert(ls.take(i as int) =~= ls);
    }
    count
}

} // verus!
