use vstd::prelude::*;
use vstd::seq_lib::{to_multiset_build, to_multiset_insert};
use crate::loader::{all_digits, decimal, is_digit};
use crate::text::{chars_of, line_spans, lines, sub_chars};

verus! {

/// A blocked range of addresses, both ends included.
#[derive(Clone, Copy, PartialEq, Eq, Structural, Debug)]
pub struct Span {
    pub start: u32,
    pub end: u32,
}

impl Span {
    /// The range between `start` and `end`, whichever is larger.
    pub fn new(start: u32, end: u32) -> (r: Span)
        ensures
            r.start == if start <= end { start } else { end },
            r.end == if start <= end { end } else { start },
    {
        if start <= end {
            Span { start, end }
        } else {
            Span { start: end, end: start }
        }
    }
}

pub open spec fn covered(bl: Seq<Span>, v: int) -> bool {
    exists|k: int| 0 <= k < bl.len() && (#[trigger] bl[k]).start <= v <= bl[k].end
}

pub open spec fn sorted_by_start(bl: Seq<Span>) -> bool {
    forall|i: int, j: int| 0 <= i < j < bl.len() ==> (#[trigger] bl[i]).start <= (#[trigger] bl[j]).start
}

pub open spec fn spans_wf(bl: Seq<Span>) -> bool {
    forall|k: int| 0 <= k < bl.len() ==> (#[trigger] bl[k]).start <= bl[k].end
}

/// The uncovered addresses among `lo..=hi`.
pub open spec fn uncovered_between(bl: Seq<Span>, lo: int, hi: int) -> nat
    decreases hi - lo + 1,
{
    if hi < lo {
        0
    } else {
        uncovered_between(bl, lo, hi - 1) + if covered(bl, hi) {
            0nat
        } else {
            1nat
        }
    }
}

/// The `u32` written by `t`: an optional `+`, then decimal digits.
pub open spec fn u32_of(t: Seq<char>) -> Option<u32> {
    let d = if t.len() > 0 && t[0] == '+' { t.drop_first() } else { t };
    if all_digits(d) && decimal(d) <= u32::MAX {
        Some(decimal(d) as u32)
    } else {
        None
    }
}

pub open spec fn find_dash(s: Seq<char>) -> nat
    decreases s.len(),
{
    if s.len() == 0 || s[0] == '-' {
        0
    } else {
        1 + find_dash(s.drop_first())
    }
}

/// A line `a-b` with two `u32` numbers.
pub open spec fn span_line(l: Seq<char>) -> Option<Span> {
    let i = find_dash(l);
    if i < l.len() && u32_of(l.take(i as int)) is Some && u32_of(l.skip(i + 1int)) is Some {
        let a = u32_of(l.take(i as int))->0;
        let b = u32_of(l.skip(i + 1int))->0;
        Some(Span { start: if a <= b { a } else { b }, end: if a <= b { b } else { a } })
    } else {
        None
    }
}

/// The blocked ranges, kept sorted by their start.
pub struct Firewall {
    pub blacklist: Vec<Span>,
}

impl Firewall {
    pub open spec fn wf(&self) -> bool {
        sorted_by_start(self.blacklist@) && spans_wf(self.blacklist@)
    }

    /// The lowest address no range blocks.
    pub fn first_free(&self) -> (r: u32)
        requires
            self.wf(),
            self.blacklist@.len() > 0,
            forall|k: int| 0 <= k < self.blacklist@.len() ==> (#[trigger] self.blacklist@[k]).end < u32::MAX,
        ensures
            !covered(self.blacklist@, r as int),
            forall|v: int| 0 <= v < r ==> covered(self.blacklist@, v),
    {
        let ghost bl = self.blacklist@;
        if self.blacklist[0].start > 0 {
            return 0;
        }
        let mut cur: u32 = self.blacklist[0].end;
        let mut i: usize = 1;
        proof {
            assert forall|v: int| 0 <= v <= cur implies covered(bl, v) by {
                assert(bl[0].start <= v <= bl[0].end);
            }
        }
        while i < self.blacklist.len()
            invariant
                bl == self.blacklist@,
                self.wf(),
                1 <= i <= bl.len(),
                forall|k: int| 0 <= k < bl.len() ==> (#[trigger] bl[k]).end < u32::MAX,
                forall|k: int| 0 <= k < i ==> (#[trigger] bl[k]).end <= cur,
                forall|v: int| 0 <= v <= cur ==> covered(bl, v),
                cur < u32::MAX,
            decreases bl.len() - i,
        {
            let next = self.blacklist[i];
            if cur + 1 < next.start {
                proof {
                    assert forall|k: int| 0 <= k < bl.len() implies !((#[trigger] bl[k]).start <= cur + 1
                        <= bl[k].end) by {
                        if k >= i {
                            if k > i {
                                assert(bl[i as int].start <= bl[k].start);
                            }
                        }
                    }
                }
                return cur + 1;
            }
            if next.end > cur {
                proof {
                    assert forall|v: int| 0 <= v <= next.end implies covered(bl, v) by {
                        if v > cur {
                            assert(bl[i as int].start <= v <= bl[i as int].end);
                        }
                    }
                }
                cur = next.end;
            }
            i = i + 1;
        }
        proof {
            assert forall|k: int| 0 <= k < bl.len() implies !((#[trigger] bl[k]).start <= cur + 1
                <= bl[k].end) by {
                assert(bl[k].end <= cur);
            }
        }
        cur + 1
    }

    /// The number of unblocked addresses from the start of the lowest range
    /// up to `max`; `max` must lie at or beyond every range.
    pub fn all_free(&self, max: u32) -> (r: u32)
        requires
            self.wf(),
            self.blacklist@.len() > 0,
            forall|k: int| 0 <= k < self.blacklist@.len() ==> (#[trigger] self.blacklist@[k]).end <= max,
        ensures
            r == uncovered_between(self.blacklist@, self.blacklist@[0].start as int, max as int),
    {
        let ghost bl = self.blacklist@;
        let s0 = self.blacklist[0].start;
        let mut cur: u32 = self.blacklist[0].end;
        let mut count: u32 = 0;
        let mut i: usize = 1;
        proof {
            lemma_all_covered(bl, s0 as int, s0 - 1, cur as int);
        }
        while i < self.blacklist.len()
            invariant
                bl == self.blacklist@,
                self.wf(),
                1 <= i <= bl.len(),
                s0 == bl[0].start,
                s0 <= cur <= max,
                forall|k: int| 0 <= k < bl.len() ==> (#[trigger] bl[k]).end <= max,
                forall|k: int| 0 <= k < i ==> (#[trigger] bl[k]).end <= cur,
                forall|k: int| i <= k < bl.len() ==> bl[i - 1].start <= (#[trigger] bl[k]).start,
                count == uncovered_between(bl, s0 as int, cur as int),
                count <= cur - s0,
            decreases bl.len() - i,
        {
            let next = self.blacklist[i];
            proof {
                assert(bl[i as int] == next);
                assert(bl[0].start <= next.start);
            }
            if cur < next.start {
                proof {
                    assert forall|v: int| cur < v < next.start implies !covered(bl, v) by {
                        assert forall|k: int| 0 <= k < bl.len() implies !((#[trigger] bl[k]).start <= v
                            <= bl[k].end) by {
                            if k >= i && k > i {
                                assert(bl[i as int].start <= bl[k].start);
                            }
                        }
                    }
                    lemma_all_uncovered(bl, s0 as int, cur as int, next.start - 1);
                }
                count = count + (next.start - cur - 1);
            }
            if next.end > cur {
                proof {
                    let mid: int = if cur < next.start { next.start - 1 } else { cur as int };
                    assert forall|v: int| mid < v <= next.end implies covered(bl, v) by {
                        assert(bl[i as int].start <= v <= bl[i as int].end);
                    }
                    lemma_all_covered(bl, s0 as int, mid, next.end as int);
                }
                cur = next.end;
            }
            i = i + 1;
        }
        proof {
            assert forall|v: int| cur < v <= max implies !covered(bl, v) by {
                assert forall|k: int| 0 <= k < bl.len() implies !((#[trigger] bl[k]).start <= v
                    <= bl[k].end) by {
                    assert(bl[k].end <= cur);
                }
            }
            lemma_all_uncovered(bl, s0 as int, cur as int, max as int);
        }
        count + (max - cur)
    }
}

proof fn lemma_all_covered(bl: Seq<Span>, lo: int, hi1: int, hi2: int)
    requires
        lo - 1 <= hi1 <= hi2,
        forall|v: int| hi1 < v <= hi2 ==> covered(bl, v),
    ensures
        uncovered_between(bl, lo, hi2) == uncovered_between(bl, lo, hi1),
    decreases hi2 - hi1,
{
    if hi2 > hi1 {
        lemma_all_covered(bl, lo, hi1, hi2 - 1);
        assert(covered(bl, hi2));
    }
}

proof fn lemma_all_uncovered(bl: Seq<Span>, lo: int, hi1: int, hi2: int)
    requires
        lo - 1 <= hi1 <= hi2,
        forall|v: int| hi1 < v <= hi2 ==> !covered(bl, v),
    ensures
        uncovered_between(bl, lo, hi2) == uncovered_between(bl, lo, hi1) + (hi2 - hi1),
    decreases hi2 - hi1,
{
    if hi2 > hi1 {
        lemma_all_uncovered(bl, lo, hi1, hi2 - 1);
        assert(!covered(bl, hi2));
    }
}

fn parse_u32(t: &Vec<char>) -> (r: Option<u32>)
    ensures
        r == u32_of(t@),
{
    let n = t.len();
    let start: usize = if n > 0 && t[0] == '+' { 1 } else { 0 };
    let ghost d = t@.subrange(start as int, n as int);
    proof {
        if start == 1 {
            assert(t@.drop_first() =~= d);
        } else {
            assert(t@ =~= d);
        }
    }
    if start >= n {
        return None;
    }
    let mut acc: u64 = 0;
    let mut i: usize = start;
    while i < n
        invariant
            start <= i <= n == t@.len(),
            start < n,
            d == t@.subrange(start as int, n as int),
            (if t@.len() > 0 && t@[0] == '+' { t@.drop_first() } else { t@ }) == d,
            acc == decimal(t@.subrange(start as int, i as int)),
            acc <= u32::MAX,
            forall|k: int| start <= k < i ==> #[trigger] is_digit(t@[k]),
        decreases n - i,
    {
        let c = t[i];
        if !('0' <= c && c <= '9') {
            proof {
                assert(!is_digit(d[i - start]));
            }
            return None;
        }
        let digit = (c as u32 - '0' as u32) as u64;
        proof {
            assert(t@.subrange(start as int, i + 1).drop_last() =~= t@.subrange(start as int, i as int));
        }
        acc = acc * 10 + digit;
        if acc > 0xffff_ffff {
            proof {
                let p = t@.subrange(start as int, i + 1);
                if all_digits(d) {
                    assert(d.take(i + 1 - start) =~= p);
                    lemma_decimal_grow(d, i + 1 - start);
                }
            }
            return None;
        }
        i = i + 1;
    }
    proof {
        assert(t@.subrange(start as int, i as int) =~= d);
    }
    Some(acc as u32)
}

proof fn lemma_decimal_nonneg(t: Seq<char>)
    requires
        forall|k: int| 0 <= k < t.len() ==> #[trigger] is_digit(t[k]),
    ensures
        decimal(t) >= 0,
    decreases t.len(),
{
    if t.len() > 0 {
        assert forall|k: int| 0 <= k < t.drop_last().len() implies #[trigger] is_digit(t.drop_last()[k]) by {
            assert(is_digit(t[k]));
        }
        lemma_decimal_nonneg(t.drop_last());
        assert(is_digit(t[t.len() - 1]));
    }
}

proof fn lemma_decimal_grow(t: Seq<char>, j: int)
    requires
        0 <= j <= t.len(),
        all_digits(t),
    ensures
        decimal(t.take(j)) <= decimal(t),
    decreases t.len() - j,
{
    if j < t.len() {
        assert(t.drop_last().take(j) =~= t.take(j));
        assert forall|k: int| 0 <= k < t.drop_last().len() implies #[trigger] is_digit(t.drop_last()[k]) by {
            assert(is_digit(t[k]));
        }
        lemma_decimal_nonneg(t.drop_last());
        assert(is_digit(t[t.len() - 1]));
        if t.drop_last().len() > 0 {
            assert(all_digits(t.drop_last())) by {
                assert forall|k: int| 0 <= k < t.drop_last().len() implies #[trigger] is_digit(
                    t.drop_last()[k],
                ) by {
                    assert(is_digit(t[k]));
                }
            }
            lemma_decimal_grow(t.drop_last(), j);
        } else {
            assert(t.take(j) =~= Seq::<char>::empty());
        }
        assert(is_digit(t.last()));
    } else {
        assert(t.take(j) =~= t);
    }
}

fn read_span(l: &Vec<char>) -> (r: Option<Span>)
    ensures
        r == span_line(l@),
{
    let n = l.len();
    let mut i: usize = 0;
    proof {
        assert(l@.skip(0) =~= l@);
    }
    while i < n && l[i] != '-'
        invariant
            i <= n == l@.len(),
            find_dash(l@) == i + find_dash(l@.skip(i as int)),
        decreases n - i,
    {
        proof {
            assert(l@.skip(i as int).drop_first() =~= l@.skip(i + 1));
        }
        i = i + 1;
    }
    proof {
        assert(l@.skip(i as int).len() == 0 || l@.skip(i as int)[0] == '-');
    }
    if i >= n {
        return None;
    }
    let left = sub_chars(l, 0, i);
    let right = sub_chars(l, i + 1, n);
    proof {
        assert(left@ =~= l@.take(i as int));
        assert(right@ =~= l@.skip(i + 1));
    }
    match (parse_u32(&left), parse_u32(&right)) {
        (Some(a), Some(b)) => Some(Span::new(a, b)),
        _ => None,
    }
}

/// The first index whose range starts after `start`, or the length.
fn insert_at(bl: &Vec<Span>, start: u32) -> (p: usize)
    ensures
        p <= bl@.len(),
        forall|k: int| 0 <= k < p ==> (#[trigger] bl@[k]).start <= start,
        p < bl@.len() ==> bl@[p as int].start > start,
{
    let mut p: usize = 0;
    while p < bl.len() && bl[p].start <= start
        invariant
            p <= bl@.len(),
            forall|k: int| 0 <= k < p ==> (#[trigger] bl@[k]).start <= start,
        decreases bl@.len() - p,
    {
        p = p + 1;
    }
    p
}

/// The span written on each line, for text where every line is `a-b`.
pub open spec fn spans_of(input: Seq<char>) -> Seq<Span> {
    lines(input).map_values(|l: Seq<char>| span_line(l)->0)
}

/// The blocked ranges listed in `input`, one `a-b` per line, sorted by start.
pub fn generate(input: &str) -> (r: Firewall)
    requires
        forall|k: int| 0 <= k < lines(input@).len() ==> (#[trigger] span_line(lines(input@)[k])) is Some,
    ensures
        r.wf(),
        r.blacklist@.to_multiset() == spans_of(input@).to_multiset(),
{
    broadcast use to_multiset_build, to_multiset_insert;

    let cs = chars_of(input);
    let spans = line_spans(&cs);
    let ghost ls = lines(input@);
    let ghost all = spans_of(input@);
    let mut bl: Vec<Span> = Vec::new();
    let mut i: usize = 0;
    proof {
        assert(all.take(0) =~= Seq::<Span>::empty());
    }
    while i < spans.len()
        invariant
            ls == lines(input@),
            all == spans_of(input@),
            all.len() == ls.len(),
            cs@ == input@,
            spans@.len() == ls.len(),
            forall|k: int| 0 <= k < ls.len() ==> (#[trigger] span_line(ls[k])) is Some,
            forall|k: int| #![trigger spans@[k]] 0 <= k < spans@.len() ==> spans@[k].0 <= spans@[k].1 <= cs@.len(),
            forall|k: int|
                0 <= k < spans@.len() ==> #[trigger] ls[k] == cs@.subrange(
                    spans@[k].0 as int,
                    spans@[k].1 as int,
                ),
            i <= spans@.len(),
            sorted_by_start(bl@),
            spans_wf(bl@),
            bl@.to_multiset() == all.take(i as int).to_multiset(),
        decreases spans@.len() - i,
    {
        let (st, en) = spans[i];
        proof {
            assert(ls[i as int] == cs@.subrange(st as int, en as int));
            assert(span_line(ls[i as int]) is Some);
        }
        let line = sub_chars(&cs, st, en);
        let sp = match read_span(&line) {
            Some(sp) => sp,
            None => {
                return Firewall { blacklist: bl };
            },
        };
        let p = insert_at(&bl, sp.start);
        let ghost before = bl@;
        bl.insert(p, sp);
        proof {
            assert(all[i as int] == sp);
            assert(all.take(i + 1) =~= all.take(i as int).push(sp));
            assert(bl@ == before.insert(p as int, sp));
            to_multiset_insert(before, p as int, sp);
            to_multiset_build(all.take(i as int), sp);
            assert(bl@.to_multiset() == all.take(i + 1).to_multiset());
            assert forall|a: int, b: int| 0 <= a < b < bl@.len() implies (#[trigger] bl@[a]).start
                <= (#[trigger] bl@[b]).start by {
                if b < p {
                    assert(bl@[a] == before[a] && bl@[b] == before[b]);
                } else if b == p {
                    assert(bl@[a] == before[a]);
                } else if a > p {
                    assert(bl@[a] == before[a - 1] && bl@[b] == before[b - 1]);
                } else if a == p {
                    assert(bl@[b] == before[b - 1]);
                    assert(before[p as int].start > sp.start);
                    if b - 1 > p {
                        assert(before[p as int].start <= before[b - 1].start);
                    }
                } else {
                    assert(bl@[a] == before[a] && bl@[b] == before[b - 1]);
                    assert(before[a].start <= before[p as int].start);
                    if b - 1 > p {
                        assert(before[p as int].start <= before[b - 1].start);
                    }
                }
            }
            assert forall|k: int| 0 <= k < bl@.len() implies (#[trigger] bl@[k]).start <= bl@[k].end by {
                if k < p {
                    assert(bl@[k] == before[k]);
                } else if k > p {
                    assert(bl@[k] == before[k - 1]);
                }
            }
        }
        i = i + 1;
    }
    proof {
        assert(all.take(i as int) =~= all);
    }
    Firewall { blacklist: bl }
}

/// The lowest unblocked address.
pub fn solve(fw: &Firewall) -> (r: u32)
    requires
        fw.wf(),
        fw.blacklist@.len() > 0,
        forall|k: int| 0 <= k < fw.blacklist@.len() ==> (#[trigger] fw.blacklist@[k]).end < u32::MAX,
    ensures
        !covered(fw.blacklist@, r as int),
        forall|v: int| 0 <= v < r ==> covered(fw.blacklist@, v),
{
    fw.first_free()
}

/// The number of unblocked addresses from the lowest range start up to `u32::MAX`.
pub fn solve2(fw: &Firewall) -> (r: u32)
    requires
        fw.wf(),
        fw.blacklist@.len() > 0,
    ensures
        r == uncovered_between(fw.blacklist@, fw.blacklist@[0].start as int, u32::MAX as int),
{
    fw.all_free(u32::MAX)
}

} // verus!
