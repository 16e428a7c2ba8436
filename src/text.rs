use vstd::prelude::*;
use crate::loader::{all_digits, decimal, is_digit};

verus! {

/// ASCII whitespace, as `str::split_ascii_whitespace` understands it.
pub open spec fn is_space(c: char) -> bool {
    c == ' ' || c == '\t' || c == '\n' || c == '\r' || c == '\x0C'
}

pub fn is_space_char(c: char) -> (r: bool)
    ensures
        r == is_space(c),
{
    c == ' ' || c == '\t' || c == '\n' || c == '\r' || c == '\x0C'
}

/// The whitespace-separated words of `s`, in order.
pub open spec fn words(s: Seq<char>) -> Seq<Seq<char>>
    decreases s.len(),
{
    if s.len() == 0 {
        seq![]
    } else {
        let t = words(s.drop_last());
        let c = s.last();
        if is_space(c) {
            t
        } else if s.len() >= 2 && !is_space(s[s.len() - 2]) && t.len() > 0 {
            t.drop_last().push(t.last().push(c))
        } else {
            t.push(seq![c])
        }
    }
}

/// The pieces of `s` between `'\n'` characters; there is always at least one.
pub open spec fn pieces(s: Seq<char>) -> Seq<Seq<char>>
    decreases s.len(),
{
    if s.len() == 0 {
        seq![seq![]]
    } else {
        let t = pieces(s.drop_last());
        if s.last() == '\n' {
            t.push(seq![])
        } else {
            t.drop_last().push(t.last().push(s.last()))
        }
    }
}

pub open spec fn strip_cr(l: Seq<char>) -> Seq<char> {
    if l.len() > 0 && l.last() == '\r' {
        l.drop_last()
    } else {
        l
    }
}

/// The lines of `s`, as `str::lines` gives them: split at `'\n'`, a `'\r'`
/// right before a `'\n'` dropped, and no empty line after a final `'\n'`.
pub open spec fn lines(s: Seq<char>) -> Seq<Seq<char>> {
    let p = pieces(s);
    let n: int = if p.last().len() == 0 {
        p.len() - 1
    } else {
        p.len() as int
    };
    Seq::new(n as nat, |k: int| if k < p.len() - 1 { strip_cr(p[k]) } else { p[k] })
}

/// The characters of `s`.
pub fn chars_of(s: &str) -> (r: Vec<char>)
    ensures
        r@ == s@,
{
    let n = s.unicode_len();
    let mut r: Vec<char> = Vec::new();
    let mut i: usize = 0;
    while i < n
        invariant
            n == s@.len(),
            i <= n,
            r@ == s@.take(i as int),
        decreases n - i,
    {
        r.push(s.get_char(i));
        i = i + 1;
        proof {
            assert(r@ =~= s@.take(i as int));
        }
    }
    proof {
        assert(r@ =~= s@);
    }
    r
}

/// Every span is non-empty and ends at or before `i`.
pub open spec fn spans_below(r: Seq<(usize, usize)>, i: int) -> bool {
    forall|k: int| #![trigger r[k]] 0 <= k < r.len() ==> r[k].0 < r[k].1 <= i
}

/// The spans `(start, end)` of the words of `s`.
pub fn word_spans(s: &Vec<char>) -> (r: Vec<(usize, usize)>)
    ensures
        r@.len() == words(s@).len(),
        forall|k: int| #![trigger r@[k]] 0 <= k < r@.len() ==> r@[k].0 < r@[k].1 <= s@.len(),
        forall|k: int|
            0 <= k < r@.len() ==> #[trigger] words(s@)[k] == s@.subrange(
                r@[k].0 as int,
                r@[k].1 as int,
            ),
{
    let mut r: Vec<(usize, usize)> = Vec::new();
    let mut i: usize = 0;
    while i < s.len()
        invariant
            i <= s@.len(),
            r@.len() == words(s@.take(i as int)).len(),
            spans_below(r@, i as int),
            forall|k: int|
                0 <= k < r@.len() ==> #[trigger] words(s@.take(i as int))[k] == s@.subrange(
                    r@[k].0 as int,
                    r@[k].1 as int,
                ),
            i > 0 && !is_space(s@[i - 1]) ==> r@.len() > 0 && r@.last().1 == i,
        decreases s@.len() - i,
    {
        let c = s[i];
        let ghost old_r = r@;
        let ghost t = words(s@.take(i as int));
        proof {
            assert(s@.take(i + 1).drop_last() =~= s@.take(i as int));
        }
        if is_space_char(c) {
            proof {
                assert forall|k: int| #![trigger r@[k]] 0 <= k < r@.len() implies r@[k].0 < r@[k].1 <= i + 1 by {
                    assert(old_r[k].0 < old_r[k].1 <= i);
                }
            }
        } else if i > 0 && !is_space_char(s[i - 1]) {
            let last = r.len() - 1;
            let st = r[last].0;
            proof {
                assert(old_r[last as int] == old_r.last());
                assert(st < i);
            }
            r.set(last, (st, i + 1));
            proof {
                assert forall|k: int| #![trigger r@[k]] 0 <= k < r@.len() implies r@[k].0 < r@[k].1 <= i + 1 by {
                    if k < last {
                        assert(r@[k] == old_r[k]);
                        assert(old_r[k].0 < old_r[k].1 <= i);
                    }
                }
                assert(s@.take(i + 1)[i - 1] == s@[i - 1]);
                assert(s@.subrange(st as int, i + 1) =~= s@.subrange(st as int, i as int).push(c));
                assert forall|k: int| 0 <= k < r@.len() implies #[trigger] words(s@.take(i + 1))[k]
                    == s@.subrange(r@[k].0 as int, r@[k].1 as int) by {
                    if k < last {
                        assert(words(s@.take(i as int))[k] == s@.subrange(
                            old_r[k].0 as int,
                            old_r[k].1 as int,
                        ));
                    }
                }
            }
        } else {
            r.push((i, i + 1));
            proof {
                assert forall|k: int| #![trigger r@[k]] 0 <= k < r@.len() implies r@[k].0 < r@[k].1 <= i + 1 by {
                    if k < old_r.len() {
                        assert(r@[k] == old_r[k]);
                        assert(old_r[k].0 < old_r[k].1 <= i);
                    }
                }
                if i > 0 {
                    assert(s@.take(i + 1)[i - 1] == s@[i - 1]);
                }
                assert(s@.subrange(i as int, i + 1) =~= seq![c]);
                assert forall|k: int| 0 <= k < r@.len() implies #[trigger] words(s@.take(i + 1))[k]
                    == s@.subrange(r@[k].0 as int, r@[k].1 as int) by {
                    if k < old_r.len() {
                        assert(words(s@.take(i as int))[k] == s@.subrange(
                            old_r[k].0 as int,
                            old_r[k].1 as int,
                        ));
                    }
                }
            }
        }
        i = i + 1;
    }
    proof {
        assert(s@.take(i as int) =~= s@);
        assert forall|k: int| 0 <= k < r@.len() implies #[trigger] words(s@)[k] == s@.subrange(
            r@[k].0 as int,
            r@[k].1 as int,
        ) by {
            assert(words(s@.take(i as int))[k] == s@.subrange(r@[k].0 as int, r@[k].1 as int));
        }
    }
    r
}

/// The spans `(start, end)` of the lines of `s`.
pub fn line_spans(s: &Vec<char>) -> (r: Vec<(usize, usize)>)
    ensures
        r@.len() == lines(s@).len(),
        forall|k: int| #![trigger r@[k]] 0 <= k < r@.len() ==> r@[k].0 <= r@[k].1 <= s@.len(),
        forall|k: int|
            0 <= k < r@.len() ==> #[trigger] lines(s@)[k] == s@.subrange(
                r@[k].0 as int,
                r@[k].1 as int,
            ),
{
    let mut r: Vec<(usize, usize)> = Vec::new();
    let mut st: usize = 0;
    let mut i: usize = 0;
    while i < s.len()
        invariant
            st <= i <= s@.len(),
            pieces(s@.take(i as int)).len() == r@.len() + 1,
            pieces(s@.take(i as int)).last() == s@.subrange(st as int, i as int),
            forall|k: int| #![trigger r@[k]] 0 <= k < r@.len() ==> r@[k].0 <= r@[k].1 <= i,
            forall|k: int|
                0 <= k < r@.len() ==> strip_cr(#[trigger] pieces(s@.take(i as int))[k]) == s@.subrange(
                    r@[k].0 as int,
                    r@[k].1 as int,
                ),
        decreases s@.len() - i,
    {
        let c = s[i];
        let ghost old_r = r@;
        let ghost t = pieces(s@.take(i as int));
        proof {
            assert(s@.take(i + 1).drop_last() =~= s@.take(i as int));
        }
        if c == '\n' {
            let mut en = i;
            if en > st && s[en - 1] == '\r' {
                en = en - 1;
            }
            r.push((st, en));
            proof {
                assert forall|k: int| #![trigger r@[k]] 0 <= k < r@.len() implies r@[k].0 <= r@[k].1 <= i + 1 by {
                    if k < old_r.len() {
                        assert(old_r[k].0 <= old_r[k].1 <= i);
                    }
                }
                let l = s@.subrange(st as int, i as int);
                if i > st && s@[i - 1] == '\r' {
                    assert(l.drop_last() =~= s@.subrange(st as int, en as int));
                }
                assert(strip_cr(l) == s@.subrange(st as int, en as int));
                assert(s@.subrange(i + 1, i + 1) =~= Seq::<char>::empty());
                assert forall|k: int| 0 <= k < r@.len() implies strip_cr(
                    #[trigger] pieces(s@.take(i + 1))[k],
                ) == s@.subrange(r@[k].0 as int, r@[k].1 as int) by {
                    if k < old_r.len() {
                        assert(strip_cr(t[k]) == s@.subrange(old_r[k].0 as int, old_r[k].1 as int));
                    }
                }
            }
            st = i + 1;
        } else {
            proof {
                assert(s@.subrange(st as int, i + 1) =~= s@.subrange(st as int, i as int).push(c));
                assert forall|k: int| 0 <= k < r@.len() implies strip_cr(
                    #[trigger] pieces(s@.take(i + 1))[k],
                ) == s@.subrange(r@[k].0 as int, r@[k].1 as int) by {
                    assert(strip_cr(t[k]) == s@.subrange(old_r[k].0 as int, old_r[k].1 as int));
                }
            }
        }
        i = i + 1;
    }
    let ghost p = pieces(s@);
    let ghost old_r = r@;
    proof {
        assert(s@.take(i as int) =~= s@);
    }
    if st < s.len() {
        r.push((st, s.len()));
    }
    proof {
        assert forall|k: int| 0 <= k < r@.len() implies #[trigger] lines(s@)[k] == s@.subrange(
            r@[k].0 as int,
            r@[k].1 as int,
        ) by {
            if k < old_r.len() {
                assert(strip_cr(p[k]) == s@.subrange(old_r[k].0 as int, old_r[k].1 as int));
            }
        }
    }
    r
}

/// Relies on `String::from_iter` over `char`s: the string holds exactly the
/// given characters, in order.
#[verifier::external_body]
pub(crate) fn string_from_chars(v: &Vec<char>) -> (r: String)
    ensures
        r@ == v@,
{
    String::from_iter(v.iter())
}

/// The characters `st..en` of `v`.
pub fn sub_chars(v: &Vec<char>, st: usize, en: usize) -> (r: Vec<char>)
    requires
        st <= en <= v@.len(),
    ensures
        r@ == v@.subrange(st as int, en as int),
{
    let mut r: Vec<char> = Vec::new();
    let mut i: usize = st;
    while i < en
        invariant
            st <= i <= en <= v@.len(),
            r@ == v@.subrange(st as int, i as int),
        decreases en - i,
    {
        r.push(v[i]);
        i = i + 1;
        proof {
            assert(r@ =~= v@.subrange(st as int, i as int));
        }
    }
    r
}

/// The `usize` written by the decimal digits `t`.
pub open spec fn digits_of(t: Seq<char>) -> Option<usize> {
    if all_digits(t) && decimal(t) <= usize::MAX {
        Some(decimal(t) as usize)
    } else {
        None
    }
}

/// Whether the characters `st..en` of `v` spell `lit`.
pub fn span_eq(v: &Vec<char>, st: usize, en: usize, lit: &str) -> (r: bool)
    requires
        st <= en <= v@.len(),
    ensures
        r == (v@.subrange(st as int, en as int) == lit@),
{
    let n = lit.unicode_len();
    if en - st != n {
        return false;
    }
    let mut i: usize = 0;
    while i < n
        invariant
            n == lit@.len() == en - st,
            st <= en <= v@.len(),
            i <= n,
            forall|k: int| 0 <= k < i ==> v@[st + k] == lit@[k],
        decreases n - i,
    {
        if v[st + i] != lit.get_char(i) {
            proof {
                assert(v@.subrange(st as int, en as int)[i as int] != lit@[i as int]);
            }
            return false;
        }
        i = i + 1;
    }
    proof {
        assert(v@.subrange(st as int, en as int) =~= lit@);
    }
    true
}

pub fn read_digits(v: &Vec<char>, st: usize, en: usize) -> (r: Option<usize>)
    requires
        st <= en <= v@.len(),
    ensures
        r == digits_of(v@.subrange(st as int, en as int)),
{
    let ghost t = v@.subrange(st as int, en as int);
    if st == en {
        return None;
    }
    let mut acc: usize = 0;
    let mut big = false;
    let mut i: usize = st;
    while i < en
        invariant
            st < en <= v@.len(),
            st <= i <= en,
            t == v@.subrange(st as int, en as int),
            forall|k: int| st <= k < i ==> #[trigger] is_digit(v@[k]),
            decimal(v@.subrange(st as int, i as int)) >= 0,
            !big ==> acc == decimal(v@.subrange(st as int, i as int)),
            big ==> decimal(v@.subrange(st as int, i as int)) > usize::MAX,
        decreases en - i,
    {
        let c = v[i];
        if !('0' <= c && c <= '9') {
            proof {
                assert(!is_digit(t[i - st]));
            }
            return None;
        }
        let d = (c as u32 - '0' as u32) as usize;
        proof {
            assert(v@.subrange(st as int, i + 1).drop_last() =~= v@.subrange(st as int, i as int));
        }
        if !big {
            if acc > (usize::MAX - d) / 10 {
                big = true;
            } else {
                acc = acc * 10 + d;
            }
        }
        i = i + 1;
    }
    proof {
        assert(v@.subrange(st as int, i as int) =~= t);
        assert(all_digits(t));
    }
    if big {
        None
    } else {
        Some(acc)
    }
}

} // verus!
