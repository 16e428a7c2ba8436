use vstd::prelude::*;
use crate::text::{chars_of, digits_of, line_spans, lines, read_digits, span_eq, word_spans, words};

verus! {

/// A spinning disc: `period` positions, at `start` at time zero.
#[derive(Clone, Copy, PartialEq, Eq, Structural, Debug)]
pub struct Disc {
    pub start: usize,
    pub period: usize,
}

/// A line that does not describe a disc.
#[derive(Clone, Copy, PartialEq, Eq, Structural, Debug)]
pub struct DiscParseErr {}

/// A disc line: `Disc #n has P positions; at time=0, it is at position S.`,
/// its words separated by whitespace; the first two words are not read.
pub open spec fn disc_line(l: Seq<char>) -> Option<Disc> {
    let w = words(l);
    if w.len() == 12 && w[2] == "has"@ && w[4] == "positions;"@ && w[5] == "at"@ && w[6] == "time=0,"@
        && w[7] == "it"@ && w[8] == "is"@ && w[9] == "at"@ && w[10] == "position"@ && w[11].len() > 0
        && w[11].last() == '.' && digits_of(w[3]) is Some && digits_of(w[11].drop_last()) is Some {
        Some(Disc { period: digits_of(w[3])->0, start: digits_of(w[11].drop_last())->0 })
    } else {
        None
    }
}

impl Disc {
    /// Reads one disc line.
    pub fn parse(s: &str) -> (r: Result<Disc, DiscParseErr>)
        ensures
            match r {
                Ok(d) => disc_line(s@) == Some(d),
                Err(_) => disc_line(s@) is None,
            },
    {
        let cs = chars_of(s);
        let w = word_spans(&cs);
        let ghost ws = words(s@);
        if w.len() != 12 {
            return Err(DiscParseErr {});
        }
        proof {
            assert forall|k: int| 0 <= k < 12 implies #[trigger] ws[k] == cs@.subrange(
                w@[k].0 as int,
                w@[k].1 as int,
            ) && w@[k].0 <= w@[k].1 <= cs@.len() by {
                assert(w@[k].0 <= w@[k].1 <= cs@.len());
            }
        }
        let lits_ok = span_eq(&cs, w[2].0, w[2].1, "has") && span_eq(&cs, w[4].0, w[4].1, "positions;")
            && span_eq(&cs, w[5].0, w[5].1, "at") && span_eq(&cs, w[6].0, w[6].1, "time=0,")
            && span_eq(&cs, w[7].0, w[7].1, "it") && span_eq(&cs, w[8].0, w[8].1, "is")
            && span_eq(&cs, w[9].0, w[9].1, "at") && span_eq(&cs, w[10].0, w[10].1, "position");
        if !lits_ok {
            return Err(DiscParseErr {});
        }
        let (a, b) = w[11];
        if a == b || cs[b - 1] != '.' {
            return Err(DiscParseErr {});
        }
        proof {
            assert(ws[11].drop_last() =~= cs@.subrange(a as int, b - 1));
        }
        match (read_digits(&cs, w[3].0, w[3].1), read_digits(&cs, a, b - 1)) {
            (Some(period), Some(start)) => Ok(Disc { start, period }),
            _ => Err(DiscParseErr {}),
        }
    }
}

impl std::str::FromStr for Disc {
    type Err = DiscParseErr;

    fn from_str(s: &str) -> Result<Disc, DiscParseErr> {
        Disc::parse(s)
    }
}

/// The discs listed in `s`, one per line.
pub fn generate(s: &str) -> (r: Vec<Disc>)
    requires
        forall|k: int| 0 <= k < lines(s@).len() ==> (#[trigger] disc_line(lines(s@)[k])) is Some,
    ensures
        r@ == lines(s@).map_values(|l: Seq<char>| disc_line(l)->0),
{
    let cs = chars_of(s);
    let spans = line_spans(&cs);
    let ghost ls = lines(s@);
    let mut r: Vec<Disc> = Vec::new();
    let mut i: usize = 0;
    while i < spans.len()
        invariant
            ls == lines(s@),
            cs@ == s@,
            spans@.len() == ls.len(),
            forall|k: int| 0 <= k < ls.len() ==> (#[trigger] disc_line(ls[k])) is Some,
            forall|k: int| #![trigger spans@[k]] 0 <= k < spans@.len() ==> spans@[k].0 <= spans@[k].1 <= cs@.len(),
            forall|k: int|
                0 <= k < spans@.len() ==> #[trigger] ls[k] == cs@.subrange(
                    spans@[k].0 as int,
                    spans@[k].1 as int,
                ),
            i <= spans@.len(),
            r@ == ls.take(i as int).map_values(|l: Seq<char>| disc_line(l)->0),
        decreases spans@.len() - i,
    {
        let (st, en) = spans[i];
        proof {
            assert(ls[i as int] == cs@.subrange(st as int, en as int));
            assert(disc_line(ls[i as int]) is Some);
        }
        let line = s.substring_char(st, en);
        match Disc::parse(line) {
            Ok(d) => {
                r.push(d);
                proof {
                    assert(r@ =~= ls.take(i + 1).map_values(|l: Seq<char>| disc_line(l)->0));
                }
            },
            Err(_) => {
                return r;
            },
        }
        i = i + 1;
    }
    proof {
        assert(ls.take(i as int) =~= ls);
    }
    r
}

/// Every disc `i` (counted from zero) is at position zero when the capsule
/// dropped at `time` reaches it, `i + 1` seconds later.
pub open spec fn falls_through(discs: Seq<Disc>, time: int) -> bool {
    forall|i: int| 0 <= i < discs.len() ==> (i + 1 + (#[trigger] discs[i]).start + time) % (discs[i].period as int) == 0
}

fn passes(discs: &[Disc], time: usize) -> (r: bool)
    requires
        forall|i: int| 0 <= i < discs@.len() ==> (#[trigger] discs@[i]).period > 0,
    ensures
        r == falls_through(discs@, time as int),
{
    let mut i: usize = 0;
    while i < discs.len()
        invariant
            i <= discs@.len(),
            forall|k: int| 0 <= k < discs@.len() ==> (#[trigger] discs@[k]).period > 0,
            forall|k: int| 0 <= k < i ==> (k + 1 + (#[trigger] discs@[k]).start + time) % (discs@[k].period as int) == 0,
        decreases discs@.len() - i,
    {
        let d = discs[i];
        let sum = i as u128 + 1 + d.start as u128 + time as u128;
        if sum % (d.period as u128) != 0 {
            return false;
        }
        i = i + 1;
    }
    true
}

/// The first time at which a capsule falls through every disc, if any
/// `usize` time does.
pub fn solve(discs: &[Disc]) -> (r: Option<usize>)
    requires
        forall|i: int| 0 <= i < discs@.len() ==> (#[trigger] discs@[i]).period > 0,
    ensures
        match r {
            Some(t) => falls_through(discs@, t as int) && forall|u: int| 0 <= u < t ==> !falls_through(discs@, u),
            None => forall|u: int| 0 <= u <= usize::MAX ==> !falls_through(discs@, u),
        },
{
    let mut time: usize = 0;
    loop
        invariant
            forall|i: int| 0 <= i < discs@.len() ==> (#[trigger] discs@[i]).period > 0,
            forall|u: int| 0 <= u < time ==> !falls_through(discs@, u),
        decreases usize::MAX - time,
    {
        if passes(discs, time) {
            return Some(time);
        }
        if time == usize::MAX {
            return None;
        }
        time = time + 1;
    }
}

/// The same, with one more disc of eleven positions at the bottom, at
/// position zero at time zero.
pub fn solve2(discs: &[Disc]) -> (r: Option<usize>)
    requires
        forall|i: int| 0 <= i < discs@.len() ==> (#[trigger] discs@[i]).period > 0,
    ensures
        ({
            let all = discs@.push(Disc { period: 11, start: 0 });
            match r {
                Some(t) => falls_through(all, t as int) && forall|u: int| 0 <= u < t ==> !falls_through(all, u),
                None => forall|u: int| 0 <= u <= usize::MAX ==> !falls_through(all, u),
            }
        }),
{
    let mut all = vstd::slice::slice_to_vec(discs);
    all.push(Disc { period: 11, start: 0 });
    solve(all.as_slice())
}

} // verus!
