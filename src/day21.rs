use vstd::prelude::*;
use crate::text::{chars_of, digits_of, line_spans, lines, read_digits, span_eq, string_from_chars, word_spans, words};

verus! {

/// One scrambling operation.
#[derive(Debug, Clone, Copy, PartialEq, Eq, Structural)]
pub enum Instr {
    SwapPosition(usize, usize),
    SwapLetter(char, char),
    RotateByLetter(char),
    RotateRight(usize),
    RotateLeft(usize),
    Reverse(usize, usize),
    Move(usize, usize),
}

/// Why a line was refused.
#[derive(Debug, Clone, PartialEq, Eq)]
pub enum InstrParseError {
    /// No known operation, or too few words; carries the line.
    Unrecognised(String),
    /// A position or distance is not a `usize`; carries the word.
    NumberParse(String),
}

/// The `usize` written by `t`: an optional `+`, then decimal digits.
pub open spec fn count_of(t: Seq<char>) -> Option<usize> {
    if t.len() > 0 && t[0] == '+' {
        digits_of(t.drop_first())
    } else {
        digits_of(t)
    }
}

/// Which operation a line names, by its first two words: 1 swap position,
/// 2 swap letter, 3 rotate based, 4 rotate left, 5 rotate right, 6 reverse,
/// 7 move, 0 none.
pub open spec fn op_kind(w: Seq<Seq<char>>) -> int {
    if w.len() < 2 {
        0
    } else if w[0] == "swap"@ && w[1] == "position"@ {
        1
    } else if w[0] == "swap"@ && w[1] == "letter"@ {
        2
    } else if w[0] == "rotate"@ && w[1] == "based"@ {
        3
    } else if w[0] == "rotate"@ && w[1] == "left"@ {
        4
    } else if w[0] == "rotate"@ && w[1] == "right"@ {
        5
    } else if w[0] == "reverse"@ {
        6
    } else if w[0] == "move"@ {
        7
    } else {
        0
    }
}

/// The words an operation reads its operands from.
pub open spec fn operand_words(kind: int) -> (int, int) {
    if kind == 3 {
        (6, 6)
    } else if kind == 4 || kind == 5 {
        (2, 2)
    } else if kind == 6 {
        (2, 4)
    } else {
        (2, 5)
    }
}

/// How a line reads: `Ok` with the operation, or the error and its text.
pub open spec fn instr_spec(line: Seq<char>) -> Result<Instr, (bool, Seq<char>)> {
    let w = words(line);
    let kind = op_kind(w);
    let (p, q) = operand_words(kind);
    if kind == 0 || w.len() <= q {
        Err((false, line))
    } else if kind == 2 {
        Ok(Instr::SwapLetter(w[p][0], w[q][0]))
    } else if kind == 3 {
        Ok(Instr::RotateByLetter(w[p][0]))
    } else if count_of(w[p]) is None {
        Err((true, w[p]))
    } else if kind == 4 {
        Ok(Instr::RotateLeft(count_of(w[p])->0))
    } else if kind == 5 {
        Ok(Instr::RotateRight(count_of(w[p])->0))
    } else if count_of(w[q]) is None {
        Err((true, w[q]))
    } else if kind == 1 {
        Ok(Instr::SwapPosition(count_of(w[p])->0, count_of(w[q])->0))
    } else if kind == 6 {
        Ok(Instr::Reverse(count_of(w[p])->0, count_of(w[q])->0))
    } else {
        Ok(Instr::Move(count_of(w[p])->0, count_of(w[q])->0))
    }
}

pub open spec fn instr_reported(r: Result<Instr, InstrParseError>, line: Seq<char>) -> bool {
    match r {
        Ok(i) => instr_spec(line) == Ok::<Instr, (bool, Seq<char>)>(i),
        Err(InstrParseError::Unrecognised(m)) => instr_spec(line) == Err::<Instr, (bool, Seq<char>)>((false, m@)),
        Err(InstrParseError::NumberParse(m)) => instr_spec(line) == Err::<Instr, (bool, Seq<char>)>((true, m@)),
    }
}

/// The operation can run on a string of length `n` without leaving it.
pub open spec fn instr_ok(i: Instr, n: nat) -> bool {
    match i {
        Instr::SwapPosition(x, y) => x < n && y < n,
        Instr::RotateRight(d) => d <= n,
        Instr::RotateLeft(d) => d <= n,
        Instr::Reverse(a, b) => a <= b + 1 && b < n,
        Instr::Move(x, y) => x < n && y < n,
        _ => true,
    }
}

pub open spec fn swap_letter(c: char, x: char, y: char) -> char {
    if c == x {
        y
    } else if c == y {
        x
    } else {
        c
    }
}

pub open spec fn rotated_right(s: Seq<char>, d: int) -> Seq<char> {
    Seq::new(s.len(), |i: int| s[(i + s.len() - d) % (s.len() as int)])
}

/// The index of the first `c` in `s`, or its length.
pub open spec fn first_index(s: Seq<char>, c: char) -> nat
    decreases s.len(),
{
    if s.len() == 0 || s[0] == c {
        0
    } else {
        1 + first_index(s.drop_first(), c)
    }
}

/// The distance a rotation based on the letter at `index` turns right.
pub open spec fn letter_distance(index: int, n: int) -> int {
    (if index >= 4 { index + 2 } else { index + 1 }) % n
}

/// One operation applied to `s`.
pub open spec fn apply(i: Instr, s: Seq<char>) -> Seq<char> {
    match i {
        Instr::SwapPosition(x, y) => s.update(x as int, s[y as int]).update(y as int, s[x as int]),
        Instr::SwapLetter(x, y) => s.map_values(|c: char| swap_letter(c, x, y)),
        Instr::RotateLeft(d) => Seq::new(s.len(), |k: int| s[(k + d) % (s.len() as int)]),
        Instr::RotateRight(d) => rotated_right(s, d as int),
        Instr::RotateByLetter(c) => {
            let idx = first_index(s, c);
            if idx < s.len() {
                rotated_right(s, letter_distance(idx as int, s.len() as int))
            } else {
                s
            }
        },
        Instr::Reverse(a, b) => Seq::new(
            s.len(),
            |k: int| if a <= k <= b { s[a + b - k] } else { s[k] },
        ),
        Instr::Move(x, y) => s.remove(x as int).insert(y as int, s[x as int]),
    }
}

/// The operations of `p`, in order, applied to `s`.
pub open spec fn scrambled(p: Seq<Instr>, s: Seq<char>) -> Seq<char>
    decreases p.len(),
{
    if p.len() == 0 {
        s
    } else {
        apply(p.last(), scrambled(p.drop_last(), s))
    }
}

proof fn lemma_apply_len(i: Instr, s: Seq<char>)
    requires
        instr_ok(i, s.len()),
    ensures
        apply(i, s).len() == s.len(),
{
}

fn read_count(cs: &Vec<char>, st: usize, en: usize) -> (r: Option<usize>)
    requires
        st <= en <= cs@.len(),
    ensures
        r == count_of(cs@.subrange(st as int, en as int)),
{
    if st < en && cs[st] == '+' {
        proof {
            assert(cs@.subrange(st as int, en as int).drop_first() =~= cs@.subrange(st + 1, en as int));
        }
        read_digits(cs, st + 1, en)
    } else {
        read_digits(cs, st, en)
    }
}

impl Instr {
    /// Reads one line.
    pub fn parse(s: &str) -> (r: Result<Instr, InstrParseError>)
        ensures
            instr_reported(r, s@),
    {
        let cs = chars_of(s);
        let w = word_spans(&cs);
        let ghost ws = words(s@);
        proof {
            assert forall|k: int| 0 <= k < w@.len() implies #[trigger] ws[k] == cs@.subrange(
                w@[k].0 as int,
                w@[k].1 as int,
            ) && w@[k].0 <= w@[k].1 <= cs@.len() by {
                assert(w@[k].0 <= w@[k].1 <= cs@.len());
            }
        }
        if w.len() < 2 {
            return Err(InstrParseError::Unrecognised(s.to_owned()));
        }
        let (a0, b0) = w[0];
        let (a1, b1) = w[1];
        let kind: usize = if span_eq(&cs, a0, b0, "swap") && span_eq(&cs, a1, b1, "position") {
            1
        } else if span_eq(&cs, a0, b0, "swap") && span_eq(&cs, a1, b1, "letter") {
            2
        } else if span_eq(&cs, a0, b0, "rotate") && span_eq(&cs, a1, b1, "based") {
            3
        } else if span_eq(&cs, a0, b0, "rotate") && span_eq(&cs, a1, b1, "left") {
            4
        } else if span_eq(&cs, a0, b0, "rotate") && span_eq(&cs, a1, b1, "right") {
            5
        } else if span_eq(&cs, a0, b0, "reverse") {
            6
        } else if span_eq(&cs, a0, b0, "move") {
            7
        } else {
            0
        };
        assert(kind == op_kind(ws));
        let (p, q): (usize, usize) = if kind == 3 {
            (6, 6)
        } else if kind == 4 || kind == 5 {
            (2, 2)
        } else if kind == 6 {
            (2, 4)
        } else {
            (2, 5)
        };
        if kind == 0 || w.len() <= q {
            return Err(InstrParseError::Unrecognised(s.to_owned()));
        }
        let (ap, bp) = w[p];
        let (aq, bq) = w[q];
        proof {
            assert(ws[p as int].len() > 0);
            assert(ws[q as int].len() > 0);
        }
        if kind == 2 {
            return Ok(Instr::SwapLetter(cs[ap], cs[aq]));
        }
        if kind == 3 {
            return Ok(Instr::RotateByLetter(cs[ap]));
        }
        let x = match read_count(&cs, ap, bp) {
            Some(v) => v,
            None => {
                return Err(InstrParseError::NumberParse(s.substring_char(ap, bp).to_owned()));
            },
        };
        if kind == 4 {
            return Ok(Instr::RotateLeft(x));
        }
        if kind == 5 {
            return Ok(Instr::RotateRight(x));
        }
        let y = match read_count(&cs, aq, bq) {
            Some(v) => v,
            None => {
                return Err(InstrParseError::NumberParse(s.substring_char(aq, bq).to_owned()));
            },
        };
        if kind == 1 {
            Ok(Instr::SwapPosition(x, y))
        } else if kind == 6 {
            Ok(Instr::Reverse(x, y))
        } else {
            Ok(Instr::Move(x, y))
        }
    }
}

/// A list of operations, applied in order.
pub struct Scrambler {
    pub program: Vec<Instr>,
}

fn rotate_right(v: &Vec<char>, d: usize) -> (r: Vec<char>)
    requires
        d <= v@.len(),
        v@.len() > 0,
    ensures
        r@ == rotated_right(v@, d as int),
{
    let n = v.len();
    let mut r: Vec<char> = Vec::new();
    let mut k: usize = 0;
    while k < n
        invariant
            n == v@.len() > 0,
            d <= n,
            k <= n,
            r@ =~= rotated_right(v@, d as int).take(k as int),
        decreases n - k,
    {
        let j = if k >= d { k - d } else { k + (n - d) };
        proof {
            assert(j == (k + n - d) % (n as int)) by {
                if k >= d {
                    assert((k + n - d) % (n as int) == (k - d) as int) by (nonlinear_arith)
                        requires
                            k >= d,
                            k < n,
                    ;
                } else {
                    assert((k + n - d) % (n as int) == (k + n - d) as int) by (nonlinear_arith)
                        requires
                            k < d,
                            d <= n,
                    ;
                }
            }
        }
        r.push(v[j]);
        k = k + 1;
        proof {
            assert(r@ =~= rotated_right(v@, d as int).take(k as int));
        }
    }
    proof {
        assert(rotated_right(v@, d as int).take(n as int) =~= rotated_right(v@, d as int));
    }
    r
}

fn apply_op(i: Instr, v: Vec<char>) -> (r: Vec<char>)
    requires
        instr_ok(i, v@.len()),
    ensures
        r@ == apply(i, v@),
{
    let n = v.len();
    match i {
        Instr::SwapPosition(x, y) => {
            let mut w = v;
            let cx = w[x];
            let cy = w[y];
            w.set(x, cy);
            w.set(y, cx);
            w
        },
        Instr::SwapLetter(x, y) => {
            let mut w: Vec<char> = Vec::new();
            let mut k: usize = 0;
            while k < n
                invariant
                    n == v@.len(),
                    k <= n,
                    w@ =~= v@.map_values(|c: char| swap_letter(c, x, y)).take(k as int),
                decreases n - k,
            {
                let c = v[k];
                w.push(if c == x { y } else if c == y { x } else { c });
                k = k + 1;
                proof {
                    assert(w@ =~= v@.map_values(|c: char| swap_letter(c, x, y)).take(k as int));
                }
            }
            proof {
                assert(v@.map_values(|c: char| swap_letter(c, x, y)).take(n as int) =~= v@.map_values(
                    |c: char| swap_letter(c, x, y),
                ));
            }
            w
        },
        Instr::RotateLeft(d) => {
            if n == 0 {
                proof {
                    assert(v@ =~= apply(i, v@));
                }
                return v;
            }
            let r = rotate_right(&v, n - d);
            proof {
                assert forall|k: int| 0 <= k < n implies #[trigger] r@[k] == v@[(k + d) % (n as int)] by {
                    assert((k + n - (n - d)) % (n as int) == (k + d) % (n as int));
                }
                assert(r@ =~= apply(i, v@));
            }
            r
        },
        Instr::RotateRight(d) => {
            if n == 0 {
                proof {
                    assert(v@ =~= apply(i, v@));
                }
                return v;
            }
            rotate_right(&v, d)
        },
        Instr::RotateByLetter(c) => {
            let mut idx: usize = 0;
            proof {
                assert(v@.skip(0) =~= v@);
            }
            while idx < n && v[idx] != c
                invariant
                    n == v@.len(),
                    idx <= n,
                    first_index(v@, c) == idx + first_index(v@.skip(idx as int), c),
                decreases n - idx,
            {
                proof {
                    assert(v@.skip(idx as int).drop_first() =~= v@.skip(idx + 1));
                }
                idx = idx + 1;
            }
            if idx < n {
                let step: usize = if idx >= 4 { 2 } else { 1 };
                let dist = if idx >= n - step { idx - (n - step) } else { idx + step };
                proof {
                    assert(dist == letter_distance(idx as int, n as int)) by {
                        if idx >= n - step {
                            assert((idx + step) % (n as int) == idx + step - n) by (nonlinear_arith)
                                requires
                                    idx + step >= n,
                                    idx + step < 2 * n,
                            ;
                        } else {
                            assert((idx + step) % (n as int) == idx + step) by (nonlinear_arith)
                                requires
                                    idx + step < n,
                            ;
                        }
                    }
                }
                rotate_right(&v, dist)
            } else {
                v
            }
        },
        Instr::Reverse(a, b) => {
            let mut w: Vec<char> = Vec::new();
            let mut k: usize = 0;
            while k < n
                invariant
                    n == v@.len(),
                    a <= b + 1,
                    b < n,
                    k <= n,
                    w@ =~= Seq::new(n as nat, |q: int| if a <= q <= b { v@[a + b - q] } else { v@[q] }).take(
                        k as int,
                    ),
                decreases n - k,
            {
                let c = if a <= k && k <= b { v[b - (k - a)] } else { v[k] };
                w.push(c);
                k = k + 1;
                proof {
                    assert(w@ =~= Seq::new(n as nat, |q: int| if a <= q <= b { v@[a + b - q] } else { v@[q] }).take(
                        k as int,
                    ));
                }
            }
            proof {
                assert(w@ =~= apply(i, v@));
            }
            w
        },
        Instr::Move(x, y) => {
            let mut w = v;
            let c = w.remove(x);
            w.insert(y, c);
            w
        },
    }
}

impl Scrambler {
    /// The operations listed in `from`, one per line.
    pub fn new(from: &str) -> (r: Scrambler)
        requires
            forall|k: int| 0 <= k < lines(from@).len() ==> (#[trigger] instr_spec(lines(from@)[k])) is Ok,
        ensures
            r.program@.len() == lines(from@).len(),
            forall|k: int| 0 <= k < r.program@.len() ==> instr_spec(lines(from@)[k]) == Ok::<Instr, (bool, Seq<char>)>(#[trigger] r.program@[k]),
    {
        let cs = chars_of(from);
        let spans = line_spans(&cs);
        let ghost ls = lines(from@);
        let mut program: Vec<Instr> = Vec::new();
        let mut i: usize = 0;
        while i < spans.len()
            invariant
                ls == lines(from@),
                cs@ == from@,
                spans@.len() == ls.len(),
                forall|k: int| 0 <= k < ls.len() ==> (#[trigger] instr_spec(ls[k])) is Ok,
                forall|k: int| #![trigger spans@[k]] 0 <= k < spans@.len() ==> spans@[k].0 <= spans@[k].1 <= cs@.len(),
                forall|k: int|
                    0 <= k < spans@.len() ==> #[trigger] ls[k] == cs@.subrange(
                        spans@[k].0 as int,
                        spans@[k].1 as int,
                    ),
                i <= spans@.len(),
                program@.len() == i,
                forall|k: int| 0 <= k < i ==> instr_spec(ls[k]) == Ok::<Instr, (bool, Seq<char>)>(#[trigger] program@[k]),
            decreases spans@.len() - i,
        {
            let (st, en) = spans[i];
            proof {
                assert(ls[i as int] == cs@.subrange(st as int, en as int));
                assert(instr_spec(ls[i as int]) is Ok);
            }
            match Instr::parse(from.substring_char(st, en)) {
                Ok(ins) => {
                    program.push(ins);
                    proof {
                        assert forall|k: int| 0 <= k < i + 1 implies instr_spec(ls[k]) == Ok::<
                            Instr,
                            (bool, Seq<char>),
                        >(#[trigger] program@[k]) by {
                            if k < i {
                                assert(instr_spec(ls[k]) == Ok::<Instr, (bool, Seq<char>)>(program@[k]));
                            }
                        }
                    }
                },
                Err(_) => {
                    return Scrambler { program };
                },
            }
            i = i + 1;
        }
        Scrambler { program }
    }

    /// `s` after every operation, in order.
    pub fn scramble(&self, s: &str) -> (r: String)
        requires
            forall|k: int| 0 <= k < self.program@.len() ==> instr_ok(#[trigger] self.program@[k], s@.len()),
        ensures
            r@ == scrambled(self.program@, s@),
    {
        let mut v = chars_of(s);
        let mut k: usize = 0;
        while k < self.program.len()
            invariant
                k <= self.program@.len(),
                forall|q: int| 0 <= q < self.program@.len() ==> instr_ok(#[trigger] self.program@[q], s@.len()),
                v@ == scrambled(self.program@.take(k as int), s@),
                v@.len() == s@.len(),
            decreases self.program@.len() - k,
        {
            proof {
                assert(self.program@.take(k + 1).drop_last() =~= self.program@.take(k as int));
                assert(instr_ok(self.program@[k as int], s@.len()));
            }
            v = apply_op(self.program[k], v);
            proof {
                lemma_apply_len(self.program@[k as int], scrambled(self.program@.take(k as int), s@));
            }
            k = k + 1;
        }
        proof {
            assert(self.program@.take(k as int) =~= self.program@);
        }
        string_from_chars(&v)
    }
}

/// The scrambler listed in `input`.
pub fn generate(input: &str) -> (r: Scrambler)
    requires
        forall|k: int| 0 <= k < lines(input@).len() ==> (#[trigger] instr_spec(lines(input@)[k])) is Ok,
    ensures
        r.program@.len() == lines(input@).len(),
        forall|k: int| 0 <= k < r.program@.len() ==> instr_spec(lines(input@)[k]) == Ok::<Instr, (bool, Seq<char>)>(#[trigger] r.program@[k]),
{
    Scrambler::new(input)
}

/// `abcdefgh` scrambled.
pub fn solve(scrambler: &Scrambler) -> (r: String)
    requires
        forall|k: int| 0 <= k < scrambler.program@.len() ==> instr_ok(#[trigger] scrambler.program@[k], 8),
    ensures
        r@ == scrambled(scrambler.program@, "abcdefgh"@),
{
    proof {
        reveal_strlit("abcdefgh");
    }
    scrambler.scramble("abcdefgh")
}

} // verus!
