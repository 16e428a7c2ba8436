use vstd::prelude::*;
use crate::assembunny::{Instruction, Value, is_register, instruction_wf, value_wf};
use crate::text::{chars_of, line_spans, lines, word_spans, words};

verus! {

/// Why a value token was refused.
#[derive(Clone, PartialEq, Eq, Debug)]
pub enum ValueParseError {
    /// The token reads as a number but is no valid `i32`.
    Number(String),
    /// The token names no register `a`..`d`.
    Register(String),
}

/// Why a line was refused.
#[derive(Clone, PartialEq, Eq, Debug)]
pub enum InstructionParseError {
    /// No known keyword, or too few operands; carries the whole line.
    Unknown(String),
    /// An operand was refused.
    Value(ValueParseError),
}

/// The outcome of reading a token or a line, with text as character sequences.
pub enum Fault {
    Unknown,
    Number(Seq<char>),
    Register(Seq<char>),
}

pub open spec fn is_digit(c: char) -> bool {
    '0' <= c <= '9'
}

pub open spec fn digit_value(c: char) -> int {
    (c as u32) as int - ('0' as u32) as int
}

pub open spec fn all_digits(t: Seq<char>) -> bool {
    t.len() > 0 && forall|k: int| 0 <= k < t.len() ==> #[trigger] is_digit(t[k])
}

/// The number written by the decimal digits `t`.
pub open spec fn decimal(t: Seq<char>) -> int
    decreases t.len(),
{
    if t.len() == 0 {
        0
    } else {
        decimal(t.drop_last()) * 10 + digit_value(t.last())
    }
}

/// The integer written by `t`: optional sign, then one or more decimal digits.
pub open spec fn integer_of(t: Seq<char>) -> Option<int> {
    if t.len() > 0 && (t[0] == '-' || t[0] == '+') && all_digits(t.drop_first()) {
        Some(if t[0] == '-' { -decimal(t.drop_first()) } else { decimal(t.drop_first()) })
    } else if all_digits(t) {
        Some(decimal(t))
    } else {
        None
    }
}

/// The `i32` written by `t`, if it is one.
pub open spec fn literal_of(t: Seq<char>) -> Option<i32> {
    match integer_of(t) {
        Some(v) => if i32::MIN <= v <= i32::MAX { Some(v as i32) } else { None },
        None => None,
    }
}

/// A token that starts like a number, and so must be one.
pub open spec fn numeric_looking(t: Seq<char>) -> bool {
    t.len() > 0 && (is_digit(t[0]) || t[0] == '-' || t[0] == '+')
}

/// How a value token reads: an `i32` literal, else a number error if it starts
/// like a number, else a register if it is one letter `a`..`d`.
pub open spec fn value_spec(t: Seq<char>) -> Result<Value, Fault> {
    if literal_of(t) is Some {
        Ok(Value::Literal(literal_of(t)->0))
    } else if numeric_looking(t) {
        Err(Fault::Number(t))
    } else if t.len() == 1 && is_register(t[0]) {
        Ok(Value::Register(t[0]))
    } else {
        Err(Fault::Register(t))
    }
}

/// The number of operands a keyword takes; zero for an unknown keyword.
pub open spec fn arity(k: Seq<char>) -> nat {
    if k == seq!['c', 'p', 'y'] || k == seq!['j', 'n', 'z'] {
        2
    } else if k == seq!['i', 'n', 'c'] || k == seq!['d', 'e', 'c'] || k == seq!['t', 'g', 'l']
        || k == seq!['o', 'u', 't'] {
        1
    } else {
        0
    }
}

pub open spec fn build(k: Seq<char>, x: Value, y: Value) -> Instruction {
    if k == seq!['c', 'p', 'y'] {
        Instruction::Cpy(x, y)
    } else if k == seq!['j', 'n', 'z'] {
        Instruction::Jnz(x, y)
    } else if k == seq!['i', 'n', 'c'] {
        Instruction::Inc(x)
    } else if k == seq!['d', 'e', 'c'] {
        Instruction::Dec(x)
    } else if k == seq!['t', 'g', 'l'] {
        Instruction::Tgl(x)
    } else {
        Instruction::Out(x)
    }
}

/// How a line reads: its first word is the keyword, the next one or two are
/// the operands, and any further words are ignored.
pub open spec fn instruction_spec(line: Seq<char>) -> Result<Instruction, Fault> {
    let w = words(line);
    if w.len() == 0 || arity(w[0]) == 0 || w.len() <= arity(w[0]) {
        Err(Fault::Unknown)
    } else {
        match value_spec(w[1]) {
            Err(f) => Err(f),
            Ok(x) => if arity(w[0]) == 1 {
                Ok(build(w[0], x, x))
            } else {
                match value_spec(w[2]) {
                    Err(f) => Err(f),
                    Ok(y) => Ok(build(w[0], x, y)),
                }
            },
        }
    }
}

/// `r` is what reading the token `t` gives.
pub open spec fn value_reported(r: Result<Value, ValueParseError>, t: Seq<char>) -> bool {
    match r {
        Ok(v) => value_spec(t) == Ok::<Value, Fault>(v),
        Err(ValueParseError::Number(m)) => value_spec(t) == Err::<Value, Fault>(Fault::Number(m@)),
        Err(ValueParseError::Register(m)) => value_spec(t) == Err::<Value, Fault>(
            Fault::Register(m@),
        ),
    }
}

/// `r` is what reading the line `line` gives.
pub open spec fn instruction_reported(
    r: Result<Instruction, InstructionParseError>,
    line: Seq<char>,
) -> bool {
    match r {
        Ok(i) => instruction_spec(line) == Ok::<Instruction, Fault>(i),
        Err(InstructionParseError::Unknown(m)) => instruction_spec(line) == Err::<Instruction, Fault>(
            Fault::Unknown,
        ) && m@ == line,
        Err(InstructionParseError::Value(ValueParseError::Number(m))) => instruction_spec(line)
            == Err::<Instruction, Fault>(Fault::Number(m@)),
        Err(InstructionParseError::Value(ValueParseError::Register(m))) => instruction_spec(line)
            == Err::<Instruction, Fault>(Fault::Register(m@)),
    }
}

/// A value that reads well names a known register.
pub proof fn lemma_value_spec_wf(t: Seq<char>)
    ensures
        value_spec(t) is Ok ==> value_wf(value_spec(t)->Ok_0),
{
}

/// A line that reads well gives a well-formed instruction.
pub proof fn lemma_instruction_spec_wf(line: Seq<char>)
    ensures
        instruction_spec(line) is Ok ==> instruction_wf(instruction_spec(line)->Ok_0),
{
    let w = words(line);
    if w.len() > 1 {
        lemma_value_spec_wf(w[1]);
    }
    if w.len() > 2 {
        lemma_value_spec_wf(w[2]);
    }
}

fn is_digit_char(c: char) -> (r: bool)
    ensures
        r == is_digit(c),
{
    '0' <= c && c <= '9'
}

/// The `i32` written by `t`, if it is one.
pub fn parse_literal(t: &Vec<char>) -> (r: Option<i32>)
    ensures
        r == literal_of(t@),
{
    let n = t.len();
    if n == 0 {
        return None;
    }
    let signed = t[0] == '-' || t[0] == '+';
    let neg = t[0] == '-';
    let start: usize = if signed { 1 } else { 0 };
    if start >= n {
        proof {
            assert(!is_digit(t@[0]));
            assert(t@.drop_first().len() == 0);
        }
        return None;
    }
    let ghost digits = t@.subrange(start as int, n as int);
    let cap: i64 = 0x8000_0001;
    let mut acc: i64 = 0;
    let mut i: usize = start;
    while i < n
        invariant
            start <= i <= n == t@.len(),
            start < n,
            0 <= acc <= cap,
            cap == 0x8000_0001,
            digits == t@.subrange(start as int, n as int),
            signed == (t@[0] == '-' || t@[0] == '+'),
            neg == (t@[0] == '-'),
            start == (if signed { 1int } else { 0int }),
            decimal(t@.subrange(start as int, i as int)) >= 0,
            acc == if decimal(t@.subrange(start as int, i as int)) < cap {
                decimal(t@.subrange(start as int, i as int))
            } else {
                cap as int
            },
            forall|k: int| start <= k < i ==> #[trigger] is_digit(t@[k]),
        decreases n - i,
    {
        let c = t[i];
        if !is_digit_char(c) {
            proof {
                assert(!all_digits(digits)) by {
                    assert(digits[i - start] == c);
                }
                if signed {
                    assert(digits =~= t@.drop_first());
                } else {
                    assert(digits =~= t@);
                    assert(!is_digit(t@[0]) || i > 0);
                }
                assert(!all_digits(t@)) by {
                    assert(t@[i as int] == c);
                }
            }
            return None;
        }
        let d = (c as u32 - '0' as u32) as i64;
        proof {
            assert(t@.subrange(start as int, i + 1).drop_last() =~= t@.subrange(start as int, i as int));
        }
        if acc < cap {
            acc = acc * 10 + d;
            if acc > cap {
                acc = cap;
            }
        }
        i = i + 1;
    }
    proof {
        assert(all_digits(digits));
        if signed {
            assert(digits =~= t@.drop_first());
            assert(!all_digits(t@)) by {
                assert(!is_digit(t@[0]));
            }
        } else {
            assert(digits =~= t@);
        }
    }
    if neg {
        if acc <= 0x8000_0000 {
            Some((-acc) as i32)
        } else {
            None
        }
    } else if acc <= 0x7fff_ffff {
        Some(acc as i32)
    } else {
        None
    }
}

impl Value {
    /// Reads one operand token.
    pub fn parse(s: &str) -> (r: Result<Value, ValueParseError>)
        ensures
            value_reported(r, s@),
    {
        let t = chars_of(s);
        match parse_literal(&t) {
            Some(v) => Ok(Value::Literal(v)),
            None => {
                if t.len() > 0 && (is_digit_char(t[0]) || t[0] == '-' || t[0] == '+') {
                    Err(ValueParseError::Number(s.to_owned()))
                } else if t.len() == 1 && (t[0] == 'a' || t[0] == 'b' || t[0] == 'c' || t[0] == 'd') {
                    Ok(Value::Register(t[0]))
                } else {
                    Err(ValueParseError::Register(s.to_owned()))
                }
            },
        }
    }
}

/// `r` is what loading the program text `text` gives: every line read in
/// order, or the error of the first line that does not read.
pub open spec fn program_reported(
    r: Result<Vec<Instruction>, InstructionParseError>,
    text: Seq<char>,
) -> bool {
    let ls = lines(text);
    match r {
        Ok(p) => p@.len() == ls.len() && forall|k: int|
            0 <= k < ls.len() ==> instruction_spec(#[trigger] ls[k]) == Ok::<Instruction, Fault>(p@[k]),
        Err(e) => exists|k: int|
            0 <= k < ls.len() && (forall|j: int| 0 <= j < k ==> (#[trigger] instruction_spec(ls[j])) is Ok)
                && instruction_reported(Err(e), #[trigger] ls[k]),
    }
}

/// Whether the span `st..en` of `cs` is the three characters `a b c`.
fn span_is(cs: &Vec<char>, st: usize, en: usize, a: char, b: char, c: char) -> (r: bool)
    requires
        st <= en <= cs@.len(),
    ensures
        r == (cs@.subrange(st as int, en as int) == seq![a, b, c]),
{
    let r = en - st == 3 && cs[st] == a && cs[st + 1] == b && cs[st + 2] == c;
    proof {
        let w = cs@.subrange(st as int, en as int);
        if r {
            assert(w =~= seq![a, b, c]);
        } else if w == seq![a, b, c] {
            assert(seq![a, b, c].len() == 3);
            assert(seq![a, b, c][0] == a && seq![a, b, c][1] == b && seq![a, b, c][2] == c);
            assert(w[0] == cs@[st as int] && w[1] == cs@[st + 1] && w[2] == cs@[st + 2]);
        }
    }
    r
}

impl Instruction {
    /// Reads one line of program text.
    pub fn parse(line: &str) -> (r: Result<Instruction, InstructionParseError>)
        ensures
            instruction_reported(r, line@),
    {
        let cs = chars_of(line);
        let w = word_spans(&cs);
        let ghost ws = words(line@);
        if w.len() == 0 {
            return Err(InstructionParseError::Unknown(line.to_owned()));
        }
        let (st, en) = w[0];
        proof {
            assert(ws[0] == cs@.subrange(st as int, en as int));
        }
        let is_cpy = span_is(&cs, st, en, 'c', 'p', 'y');
        let is_jnz = span_is(&cs, st, en, 'j', 'n', 'z');
        let is_inc = span_is(&cs, st, en, 'i', 'n', 'c');
        let is_dec = span_is(&cs, st, en, 'd', 'e', 'c');
        let is_tgl = span_is(&cs, st, en, 't', 'g', 'l');
        let is_out = span_is(&cs, st, en, 'o', 'u', 't');
        let n_operands: usize = if is_cpy || is_jnz {
            2
        } else if is_inc || is_dec || is_tgl || is_out {
            1
        } else {
            0
        };
        proof {
            assert(n_operands == arity(ws[0]));
        }
        if n_operands == 0 || w.len() <= n_operands {
            return Err(InstructionParseError::Unknown(line.to_owned()));
        }
        proof {
            assert(ws[1] == cs@.subrange(w@[1].0 as int, w@[1].1 as int));
        }
        let x = match Value::parse(line.substring_char(w[1].0, w[1].1)) {
            Ok(v) => v,
            Err(e) => {
                return Err(InstructionParseError::Value(e));
            },
        };
        if n_operands == 1 {
            return Ok(
                if is_inc {
                    Instruction::Inc(x)
                } else if is_dec {
                    Instruction::Dec(x)
                } else if is_tgl {
                    Instruction::Tgl(x)
                } else {
                    Instruction::Out(x)
                },
            );
        }
        proof {
            assert(ws[2] == cs@.subrange(w@[2].0 as int, w@[2].1 as int));
        }
        let y = match Value::parse(line.substring_char(w[2].0, w[2].1)) {
            Ok(v) => v,
            Err(e) => {
                return Err(InstructionParseError::Value(e));
            },
        };
        Ok(
            if is_cpy {
                Instruction::Cpy(x, y)
            } else {
                Instruction::Jnz(x, y)
            },
        )
    }
}

/// Reads a whole program, one instruction per line.
pub fn load_program(text: &str) -> (r: Result<Vec<Instruction>, InstructionParseError>)
    ensures
        program_reported(r, text@),
        r is Ok ==> forall|k: int| 0 <= k < r->Ok_0@.len() ==> #[trigger] instruction_wf(r->Ok_0@[k]),
{
    let cs = chars_of(text);
    let spans = line_spans(&cs);
    let ghost ls = lines(text@);
    let mut prog: Vec<Instruction> = Vec::new();
    let mut i: usize = 0;
    while i < spans.len()
        invariant
            ls == lines(text@),
            cs@ == text@,
            spans@.len() == ls.len(),
            forall|k: int| #![trigger spans@[k]] 0 <= k < spans@.len() ==> spans@[k].0 <= spans@[k].1 <= cs@.len(),
            forall|k: int|
                0 <= k < spans@.len() ==> #[trigger] ls[k] == cs@.subrange(
                    spans@[k].0 as int,
                    spans@[k].1 as int,
                ),
            i <= spans@.len(),
            prog@.len() == i,
            forall|k: int| 0 <= k < i ==> instruction_spec(#[trigger] ls[k]) == Ok::<Instruction, Fault>(prog@[k]),
            forall|k: int| 0 <= k < i ==> #[trigger] instruction_wf(prog@[k]),
        decreases spans@.len() - i,
    {
        let (st, en) = spans[i];
        proof {
            assert(ls[i as int] == cs@.subrange(st as int, en as int));
        }
        let line = text.substring_char(st, en);
        match Instruction::parse(line) {
            Ok(ins) => {
                proof {
                    lemma_instruction_spec_wf(ls[i as int]);
                }
                prog.push(ins);
                proof {
                    assert forall|k: int| 0 <= k < i + 1 implies instruction_spec(#[trigger] ls[k])
                        == Ok::<Instruction, Fault>(prog@[k]) by {
                        if k < i {
                            assert(instruction_spec(ls[k]) == Ok::<Instruction, Fault>(prog@[k]));
                        }
                    }
                    assert forall|k: int| 0 <= k < i + 1 implies #[trigger] instruction_wf(prog@[k]) by {
                        if k < i {
                            assert(instruction_wf(prog@[k]));
                        }
                    }
                }
            },
            Err(e) => {
                proof {
                    assert forall|j: int| 0 <= j < i implies (#[trigger] instruction_spec(ls[j])) is Ok by {
                        assert(instruction_spec(ls[j]) == Ok::<Instruction, Fault>(prog@[j]));
                    }
                }
                return Err(e);
            },
        }
        i = i + 1;
    }
    Ok(prog)
}

impl std::str::FromStr for Value {
    type Err = ValueParseError;

    fn from_str(s: &str) -> Result<Value, ValueParseError> {
        Value::parse(s)
    }
}

impl std::str::FromStr for Instruction {
    type Err = InstructionParseError;

    fn from_str(s: &str) -> Result<Instruction, InstructionParseError> {
        Instruction::parse(s)
    }
}

} // verus!
