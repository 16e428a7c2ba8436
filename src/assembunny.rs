use vstd::prelude::*;

verus! {

/// Largest number of instructions a program may hold: addresses are 32-bit signed.
pub const MAX_PROGRAM_LEN: usize = 0x7fff_ffff;

/// An operand: an integer literal or the name of a register.
#[derive(Clone, Copy, PartialEq, Eq, Structural, Debug)]
pub enum Value {
    Literal(i32),
    Register(char),
}

/// One instruction of the machine. Every operand may be a literal or a register,
/// because toggling can turn a destination into a jump offset and back.
#[derive(Clone, Copy, PartialEq, Eq, Structural, Debug)]
pub enum Instruction {
    Cpy(Value, Value),
    Inc(Value),
    Dec(Value),
    Jnz(Value, Value),
    Tgl(Value),
    Out(Value),
}

/// The four register names.
pub open spec fn is_register(c: char) -> bool {
    c == 'a' || c == 'b' || c == 'c' || c == 'd'
}

/// An operand that names no register outside `a`..`d`.
pub open spec fn value_wf(v: Value) -> bool {
    match v {
        Value::Literal(_) => true,
        Value::Register(c) => is_register(c),
    }
}

pub open spec fn instruction_wf(i: Instruction) -> bool {
    match i {
        Instruction::Cpy(x, y) => value_wf(x) && value_wf(y),
        Instruction::Inc(x) => value_wf(x),
        Instruction::Dec(x) => value_wf(x),
        Instruction::Jnz(x, y) => value_wf(x) && value_wf(y),
        Instruction::Tgl(x) => value_wf(x),
        Instruction::Out(x) => value_wf(x),
    }
}

/// A program the machine can load: registers are all known and every
/// address fits the machine's signed 32-bit address space.
pub open spec fn program_wf(p: Seq<Instruction>) -> bool {
    &&& p.len() <= MAX_PROGRAM_LEN
    &&& forall|k: int| 0 <= k < p.len() ==> #[trigger] instruction_wf(p[k])
}

/// What toggling does to an instruction: the opcode changes, the operands stay.
pub open spec fn toggled(i: Instruction) -> Instruction {
    match i {
        Instruction::Inc(x) => Instruction::Dec(x),
        Instruction::Dec(x) => Instruction::Inc(x),
        Instruction::Tgl(x) => Instruction::Inc(x),
        Instruction::Out(x) => Instruction::Inc(x),
        Instruction::Jnz(x, y) => Instruction::Cpy(x, y),
        Instruction::Cpy(x, y) => Instruction::Jnz(x, y),
    }
}

/// The abstract state of a machine.
pub struct CpuState {
    pub a: i32,
    pub b: i32,
    pub c: i32,
    pub d: i32,
    pub pc: int,
    pub program: Seq<Instruction>,
    pub output: Option<i32>,
}

/// A fresh machine: all registers zero, at the first instruction, nothing emitted.
pub open spec fn initial(program: Seq<Instruction>) -> CpuState {
    CpuState { a: 0, b: 0, c: 0, d: 0, pc: 0, program, output: None }
}

pub open spec fn reg(s: CpuState, r: char) -> i32 {
    if r == 'a' {
        s.a
    } else if r == 'b' {
        s.b
    } else if r == 'c' {
        s.c
    } else {
        s.d
    }
}

pub open spec fn with_reg(s: CpuState, r: char, v: i32) -> CpuState {
    if r == 'a' {
        CpuState { a: v, ..s }
    } else if r == 'b' {
        CpuState { b: v, ..s }
    } else if r == 'c' {
        CpuState { c: v, ..s }
    } else if r == 'd' {
        CpuState { d: v, ..s }
    } else {
        s
    }
}

pub open spec fn eval(s: CpuState, v: Value) -> i32 {
    match v {
        Value::Literal(n) => n,
        Value::Register(r) => reg(s, r),
    }
}

/// The machine has stopped: its counter lies outside the program.
pub open spec fn halted(s: CpuState) -> bool {
    s.pc < 0 || s.pc >= s.program.len()
}

pub open spec fn advance(s: CpuState) -> CpuState {
    CpuState { pc: s.pc + 1, ..s }
}

/// One tick: executes the instruction at the counter. A halted machine stays as it is.
pub open spec fn step(s: CpuState) -> CpuState {
    if halted(s) {
        s
    } else {
        match s.program[s.pc] {
            Instruction::Cpy(src, Value::Register(r)) => advance(with_reg(s, r, eval(s, src))),
            Instruction::Cpy(_, Value::Literal(_)) => advance(s),
            Instruction::Inc(Value::Register(r)) => advance(with_reg(s, r, reg(s, r).wrapping_add(1))),
            Instruction::Inc(Value::Literal(_)) => advance(s),
            Instruction::Dec(Value::Register(r)) => advance(with_reg(s, r, reg(s, r).wrapping_sub(1))),
            Instruction::Dec(Value::Literal(_)) => advance(s),
            Instruction::Jnz(test, offset) => {
                if eval(s, test) != 0 {
                    CpuState { pc: s.pc + eval(s, offset), ..s }
                } else {
                    advance(s)
                }
            },
            Instruction::Tgl(Value::Register(r)) => {
                let addr = s.pc + reg(s, r);
                if 0 <= addr < s.program.len() {
                    advance(CpuState { program: s.program.update(addr, toggled(s.program[addr])), ..s })
                } else {
                    advance(s)
                }
            },
            Instruction::Tgl(Value::Literal(_)) => advance(s),
            Instruction::Out(src) => advance(CpuState { output: Some(eval(s, src)), ..s }),
        }
    }
}

/// Ticks until the machine halts or `fuel` ticks have run.
pub open spec fn run_for(s: CpuState, fuel: nat) -> CpuState
    decreases fuel,
{
    if halted(s) || fuel == 0 {
        s
    } else {
        run_for(step(s), (fuel - 1) as nat)
    }
}

/// Ticks until the machine halts, an `out` has fired, or `fuel` ticks have run.
pub open spec fn run_to_output_for(s: CpuState, fuel: nat) -> CpuState
    decreases fuel,
{
    if halted(s) || fuel == 0 {
        s
    } else if s.program[s.pc] is Out {
        step(s)
    } else {
        run_to_output_for(step(s), (fuel - 1) as nat)
    }
}

/// The number of ticks the run loops allow themselves: far beyond any real run.
pub open spec fn tick_budget() -> nat {
    u64::MAX as nat
}

/// Running to the end.
pub open spec fn run_spec(s: CpuState) -> CpuState {
    run_for(s, tick_budget())
}

/// One pull of the output stream: clear the output slot, then tick to the next `out`.
pub open spec fn pull(s: CpuState) -> CpuState {
    run_to_output_for(CpuState { output: None, ..s }, tick_budget())
}

/// The register file, a program counter and the (self-modifying) program.
pub struct Cpu {
    a: i32,
    b: i32,
    c: i32,
    d: i32,
    pc: i64,
    program: Vec<Instruction>,
    output: Option<i32>,
}

impl View for Cpu {
    type V = CpuState;

    closed spec fn view(&self) -> CpuState {
        CpuState {
            a: self.a,
            b: self.b,
            c: self.c,
            d: self.d,
            pc: self.pc as int,
            program: self.program@,
            output: self.output,
        }
    }
}

/// The states a machine can be in while its program obeys `program_wf`.
pub open spec fn state_wf(s: CpuState) -> bool {
    &&& program_wf(s.program)
    &&& i32::MIN <= s.pc <= 2 * (i32::MAX as int) + 1
}

impl Cpu {
    pub closed spec fn wf(&self) -> bool {
        state_wf(self@)
    }

    /// A machine loaded with `program`, all registers zero.
    pub fn new(program: Vec<Instruction>) -> (r: Cpu)
        requires
            program_wf(program@),
        ensures
            r@ == initial(program@),
            r.wf(),
    {
        Cpu { a: 0, b: 0, c: 0, d: 0, pc: 0, program, output: None }
    }

    /// The value held in register `src`.
    pub fn get(&self, src: char) -> (r: i32)
        requires
            is_register(src),
        ensures
            r == reg(self@, src),
    {
        match src {
            'a' => self.a,
            'b' => self.b,
            'c' => self.c,
            _ => self.d,
        }
    }

    /// Overwrites register `dest`.
    pub fn set(&mut self, dest: char, value: i32)
        requires
            is_register(dest),
            old(self).wf(),
        ensures
            final(self)@ == with_reg(old(self)@, dest, value),
            final(self).wf(),
    {
        match dest {
            'a' => self.a = value,
            'b' => self.b = value,
            'c' => self.c = value,
            _ => self.d = value,
        }
    }

    fn eval(&self, value: Value) -> (r: i32)
        requires
            value_wf(value),
        ensures
            r == eval(self@, value),
    {
        match value {
            Value::Register(c) => self.get(c),
            Value::Literal(v) => v,
        }
    }

    /// True when the counter lies outside the program.
    pub fn halted(&self) -> (r: bool)
        requires
            self.wf(),
        ensures
            r == halted(self@),
    {
        self.pc < 0 || self.pc >= self.program.len() as i64
    }

    fn tick(&mut self)
        requires
            old(self).wf(),
            !halted(old(self)@),
        ensures
            final(self).wf(),
            final(self)@ == step(old(self)@),
    {
        let pc = self.pc as usize;
        proof {
            assert(instruction_wf(self.program@[pc as int]));
        }
        let mut next: i64 = 1;
        match self.program[pc] {
            Instruction::Cpy(src, Value::Register(dest)) => {
                let v = self.eval(src);
                self.set(dest, v);
            },
            Instruction::Cpy(_, Value::Literal(_)) => {},
            Instruction::Inc(Value::Register(dest)) => {
                let v = self.get(dest).wrapping_add(1);
                self.set(dest, v);
            },
            Instruction::Inc(Value::Literal(_)) => {},
            Instruction::Dec(Value::Register(dest)) => {
                let v = self.get(dest).wrapping_sub(1);
                self.set(dest, v);
            },
            Instruction::Dec(Value::Literal(_)) => {},
            Instruction::Jnz(test, jump) => {
                if self.eval(test) != 0 {
                    next = self.eval(jump) as i64;
                }
            },
            Instruction::Tgl(Value::Register(dest)) => {
                let addr = self.pc + self.get(dest) as i64;
                if addr >= 0 && addr < self.program.len() as i64 {
                    let t = toggle(self.program[addr as usize]);
                    self.program.set(addr as usize, t);
                    proof {
                        assert forall|k: int| 0 <= k < self.program@.len() implies #[trigger] instruction_wf(
                            self.program@[k],
                        ) by {
                            assert(instruction_wf(old(self).program@[k]));
                            assert(instruction_wf(old(self).program@[addr as int]));
                        }
                    }
                }
            },
            Instruction::Tgl(Value::Literal(_)) => {},
            Instruction::Out(src) => {
                let v = self.eval(src);
                self.output = Some(v);
            },
        }
        self.pc = self.pc + next;
    }

    /// Ticks until the machine halts. Gives up after `u64::MAX` ticks, a bound
    /// no real run comes near, since a program may loop forever.
    pub fn run(&mut self)
        requires
            old(self).wf(),
        ensures
            final(self).wf(),
            final(self)@ == run_spec(old(self)@),
    {
        let mut fuel: u64 = u64::MAX;
        while fuel > 0 && !self.halted()
            invariant
                self.wf(),
                run_for(self@, fuel as nat) == run_spec(old(self)@),
            decreases fuel,
        {
            self.tick();
            fuel = fuel - 1;
        }
    }

    /// Clears the output slot and ticks until an `out` fires or the machine
    /// halts; returns what was emitted, or `None` if the machine halted first.
    pub fn run_till_output(&mut self) -> (r: Option<i32>)
        requires
            old(self).wf(),
        ensures
            final(self).wf(),
            final(self)@ == pull(old(self)@),
            r == final(self)@.output,
    {
        self.output = None;
        let ghost start = self@;
        let mut fuel: u64 = u64::MAX;
        while fuel > 0 && !self.halted() && self.output.is_none()
            invariant
                self.wf(),
                self.output is None ==> run_to_output_for(self@, fuel as nat) == run_to_output_for(start, tick_budget()),
                self.output is Some ==> self@ == run_to_output_for(start, tick_budget()),
            decreases fuel,
        {
            self.tick();
            fuel = fuel - 1;
        }
        self.output
    }

    /// The stream of emitted values; each pull runs to the next `out`.
    pub fn iter(self) -> (r: CpuIter)
        requires
            self.wf(),
        ensures
            r.cpu@ == self@,
            r.wf(),
    {
        CpuIter { cpu: self }
    }
}

/// What toggling does to an instruction.
pub fn toggle(i: Instruction) -> (r: Instruction)
    ensures
        r == toggled(i),
{
    match i {
        Instruction::Inc(a) => Instruction::Dec(a),
        Instruction::Dec(a) => Instruction::Inc(a),
        Instruction::Tgl(a) => Instruction::Inc(a),
        Instruction::Out(a) => Instruction::Inc(a),
        Instruction::Jnz(a, b) => Instruction::Cpy(a, b),
        Instruction::Cpy(a, b) => Instruction::Jnz(a, b),
    }
}

/// A machine seen as the stream of values it emits.
pub struct CpuIter {
    pub cpu: Cpu,
}

impl CpuIter {
    pub open spec fn wf(&self) -> bool {
        self.cpu.wf()
    }

    /// The next emitted value, or `None` once the machine has halted.
    pub fn next(&mut self) -> (r: Option<i32>)
        requires
            old(self).wf(),
        ensures
            final(self).wf(),
            final(self).cpu@ == pull(old(self).cpu@),
            r == final(self).cpu@.output,
    {
        self.cpu.run_till_output()
    }
}

} // verus!
