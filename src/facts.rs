use vstd::prelude::*;
use crate::assembunny::{
    CpuState, Instruction, Value, advance, halted, initial, program_wf, pull, run_for, run_spec,
    run_to_output_for, step, tick_budget, toggled,
};

verus! {

/// Every instruction is `inc a` or `dec a`.
pub open spec fn only_inc_dec_a(p: Seq<Instruction>) -> bool {
    forall|k: int|
        0 <= k < p.len() ==> #[trigger] p[k] == Instruction::Inc(Value::Register('a')) || p[k]
            == Instruction::Dec(Value::Register('a'))
}

/// The number of `inc a` minus the number of `dec a`.
pub open spec fn net_count(p: Seq<Instruction>) -> int
    decreases p.len(),
{
    if p.len() == 0 {
        0
    } else {
        net_count(p.drop_last()) + if p.last() == Instruction::Inc(Value::Register('a')) {
            1int
        } else {
            -1int
        }
    }
}

proof fn lemma_net_count_bound(p: Seq<Instruction>)
    ensures
        -p.len() <= net_count(p) <= p.len(),
    decreases p.len(),
{
    if p.len() > 0 {
        lemma_net_count_bound(p.drop_last());
    }
}

/// A fresh machine on `p` after its first `k` instructions have run.
pub open spec fn counted(p: Seq<Instruction>, k: nat) -> CpuState {
    CpuState { a: net_count(p.take(k as int)) as i32, pc: k as int, ..initial(p) }
}

proof fn lemma_inc_dec_from(p: Seq<Instruction>, k: nat, fuel: nat)
    requires
        only_inc_dec_a(p),
        program_wf(p),
        k <= p.len(),
        fuel >= p.len() - k,
    ensures
        run_for(counted(p, k), fuel) == counted(p, p.len()),
    decreases p.len() - k,
{
    let s = counted(p, k);
    if k == p.len() {
        assert(p.take(k as int) =~= p);
    } else {
        lemma_net_count_bound(p.take(k as int));
        lemma_net_count_bound(p.take(k + 1int));
        assert(p.take(k + 1int).drop_last() =~= p.take(k as int));
        assert(p.take(k + 1int).last() == p[k as int]);
        let t = counted(p, (k + 1) as nat);
        assert(p[k as int] == Instruction::Inc(Value::Register('a')) || p[k as int]
            == Instruction::Dec(Value::Register('a')));
        assert(step(s) == t);
        lemma_inc_dec_from(p, (k + 1) as nat, (fuel - 1) as nat);
    }
}

/// A program made only of `inc a` and `dec a` lines, run to the end on a fresh
/// machine, halts with `a` equal to the number of `inc a` minus the number of
/// `dec a`, and the other registers untouched.
pub proof fn lemma_inc_dec_net_count(p: Seq<Instruction>)
    requires
        only_inc_dec_a(p),
        program_wf(p),
    ensures
        halted(run_spec(initial(p))),
        run_spec(initial(p)).a == net_count(p),
        run_spec(initial(p)).b == 0,
        run_spec(initial(p)).c == 0,
        run_spec(initial(p)).d == 0,
{
    assert(p.take(0) =~= Seq::<Instruction>::empty());
    assert(counted(p, 0) == initial(p));
    lemma_inc_dec_from(p, 0, tick_budget());
    assert(p.take(p.len() as int) =~= p);
    lemma_net_count_bound(p);
}

/// `jnz` whose test is the literal zero never jumps, whatever its offset:
/// the tick only moves on to the next instruction.
pub proof fn lemma_jnz_zero_falls_through(s: CpuState, offset: Value)
    requires
        !halted(s),
        s.program[s.pc] == Instruction::Jnz(Value::Literal(0), offset),
    ensures
        step(s) == advance(s),
{
}

/// The operands of an instruction, in order.
pub open spec fn operands(i: Instruction) -> Seq<Value> {
    match i {
        Instruction::Cpy(x, y) => seq![x, y],
        Instruction::Inc(x) => seq![x],
        Instruction::Dec(x) => seq![x],
        Instruction::Jnz(x, y) => seq![x, y],
        Instruction::Tgl(x) => seq![x],
        Instruction::Out(x) => seq![x],
    }
}

/// Toggling keeps the operands. Toggling twice gives back the instruction
/// exactly when it is not `tgl` or `out`: those two become `inc`, which
/// toggles on to `dec`.
pub proof fn lemma_toggle_twice(i: Instruction)
    ensures
        operands(toggled(i)) == operands(i),
        (toggled(toggled(i)) == i) <==> !(i is Tgl || i is Out),
        i is Tgl || i is Out ==> toggled(i) == Instruction::Inc(operands(i)[0]) && toggled(toggled(i))
            == Instruction::Dec(operands(i)[0]),
{
}

/// No instruction that jumps or rewrites the program.
pub open spec fn straight_line(p: Seq<Instruction>) -> bool {
    forall|k: int| 0 <= k < p.len() ==> !(#[trigger] p[k] is Jnz || p[k] is Tgl)
}

/// The number of `out` instructions at index `i` and after.
pub open spec fn outs_from(p: Seq<Instruction>, i: int) -> nat
    decreases p.len() - i,
{
    if i < 0 || i >= p.len() {
        0
    } else {
        (if p[i] is Out { 1nat } else { 0nat }) + outs_from(p, i + 1)
    }
}

/// `n` pulls of the output stream.
pub open spec fn pulls(s: CpuState, n: nat) -> CpuState
    decreases n,
{
    if n == 0 {
        s
    } else {
        pull(pulls(s, (n - 1) as nat))
    }
}

proof fn lemma_run_to_next_out(s: CpuState, fuel: nat)
    requires
        straight_line(s.program),
        0 <= s.pc <= s.program.len(),
        s.output is None,
        fuel >= s.program.len() - s.pc,
    ensures
        ({
            let t = run_to_output_for(s, fuel);
            &&& t.program == s.program
            &&& 0 <= t.pc <= s.program.len()
            &&& outs_from(s.program, s.pc) > 0 ==> t.output is Some && outs_from(s.program, t.pc)
                == outs_from(s.program, s.pc) - 1
            &&& outs_from(s.program, s.pc) == 0 ==> t.output is None && t.pc == s.program.len()
        }),
    decreases s.program.len() - s.pc,
{
    let p = s.program;
    if s.pc < p.len() {
        assert(!(p[s.pc] is Jnz || p[s.pc] is Tgl));
        if !(p[s.pc] is Out) {
            lemma_run_to_next_out(step(s), (fuel - 1) as nat);
        }
    }
}

/// A program with no jump and no toggle, holding `K` `out` instructions, gives
/// `K` values on the first `K` pulls of a fresh machine, and nothing on the
/// next.
pub proof fn lemma_outputs_then_nothing(p: Seq<Instruction>)
    requires
        program_wf(p),
        straight_line(p),
    ensures
        forall|n: nat| n < outs_from(p, 0) ==> (#[trigger] pulls(initial(p), n + 1)).output is Some,
        pulls(initial(p), outs_from(p, 0) + 1).output is None,
{
    assert forall|n: nat| n <= outs_from(p, 0) implies {
        let s = #[trigger] pulls(initial(p), n);
        &&& s.program == p
        &&& 0 <= s.pc <= p.len()
        &&& outs_from(p, s.pc) == outs_from(p, 0) - n
        &&& n > 0 ==> s.output is Some
    } by {
        lemma_pulls_count(p, n);
    }
    assert forall|n: nat| n < outs_from(p, 0) implies (#[trigger] pulls(initial(p), n + 1)).output is Some by {
        lemma_pulls_count(p, n + 1);
    }
    let k = outs_from(p, 0);
    lemma_pulls_count(p, k);
    let s = pulls(initial(p), k);
    lemma_run_to_next_out(CpuState { output: None, ..s }, tick_budget());
}

proof fn lemma_pulls_count(p: Seq<Instruction>, n: nat)
    requires
        program_wf(p),
        straight_line(p),
        n <= outs_from(p, 0),
    ensures
        ({
            let s = pulls(initial(p), n);
            &&& s.program == p
            &&& 0 <= s.pc <= p.len()
            &&& outs_from(p, s.pc) == outs_from(p, 0) - n
            &&& n > 0 ==> s.output is Some
        }),
    decreases n,
{
    if n > 0 {
        lemma_pulls_count(p, (n - 1) as nat);
        let s = pulls(initial(p), (n - 1) as nat);
        lemma_run_to_next_out(CpuState { output: None, ..s }, tick_budget());
    }
}

} // verus!
