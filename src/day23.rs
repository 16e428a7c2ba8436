use vstd::prelude::*;
use crate::assembunny::{Cpu, Instruction, initial, program_wf, run_spec, with_reg};

verus! {

/// Register `a` after running `program` with `a` first set to seven.
pub fn solve(program: &[Instruction]) -> (r: i32)
    requires
        program_wf(program@),
    ensures
        r == run_spec(with_reg(initial(program@), 'a', 7)).a,
{
    let mut cpu = Cpu::new(vstd::slice::slice_to_vec(program));
    cpu.set('a', 7);
    cpu.run();
    cpu.get('a')
}

/// Register `a` after running `program` with `a` first set to twelve.
pub fn solve2(program: &[Instruction]) -> (r: i32)
    requires
        program_wf(program@),
    ensures
        r == run_spec(with_reg(initial(program@), 'a', 12)).a,
{
    let mut cpu = Cpu::new(vstd::slice::slice_to_vec(program));
    cpu.set('a', 12);
    cpu.run();
    cpu.get('a')
}

} // verus!
