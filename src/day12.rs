use vstd::prelude::*;
use crate::assembunny::{Cpu, Instruction, initial, program_wf, run_spec, with_reg};
use crate::loader::{instruction_spec, load_program};
use crate::text::lines;

verus! {

/// Every line of `input` reads as an instruction, and there are not too many.
pub open spec fn valid_program_text(input: Seq<char>) -> bool {
    &&& forall|k: int| 0 <= k < lines(input).len() ==> (#[trigger] instruction_spec(lines(input)[k])) is Ok
    &&& lines(input).len() <= crate::assembunny::MAX_PROGRAM_LEN
}

/// The program written in `input`.
pub fn generate(input: &str) -> (r: Vec<Instruction>)
    requires
        valid_program_text(input@),
    ensures
        program_wf(r@),
        r@.len() == lines(input@).len(),
        forall|k: int| 0 <= k < r@.len() ==> instruction_spec(lines(input@)[k]) == Ok::<Instruction, crate::loader::Fault>(#[trigger] r@[k]),
{
    match load_program(input) {
        Ok(p) => p,
        Err(e) => {
            proof {
                let k = choose|k: int|
                    0 <= k < lines(input@).len() && (forall|j: int| 0 <= j < k ==> (#[trigger] instruction_spec(lines(input@)[j])) is Ok)
                        && crate::loader::instruction_reported(Err(e), #[trigger] lines(input@)[k]);
                assert(instruction_spec(lines(input@)[k]) is Ok);
            }
            Vec::new()
        },
    }
}

/// Register `a` after running `program` on a fresh machine.
pub fn solve(program: &[Instruction]) -> (r: i32)
    requires
        program_wf(program@),
    ensures
        r == run_spec(initial(program@)).a,
{
    let mut cpu = Cpu::new(vstd::slice::slice_to_vec(program));
    cpu.run();
    cpu.get('a')
}

/// Register `a` after running `program` with `c` set to one.
pub fn solve2(program: &[Instruction]) -> (r: i32)
    requires
        program_wf(program@),
    ensures
        r == run_spec(with_reg(initial(program@), 'c', 1)).a,
{
    let mut cpu = Cpu::new(vstd::slice::slice_to_vec(program));
    cpu.set('c', 1);
    cpu.run();
    cpu.get('a')
}

} // verus!
