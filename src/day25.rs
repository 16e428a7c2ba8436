use vstd::prelude::*;
use crate::assembunny::{Cpu, CpuState, Instruction, initial, program_wf, pull, with_reg};

verus! {

/// The number of values the clock signal is checked over.
pub const SIGNAL_LEN: usize = 1000;

/// The values emitted by the first `n` pulls from `s`, up to the first pull
/// that emits nothing.
pub open spec fn emitted(s: CpuState, n: nat) -> Seq<i32>
    decreases n,
{
    if n == 0 {
        seq![]
    } else {
        let t = pull(s);
        match t.output {
            Some(v) => seq![v] + emitted(t, (n - 1) as nat),
            None => seq![],
        }
    }
}

/// No two neighbouring values are equal.
pub open spec fn no_repeats(v: Seq<i32>) -> bool {
    forall|k: int| 0 <= k < v.len() - 1 ==> #[trigger] v[k] != v[k + 1]
}

/// Starting with `a` in register `a`, the first values emitted never repeat
/// a neighbour.
pub open spec fn clock_ok(p: Seq<Instruction>, a: i32) -> bool {
    no_repeats(emitted(with_reg(initial(p), 'a', a), SIGNAL_LEN as nat))
}

fn signal_alternates(program: &[Instruction], a: i32) -> (r: bool)
    requires
        program_wf(program@),
    ensures
        r == clock_ok(program@, a),
{
    let mut cpu = Cpu::new(vstd::slice::slice_to_vec(program));
    cpu.set('a', a);
    let ghost s0 = cpu@;
    let ghost mut got: Seq<i32> = seq![];
    let mut prev: Option<i32> = None;
    let mut k: usize = 0;
    while k < SIGNAL_LEN
        invariant
            cpu.wf(),
            k <= SIGNAL_LEN,
            s0 == with_reg(initial(program@), 'a', a),
            emitted(s0, SIGNAL_LEN as nat) == got + emitted(cpu@, (SIGNAL_LEN - k) as nat),
            no_repeats(got),
            got.len() == k,
            prev == (if k == 0 { None } else { Some(got.last()) }),
        decreases SIGNAL_LEN - k,
    {
        let ghost before = cpu@;
        let out = cpu.run_till_output();
        proof {
            assert(emitted(before, (SIGNAL_LEN - k) as nat) == match pull(before).output {
                Some(v) => seq![v] + emitted(pull(before), (SIGNAL_LEN - k - 1) as nat),
                None => Seq::<i32>::empty(),
            });
        }
        match out {
            None => {
                proof {
                    assert(got + Seq::<i32>::empty() =~= got);
                }
                return true;
            },
            Some(v) => {
                let ghost rest = emitted(cpu@, (SIGNAL_LEN - k - 1) as nat);
                proof {
                    assert(got + (seq![v] + rest) =~= got.push(v) + rest);
                }
                if prev == Some(v) {
                    proof {
                        let e = emitted(s0, SIGNAL_LEN as nat);
                        assert(e[k - 1] == got[k - 1]);
                        assert(e[k as int] == v);
                        assert(e[k - 1] == e[(k - 1) + 1]);
                    }
                    return false;
                }
                proof {
                    got = got.push(v);
                    assert forall|j: int| 0 <= j < got.len() - 1 implies #[trigger] got[j] != got[j + 1] by {
                        if j < got.len() - 2 {
                            assert(got[j] == got.drop_last()[j]);
                            assert(got[j + 1] == got.drop_last()[j + 1]);
                        }
                    }
                }
                prev = Some(v);
            },
        }
        k = k + 1;
    }
    proof {
        assert(got + Seq::<i32>::empty() =~= got);
    }
    true
}

/// The lowest non-negative value of register `a` that makes `program` emit a
/// clock signal (no value equal to the one before it, over the first
/// values), or `None` if no `i32` does.
pub fn solve(program: &[Instruction]) -> (r: Option<i32>)
    requires
        program_wf(program@),
    ensures
        match r {
            Some(a) => 0 <= a && clock_ok(program@, a) && forall|b: i32| 0 <= b < a ==> !clock_ok(program@, b),
            None => forall|b: i32| 0 <= b ==> !clock_ok(program@, b),
        },
{
    let mut a: i32 = 0;
    loop
        invariant
            program_wf(program@),
            0 <= a,
            forall|b: i32| 0 <= b < a ==> !clock_ok(program@, b),
        decreases i32::MAX - a,
    {
        if signal_alternates(program, a) {
            return Some(a);
        }
        if a == i32::MAX {
            return None;
        }
        a = a + 1;
    }
}

} // verus!
