use aoc2016::assembunny::{toggle, Cpu, Instruction, Value};
use aoc2016::day12;
use aoc2016::loader::{load_program, InstructionParseError, ValueParseError};

fn run_a(text: &str) -> i32 {
    let mut cpu = Cpu::new(load_program(text).unwrap());
    cpu.run();
    cpu.get('a')
}

#[test]
fn day12_test_solve() {
    let example = "cpy 41 a\ninc a\ninc a\ndec a\njnz a 2\ndec a\n";
    assert_eq!(day12::solve(&day12::generate(example)), 42);
}

#[test]
fn day12_solve2_sets_c() {
    let program = day12::generate("cpy c a\ninc a");
    assert_eq!(day12::solve(&program), 1);
    assert_eq!(day12::solve2(&program), 2);
}

#[test]
fn inc_dec_only_gives_net_count() {
    assert_eq!(run_a("inc a\ninc a\ndec a\ninc a\ninc a"), 3);
    assert_eq!(run_a("dec a\ndec a\ninc a"), -1);
    assert_eq!(run_a(""), 0);
}

#[test]
fn jnz_zero_never_jumps() {
    assert_eq!(run_a("jnz 0 5\ninc a"), 1);
    assert_eq!(run_a("jnz 0 -1\ninc a\njnz 0 0\ninc a"), 2);
}

#[test]
fn toggle_twice() {
    let a = Value::Register('a');
    let two = Value::Literal(2);
    assert_eq!(toggle(toggle(Instruction::Inc(a))), Instruction::Inc(a));
    assert_eq!(toggle(Instruction::Inc(a)), Instruction::Dec(a));
    assert_eq!(toggle(toggle(Instruction::Dec(a))), Instruction::Dec(a));
    assert_eq!(toggle(Instruction::Cpy(two, a)), Instruction::Jnz(two, a));
    assert_eq!(toggle(toggle(Instruction::Jnz(two, a))), Instruction::Jnz(two, a));
    assert_eq!(toggle(Instruction::Tgl(a)), Instruction::Inc(a));
    assert_eq!(toggle(toggle(Instruction::Tgl(a))), Instruction::Dec(a));
    assert_eq!(toggle(Instruction::Out(two)), Instruction::Inc(two));
    assert_eq!(toggle(toggle(Instruction::Out(two))), Instruction::Dec(two));
}

#[test]
fn outputs_then_nothing() {
    let mut cpu = Cpu::new(load_program("out 1\ninc a\nout a\ncpy 5 b\nout b").unwrap());
    assert_eq!(cpu.run_till_output(), Some(1));
    assert_eq!(cpu.run_till_output(), Some(1));
    assert_eq!(cpu.run_till_output(), Some(5));
    assert_eq!(cpu.run_till_output(), None);
    assert!(cpu.halted());
}

#[test]
fn iter_pulls_values() {
    let cpu = Cpu::new(load_program("out 3\nout 4").unwrap());
    let mut it = cpu.iter();
    assert_eq!(it.next(), Some(3));
    assert_eq!(it.next(), Some(4));
    assert_eq!(it.next(), None);
}

#[test]
fn self_modification_changes_result_by_two() {
    assert_eq!(run_a("cpy 1 a\ntgl a\ninc a\ninc a"), 1);
    assert_eq!(run_a("cpy 1 a\ntgl 5\ninc a\ninc a"), 3);
}

#[test]
fn toggle_out_of_range_is_noop() {
    assert_eq!(run_a("cpy 2 a\ntgl a\ninc a"), 3);
}

#[test]
fn toggled_copy_becomes_jump() {
    // the tgl at 1 toggles the copy at 2 into `jnz 1 2`, which skips one inc.
    assert_eq!(run_a("cpy 1 b\ntgl b\ncpy 1 2\ninc a\ninc a"), 1);
}

#[test]
fn literal_destination_is_noop() {
    assert_eq!(run_a("cpy 3 a\ncpy 7 2\ninc 4\ndec 1"), 3);
}

#[test]
fn parse_then_run_gives_42() {
    assert_eq!(run_a("cpy 41 a\njnz 0 0\ninc a"), 42);
}

#[test]
fn unknown_instruction_carries_line() {
    assert_eq!(
        Instruction::parse("foo bar"),
        Err(InstructionParseError::Unknown(String::from("foo bar")))
    );
    assert_eq!(
        load_program("inc a\nfoo bar\n"),
        Err(InstructionParseError::Unknown(String::from("foo bar")))
    );
    assert_eq!(
        Instruction::parse("cpy 1"),
        Err(InstructionParseError::Unknown(String::from("cpy 1")))
    );
    assert_eq!(Instruction::parse(""), Err(InstructionParseError::Unknown(String::new())));
}

#[test]
fn bad_operands() {
    assert_eq!(
        Instruction::parse("cpy 99999999999 a"),
        Err(InstructionParseError::Value(ValueParseError::Number(String::from("99999999999"))))
    );
    assert_eq!(
        Instruction::parse("jnz 1x 2"),
        Err(InstructionParseError::Value(ValueParseError::Number(String::from("1x"))))
    );
    assert_eq!(
        Instruction::parse("inc z"),
        Err(InstructionParseError::Value(ValueParseError::Register(String::from("z"))))
    );
}

#[test]
fn parse_values() {
    assert_eq!(Value::parse("-2147483648"), Ok(Value::Literal(i32::MIN)));
    assert_eq!(Value::parse("+12"), Ok(Value::Literal(12)));
    assert_eq!(Value::parse("d"), Ok(Value::Register('d')));
    assert_eq!(
        Value::parse("2147483648"),
        Err(ValueParseError::Number(String::from("2147483648")))
    );
    assert_eq!(Value::parse("-"), Err(ValueParseError::Number(String::from("-"))));
    assert_eq!(
        Instruction::parse("  jnz   c  -2 extra\r"),
        Ok(Instruction::Jnz(Value::Register('c'), Value::Literal(-2)))
    );
}

#[test]
fn load_handles_crlf() {
    assert_eq!(
        load_program("inc a\r\ndec b\r\n"),
        Ok(vec![
            Instruction::Inc(Value::Register('a')),
            Instruction::Dec(Value::Register('b'))
        ])
    );
}

#[test]
fn get_and_set() {
    let mut cpu = Cpu::new(vec![]);
    assert_eq!(cpu.get('b'), 0);
    cpu.set('b', -7);
    cpu.set('d', 9);
    assert_eq!(cpu.get('b'), -7);
    assert_eq!(cpu.get('d'), 9);
    assert_eq!(cpu.get('a'), 0);
    assert!(cpu.halted());
}

#[test]
fn wrapping_increment() {
    let mut cpu = Cpu::new(load_program("inc a").unwrap());
    cpu.set('a', i32::MAX);
    cpu.run();
    assert_eq!(cpu.get('a'), i32::MIN);
}
