use aoc2016::day21::{generate, Instr, InstrParseError, Scrambler};

const EXAMPLE: &str = "swap position 4 with position 0
swap letter d with letter b
reverse positions 0 through 4
rotate left 1 step
move position 1 to position 4
move position 3 to position 0
rotate based on position of letter b
rotate based on position of letter d
";

#[test]
fn test_scrambler() {
    assert_eq!(generate(EXAMPLE).scramble("abcde"), "decab");
}

#[test]
fn scrambler_steps() {
    let one = |line: &str, s: &str| Scrambler::new(line).scramble(s);
    assert_eq!(one("swap position 4 with position 0", "abcde"), "ebcda");
    assert_eq!(one("swap letter d with letter b", "ebcda"), "edcba");
    assert_eq!(one("reverse positions 0 through 4", "edcba"), "abcde");
    assert_eq!(one("rotate left 1 step", "abcde"), "bcdea");
    assert_eq!(one("rotate right 2 steps", "abcde"), "deabc");
    assert_eq!(one("move position 1 to position 4", "bcdea"), "bdeac");
    assert_eq!(one("move position 3 to position 0", "bdeac"), "abdec");
    assert_eq!(one("rotate based on position of letter b", "abdec"), "ecabd");
    assert_eq!(one("rotate based on position of letter d", "ecabd"), "decab");
    assert_eq!(one("rotate based on position of letter z", "abc"), "abc");
    assert_eq!(one("reverse positions 1 through 2", "abcd"), "acbd");
}

#[test]
fn instr_parse_errors() {
    assert_eq!(Instr::parse("rotate left x steps"), Err(InstrParseError::NumberParse(String::from("x"))));
    assert_eq!(Instr::parse("jump 3"), Err(InstrParseError::Unrecognised(String::from("jump 3"))));
    assert_eq!(Instr::parse("move position 1"), Err(InstrParseError::Unrecognised(String::from("move position 1"))));
    assert_eq!(Instr::parse("swap letter a with letter b"), Ok(Instr::SwapLetter('a', 'b')));
}
