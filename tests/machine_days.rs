use aoc2016::day12::generate;
use aoc2016::{day23, day25};

#[test]
fn day23_presets_register_a() {
    let program = generate("cpy a b\ninc b\ncpy b a");
    assert_eq!(day23::solve(&program), 8);
    assert_eq!(day23::solve2(&program), 13);
}

#[test]
fn day23_toggle_example() {
    let program = generate("cpy 2 a\ntgl a\ntgl a\ntgl a\ncpy 1 a\ndec a\ndec a");
    // the example program ignores the preset and leaves 3 in `a`
    assert_eq!(day23::solve(&program), 3);
}

#[test]
fn day25_first_alternating_value() {
    assert_eq!(day25::solve(&generate("out 0\nout a\nout 0\nout a")), Some(1));
    assert_eq!(day25::solve(&generate("out a\ninc a\njnz 1 -2")), Some(0));
    assert_eq!(day25::solve(&generate("out 1\nout a\njnz 1 -2")), Some(0));
}
