use aoc2016::day02::{solve, solve2};

const EXAMPLE: &str = "ULL
RRDDD
LURDL
UUUUD
";

#[test]
fn day02_test_solve() {
    assert_eq!(solve(EXAMPLE), 1985);
}

#[test]
fn day02_test_solve2() {
    assert_eq!(&solve2(EXAMPLE), "5DB3");
}

#[test]
fn day02_edges() {
    assert_eq!(solve(""), 0);
    assert_eq!(solve("LLLLUUUU\nRRRRDDDD"), 19);
    assert_eq!(solve2("UUUU\nRRRR\nDDDD\nLLLL"), "5995");
}
