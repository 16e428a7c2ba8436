use aoc2016::day06::{solve, solve2};

const EXAMPLE: &str = "eedadn
drvtee
eandsr
raavrd
atevrs
tsrnev
sdttsa
rasrtv
nssdts
ntnada
svetve
tesnvt
vntsnd
vrdear
dvrsen
enarar
";

#[test]
fn day06_test_solve() {
    assert_eq!(solve(EXAMPLE), "easter");
}

#[test]
fn day06_test_solve2() {
    assert_eq!(solve2(EXAMPLE), "advent");
}

#[test]
fn day06_ragged_rows() {
    assert_eq!(solve("ab\nabc\nxbz\n"), "abc");
    assert_eq!(solve2("aab\nbbc\nbbc"), "aab");
    assert_eq!(solve(""), "");
}
