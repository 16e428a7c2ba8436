use aoc2016::day03::{solve, solve2};

const EXAMPLE: &str = "101 301 501
102 302 502
103 303 503
201 401 601
202 402 602
203 403 603
";

#[test]
fn day03_test_solve() {
    assert_eq!(solve("5 10 25"), 0);
}

#[test]
fn day03_rows_counted() {
    assert_eq!(solve("  3   4   5\n5 10 25\n10 10 10\n1 2 3"), 2);
    assert_eq!(solve(""), 0);
}

#[test]
fn day03_test_solve2() {
    assert_eq!(solve2(EXAMPLE), 6);
}

#[test]
fn day03_columns_counted() {
    assert_eq!(solve2("3 1 5\n4 2 10\n5 3 25\n"), 1);
}
