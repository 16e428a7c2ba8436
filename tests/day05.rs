use aoc2016::day05::solve;

#[test]
fn day05_test_solve() {
    assert_eq!(solve("abc").as_deref(), Some("18f47a30"));
}
