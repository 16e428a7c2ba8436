use aoc2016::day01::solve;

#[test]
fn day01_test_solve() {
    assert_eq!(solve("R2, L3"), 5);
    assert_eq!(solve("R2, R2, R2"), 2);
    assert_eq!(solve("R5, L5, R5, R3"), 12);
}

#[test]
fn day01_turns() {
    assert_eq!(solve("L3"), 3);
    assert_eq!(solve("R1, R1, R1, R1"), 0);
    assert_eq!(solve("R-4"), 4);
}
