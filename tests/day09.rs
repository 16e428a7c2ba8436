use aoc2016::day09::{solve, solve2};

#[test]
fn day09_test_solve() {
    assert_eq!(solve(b"ADVENT"), 6);
    assert_eq!(solve(b"A(1x5)BC"), 7);
    assert_eq!(solve(b"(3x3)XYZ"), 9);
    assert_eq!(solve(b"A(2x2)BCD(2x2)EFG"), 11);
    assert_eq!(solve(b"(6x1)(1x3)A"), 6);
    assert_eq!(solve(b"X(8x2)(3x3)ABCY"), 18);
}

#[test]
fn day09_test_solve2() {
    assert_eq!(solve2(b"(3x3)XYZ"), 9);
    assert_eq!(solve2(b"X(8x2)(3x3)ABCY"), 20);
    assert_eq!(solve2(b"(27x12)(20x12)(13x14)(7x10)(1x12)A"), 241920);
    assert_eq!(
        solve2(b"(25x3)(3x3)ABC(2x3)XY(5x2)PQRSTX(18x9)(3x2)TWO(5x7)SEVEN"),
        445
    );
}

#[test]
fn day09_edges() {
    assert_eq!(solve(b""), 0);
    assert_eq!(solve2(b""), 0);
    assert_eq!(solve(b"(0x9)AB"), 2);
    assert_eq!(solve2(b"(+2x+3)AB"), 6);
}
