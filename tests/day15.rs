use aoc2016::day15::{generate, solve, solve2, Disc, DiscParseErr};

const EXAMPLE: &str = "Disc #1 has 5 positions; at time=0, it is at position 4.
Disc #2 has 2 positions; at time=0, it is at position 1.
";

#[test]
fn test_disc_from_str() {
    let disc: Disc = "Disc #1 has 5 positions; at time=0, it is at position 4."
        .parse()
        .unwrap();

    assert_eq!(
        disc,
        Disc {
            start: 4,
            period: 5
        }
    )
}

#[test]
fn day15_test_solve() {
    assert_eq!(solve(&generate(EXAMPLE)), Some(5))
}

#[test]
fn day15_solve2_adds_a_disc() {
    // with the extra disc of 11 at depth 3 the example needs time 85
    assert_eq!(solve2(&generate(EXAMPLE)), Some(85));
    assert_eq!(solve(&[]), Some(0));
}

#[test]
fn day15_bad_lines() {
    assert_eq!("Disc #1 has five positions; at time=0, it is at position 4.".parse::<Disc>(), Err(DiscParseErr {}));
    assert_eq!("Disc #1 has 5 positions; at time=0, it is at position 4".parse::<Disc>(), Err(DiscParseErr {}));
}
