use aoc2016::day20::{generate, Span};

const EXAMPLE: &str = "5-8\n0-2\n4-7\n";

#[test]
fn test_firewall_firstfree() {
    assert_eq!(generate(EXAMPLE).first_free(), 3)
}

#[test]
fn test_firewall_allfree() {
    assert_eq!(generate(EXAMPLE).all_free(9), 2)
}

#[test]
fn firewall_sorted_and_reversed_ranges() {
    let fw = generate("8-5\n2-0\n7-4");
    let starts: Vec<u32> = fw.blacklist.iter().map(|s| s.start).collect();
    assert_eq!(starts, vec![0, 4, 5]);
    assert_eq!(fw.first_free(), 3);
    assert_eq!(fw.all_free(9), 2);
    assert_eq!(Span::new(9, 1), Span { start: 1, end: 9 });
}

#[test]
fn firewall_edges() {
    assert_eq!(generate("1-3").first_free(), 0);
    assert_eq!(generate("0-3\n2-10\n4-5\n12-12").first_free(), 11);
    assert_eq!(generate("0-3\n2-10\n4-5\n12-12").all_free(20), 9);
    assert_eq!(generate("0-4294967294").all_free(u32::MAX), 1);
}
