use aoc2016::day16::{checksum, expand, fill_disk};

#[test]
fn expand_1() {
    assert_eq!(expand("1"), "100");
}

#[test]
fn expand_0() {
    assert_eq!(expand("0"), "001");
}

#[test]
fn expand_11111() {
    assert_eq!(expand("11111"), "11111000000");
}

#[test]
fn expand_111100001010() {
    assert_eq!(expand("111100001010"), "1111000010100101011110000");
}

#[test]
fn expand_empty() {
    assert_eq!(expand(""), "0");
}

#[test]
fn checksum_110010110100() {
    assert_eq!(checksum("110010110100"), "100");
}

#[test]
fn checksum_short() {
    assert_eq!(checksum("10"), "0");
    assert_eq!(checksum("111"), "1");
}

#[test]
fn example_fill_disk() {
    assert_eq!(fill_disk("10000", 20), "01100");
}

#[test]
fn fill_disk_from_empty_seed() {
    // "" -> "0" -> "001" -> "0010011"; the first two are "00".
    assert_eq!(fill_disk("", 2), "1");
}
