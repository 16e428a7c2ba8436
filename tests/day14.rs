use aoc2016::day14::{five_in_a_row, inner_hasher, single_hasher, solve, stretching_hasher, three_in_a_row};

#[test]
fn day14_test_solve() {
    assert_eq!(solve("abc"), Some(22728))
}

#[test]
fn test_stretching_hasher() {
    assert_eq!(
        stretching_hasher("abc".to_string(), 0),
        "a107ff634856bb300138cac6568c0f24"
    );
}

#[test]
fn hashers() {
    assert_eq!(inner_hasher(String::from("abc0")), "577571be4de9dcce85a041ba0410f29f");
    assert_eq!(single_hasher(String::from("abc"), 0), "577571be4de9dcce85a041ba0410f29f");
    assert!(single_hasher(String::from("abc"), 18).contains("cc38887a5"));
}

#[test]
fn runs() {
    assert_eq!(three_in_a_row(b"ab888c999"), Some(b'8'));
    assert_eq!(three_in_a_row(b"aabbcc"), None);
    assert_eq!(three_in_a_row(b"ab"), None);
    assert!(five_in_a_row(b'e', b"xeeeeexy"));
    assert!(!five_in_a_row(b'e', b"xxeeeee"));
    assert!(!five_in_a_row(b'e', b"eeee"));
}
