use aoc2016::day18::{is_safe, next_line, parse, safe, view};

#[test]
fn step1() {
    assert_eq!(view(&next_line(&parse("..^^."))), ".^^^^");
}

#[test]
fn step2() {
    assert_eq!(view(&next_line(&parse(".^^^^"))), "^^..^");
}

#[test]
fn five_by_three() {
    assert_eq!(safe("..^^.", 3), 6);
}

#[test]
fn ten_by_ten() {
    assert_eq!(safe(".^^.^.^^^^", 10), 38);
}

#[test]
fn trap_rules() {
    assert!(!is_safe((false, false, true)));
    assert!(!is_safe((true, false, false)));
    assert!(!is_safe((true, true, false)));
    assert!(!is_safe((false, true, true)));
    assert!(is_safe((true, true, true)));
    assert!(is_safe((false, false, false)));
    assert!(is_safe((true, false, true)));
    assert!(is_safe((false, true, false)));
}

#[test]
fn single_row_and_empty_row() {
    assert_eq!(safe("^.^", 1), 1);
    assert_eq!(safe("", 5), 0);
    assert_eq!(view(&next_line(&parse(""))), "");
}
