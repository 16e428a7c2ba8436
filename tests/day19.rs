use aoc2016::day19::{joe2, josephus, josephus_bitmath, josephus_fiddling};

#[test]
fn test_josephus() {
    assert_eq!(josephus(&5), 3);
}

#[test]
fn josephus_variants_agree() {
    for n in 1usize..200 {
        assert_eq!(josephus(&n), josephus_fiddling(&n));
        assert_eq!(josephus(&n), josephus_bitmath(&n));
    }
    assert_eq!(josephus(&1), 1);
    assert_eq!(josephus(&41), 19);
    assert_eq!(josephus(&0), 1);
    assert_eq!(josephus_fiddling(&0), 0);
    assert_eq!(josephus(&usize::MAX), usize::MAX);
}

#[test]
fn t_1() {
    assert_eq!(joe2(&1), 1);
}
#[test]
fn t_2() {
    assert_eq!(joe2(&2), 1);
}
#[test]
fn t_3() {
    assert_eq!(joe2(&3), 2);
}
#[test]
fn t_4() {
    assert_eq!(joe2(&4), 1);
}
#[test]
fn t_5() {
    assert_eq!(joe2(&5), 2);
}
#[test]
fn t_6() {
    assert_eq!(joe2(&6), 3);
}
#[test]
fn t_7() {
    assert_eq!(joe2(&7), 4);
}
#[test]
fn t_8() {
    assert_eq!(joe2(&8), 5);
}
#[test]
fn t_9() {
    assert_eq!(joe2(&9), 6);
}
#[test]
fn t_10() {
    assert_eq!(joe2(&10), 1);
}

#[test]
fn joe2_edges() {
    assert_eq!(joe2(&0), 0);
    assert_eq!(joe2(&28), 1);
    assert_eq!(joe2(&usize::MAX), usize::MAX - 12157665459056928801);
}

#[test]
fn day19_generate() {
    assert_eq!(aoc2016::day19::generate("3014387"), Some(3014387));
    assert_eq!(aoc2016::day19::generate("30x"), None);
    assert_eq!(aoc2016::day19::generate(""), None);
}
