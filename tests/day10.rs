use aoc2016::day10::{generate, Bot, Destination};

const EXAMPLE: &str = "value 5 goes to bot 2
bot 2 gives low to bot 1 and high to bot 0
value 3 goes to bot 1
bot 1 gives low to output 1 and high to bot 0
bot 0 gives low to output 2 and high to output 0
value 2 goes to bot 2
";

#[test]
fn test_example() {
    assert_eq!(generate(EXAMPLE).who_compares(2, 5), 2);
}

#[test]
fn example_outputs() {
    let m = generate(EXAMPLE);
    assert_eq!(m.products(), 30);
    assert_eq!(m.who_compares(3, 5), 0);
}

#[test]
fn bots_take_and_give() {
    let mut b = Bot::new();
    b.take(7);
    b.take(3);
    b.take(7);
    assert_eq!(b.holds, vec![3, 7, 7]);
    assert_eq!(b.held, vec![7, 3]);
    assert!(b.contains(3, 7));
    assert!(!b.contains(3, 4));
    b.gives(Destination::Bot(1), Destination::Output(4));
    assert_eq!(b.low, Destination::Bot(1));
    assert_eq!(b.high, Destination::Output(4));
}

#[test]
fn tick_hands_chips_on() {
    let mut m = generate("value 9 goes to bot 4\nvalue 1 goes to bot 4\nbot 4 gives low to output 0 and high to bot 2\n");
    m.tick();
    assert_eq!(m.outputs, vec![(0, 1)]);
    assert_eq!(m.bots[1].0, 2);
    assert_eq!(m.bots[1].1.holds, vec![9]);
    assert!(m.bots[0].1.holds.is_empty());
}
