use aoc2016::day11::{solve, Factory, Floor, Item};

const EXAMPLE: &str = "The first floor contains a hydrogen-compatible microchip and a lithium-compatible microchip.
The second floor contains a hydrogen generator.
The third floor contains a lithium generator.
The fourth floor contains nothing relevant.
";

#[test]
fn test_floor_safe() {
    let mut floor = Floor::default();
    assert!(floor.safe(), "Empty floors are safe");
    floor.add(Item::Chip("Red".to_string()));
    assert!(floor.safe(), "Chips on their own are safe");
    floor.add(Item::Generator("Green".to_string()));
    assert!(!floor.safe(), "Unmatched generator is unsafe");
    floor.add(Item::Chip("Green".to_string()));
    assert!(floor.safe(), "Matched chip to make it safe");
}

#[test]
fn test_factory_from_str() {
    let parsed: Factory = EXAMPLE.parse().unwrap();
    let mut factory = Factory::default();
    factory.floors[0].add(Item::Chip("hydrogen".to_string()));
    factory.floors[0].add(Item::Chip("lithium".to_string()));
    factory.floors[1].add(Item::Generator("hydrogen".to_string()));
    factory.floors[2].add(Item::Generator("lithium".to_string()));
    assert_eq!(parsed, factory);
}

#[test]
fn test_factory_moves() {
    let factory: Factory = EXAMPLE.parse().unwrap();
    let moves = factory.moves();
    assert_eq!(moves.len(), 2, "There are two legal moves");
    assert!(
        moves.iter().all(|factory| factory.lift == 1),
        "All moves go to floor 1"
    );
}

#[test]
fn test_factory_solved() {
    assert!(Factory::default().solved(), "Empty factories are solved");

    let factory: Factory = EXAMPLE.parse().unwrap();
    assert!(!factory.solved(), "Example factory does not start solved");

    let mut factory = Factory::default();
    factory.floors[3].add(Item::Chip("Green".to_string()));
    assert!(factory.solved(), "Solved when everything on the top floor");
}

#[test]
fn floor_add_remove_keep_a_set() {
    let mut floor = Floor::default();
    floor.add(Item::Chip("b".to_string()));
    floor.add(Item::Generator("b".to_string()));
    floor.add(Item::Chip("a".to_string()));
    floor.add(Item::Chip("b".to_string()));
    assert_eq!(
        floor.0,
        vec![
            Item::Generator("b".to_string()),
            Item::Chip("a".to_string()),
            Item::Chip("b".to_string())
        ]
    );
    floor.remove(&Item::Chip("a".to_string()));
    floor.remove(&Item::Chip("zz".to_string()));
    assert_eq!(floor.0.len(), 2);
    assert!("a\nb\nc\nd\ne".parse::<Factory>().is_err());
}

#[test]
fn moves_carry_items() {
    let factory: Factory = EXAMPLE.parse().unwrap();
    let moves = factory.moves_to(1);
    assert_eq!(moves[0].floors[1].0, vec![Item::Generator("hydrogen".to_string()), Item::Chip("hydrogen".to_string())]);
    assert_eq!(moves[0].floors[0].0, vec![Item::Chip("lithium".to_string())]);
    assert!(factory.moves_to(3).is_empty());
    assert!(factory.moves_to(0).is_empty());
    assert!(factory.legal());
}

#[test]
fn day11_test_solve() {
    assert_eq!(solve(EXAMPLE), 11);
}
