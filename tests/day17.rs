use aoc2016::day17::{door_open, longest, shortest, Maze};

#[test]
fn start() {
    let start = Maze::new("hijkl");
    assert_eq!(start.successors(), vec![start.make_move('D')])
}

#[test]
fn d() {
    let start = Maze::new("hijkl").make_move('D');
    assert_eq!(
        start.successors(),
        vec![start.make_move('U'), start.make_move('R')]
    )
}

#[test]
fn du() {
    let start = Maze::new("hijkl").make_move('D').make_move('U');
    assert_eq!(start.successors(), vec![start.make_move('R')])
}

#[test]
fn dr() {
    let start = Maze::new("hijkl").make_move('D').make_move('R');
    assert_eq!(start.successors(), vec![])
}

#[test]
fn dur() {
    let start = Maze::new("hijkl")
        .make_move('D')
        .make_move('U')
        .make_move('R');
    assert_eq!(start.successors(), vec![])
}

#[test]
fn doors_and_moves() {
    for c in b"bcdef" {
        assert!(door_open(*c));
    }
    for c in b"0123456789a" {
        assert!(!door_open(*c));
    }
    let m = Maze::new("x").make_move('R').make_move('D').make_move('L').make_move('U');
    assert_eq!((m.x, m.y), (1, 1));
    assert_eq!(m.path, vec!['R', 'D', 'L', 'U']);
    let mut at_vault = Maze::new("x");
    at_vault.x = 4;
    at_vault.y = 4;
    assert!(at_vault.success());
    assert!(at_vault.successors().is_empty());
}

#[test]
fn shortest_ihgpwlah() {
    assert_eq!(shortest("ihgpwlah"), "DDRRRD");
}

#[test]
fn shortest_kglvqrro() {
    assert_eq!(shortest("kglvqrro"), "DDUDRLRRUDRD");
}

#[test]
fn shortest_ulqzkmiv() {
    assert_eq!(shortest("ulqzkmiv"), "DRURDRUDDLLDLUURRDULRLDUUDDDRR");
}

#[test]
fn shortest_none() {
    assert_eq!(shortest("hijkl"), "Not found");
}

#[test]
fn longest_ihgpwlah() {
    assert_eq!(longest("ihgpwlah"), 370);
}

#[test]
fn longest_kglvqrro() {
    assert_eq!(longest("kglvqrro"), 492);
}

#[test]
fn longest_ulqzkmiv() {
    assert_eq!(longest("ulqzkmiv"), 830);
}
