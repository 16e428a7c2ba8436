use aoc2016::day13::{find_route, is_wall, successors};

#[test]
fn test_is_wall() {
    assert!(is_wall(10, -1, 0), "Outside is walls");
    assert!(!is_wall(10, 0, 0));
    assert!(is_wall(10, 1, 0));
}

#[test]
fn example_maze_rows() {
    let row0: Vec<bool> = (0..10).map(|x| is_wall(10, x, 0)).collect();
    let expect0 = [false, true, false, true, true, true, true, false, true, true];
    assert_eq!(row0, expect0.to_vec());
    assert!(is_wall(10, 0, -3));
}

#[test]
fn successors_of_start() {
    assert_eq!(successors(10, 1, 1), vec![((0, 1), 1), ((1, 2), 1)]);
}

#[test]
fn test_find_route() {
    assert_eq!(find_route(10, 7, 4), 11);
}

#[test]
fn day13_route_to_start_and_neighbour() {
    assert_eq!(find_route(10, 1, 1), 0);
    assert_eq!(find_route(10, 1, 2), 1);
}
