use aoc2016::day22::{do_math, draw_maze, generate, solve, Node, NodeParseError};

const EXAMPLE: &str = "root@ebhq-gridcenter# df -h
Filesystem            Size  Used  Avail  Use%
/dev/grid/node-x0-y0   10T    8T     2T   80%
/dev/grid/node-x0-y1   11T    6T     5T   54%
/dev/grid/node-x0-y2   32T   28T     4T   87%
/dev/grid/node-x1-y0    9T    7T     2T   77%
/dev/grid/node-x1-y1    8T    0T     8T    0%
/dev/grid/node-x1-y2   11T    7T     4T   63%
/dev/grid/node-x2-y0   10T    6T     4T   60%
/dev/grid/node-x2-y1    9T    8T     1T   88%
/dev/grid/node-x2-y2    9T    6T     3T   66%
";

#[test]
fn day22_parse_and_count() {
    let nodes = generate(EXAMPLE);
    assert_eq!(nodes.len(), 9);
    assert_eq!(nodes[2], Node { x: 0, y: 2, used: 28, avail: 4 });
    assert_eq!(solve(&nodes), 7);
    assert_eq!(draw_maze(&nodes), "...\n._.\n...\n");
    assert_eq!(nodes[4].describe(), '_');
    assert_eq!(Node { x: 0, y: 0, used: 101, avail: 0 }.describe(), '#');
}

#[test]
fn day22_bad_lines() {
    assert_eq!(Node::parse("/dev/grid/node-x0-y0 10T"), Err(NodeParseError::Shape));
    assert_eq!(Node::parse("/dev/grid/node-xa-y0 10T 8T 2T 80%"), Err(NodeParseError::ParseInt));
}

#[test]
fn day22_hand_count() {
    let n = |x, y, used| Node { x, y, used, avail: 10 };
    let nodes = vec![n(0, 0, 5), n(1, 0, 5), n(2, 0, 5), n(3, 0, 5), n(1, 1, 200), n(2, 1, 300), n(3, 1, 0)];
    assert_eq!(do_math(&nodes), 17);
}
