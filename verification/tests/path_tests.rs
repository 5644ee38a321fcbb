use myrpc4rs::shortest_path::{find_shortest_path, Node, Path};

#[test]
fn find_shortest_path_test() {
    let mut nodes = Vec::new();
    for i in 0..6usize {
        nodes.push(Node::new(i));
    }
    nodes[0].add_path(Path::new(0, 2, 2, 8));
    nodes[0].add_path(Path::new(0, 4, 15, 15));
    nodes[0].add_path(Path::new(0, 5, 50, 50));
    nodes[1].add_path(Path::new(1, 2, 5, 0));
    nodes[2].add_path(Path::new(2, 3, 5, 45));
    nodes[3].add_path(Path::new(3, 5, 5, 5));
    nodes[4].add_path(Path::new(4, 3, 15, 5));
    nodes[4].add_path(Path::new(4, 5, 15, 45));
    let result = find_shortest_path(nodes, 0, 5);
    println!("{:?}", result);
}

#[test]
fn path_test() {
    let path1 = Path::new(1, 2, 10, 10);
    let path2 = Path::new(1, 2, 20, 10);
    assert!(path1 < path2);
}

#[test]
fn find_shortest_path_exact_answer() {
    let mut nodes = Vec::new();
    for i in 0..6usize {
        nodes.push(Node::new(i));
    }
    nodes[0].add_path(Path::new(0, 2, 2, 8));
    nodes[0].add_path(Path::new(0, 4, 15, 15));
    nodes[0].add_path(Path::new(0, 5, 50, 50));
    nodes[1].add_path(Path::new(1, 2, 5, 0));
    nodes[2].add_path(Path::new(2, 3, 5, 45));
    nodes[3].add_path(Path::new(3, 5, 5, 5));
    nodes[4].add_path(Path::new(4, 3, 15, 5));
    nodes[4].add_path(Path::new(4, 5, 15, 45));
    let (time, route) = find_shortest_path(nodes, 0, 5);
    // The cheapest 0-to-5 walk: (15+15) + (15+5) + (5+5).
    assert_eq!(time, Some(60));
    assert_eq!(route, vec![0, 4, 3, 5]);
}

#[test]
fn shortest_path_route_endpoints() {
    let mut nodes = Vec::new();
    for i in 0..3usize {
        nodes.push(Node::new(i));
    }
    nodes[0].add_path(Path::new(0, 1, 1, 0));
    nodes[1].add_path(Path::new(1, 2, 1, 0));
    let (time, route) = find_shortest_path(nodes, 0, 2);
    assert_eq!(time, Some(2));
    assert!(!route.is_empty());
    assert_eq!(route[0], 0);
    assert_eq!(*route.last().unwrap(), 2);
}

#[test]
fn shortest_path_unreachable_target() {
    let mut nodes = Vec::new();
    for i in 0..3usize {
        nodes.push(Node::new(i));
    }
    nodes[0].add_path(Path::new(0, 1, 1, 0));
    let (time, route) = find_shortest_path(nodes, 0, 2);
    assert_eq!(time, None);
    assert!(route.is_empty());
}

#[test]
fn add_path_is_a_set_insert() {
    let mut node = Node::new(0);
    node.add_path(Path::new(0, 1, 2, 3));
    node.add_path(Path::new(0, 2, 5, 5));
    assert_eq!(node.get_path_set().len(), 2);
    // Re-adding an already-present path leaves the set unchanged.
    node.add_path(Path::new(0, 1, 2, 3));
    assert_eq!(node.get_path_set().len(), 2);
    // A path differing in any field is a new member.
    node.add_path(Path::new(0, 1, 2, 4));
    assert_eq!(node.get_path_set().len(), 3);
}

#[test]
fn shortest_patch_picks_the_cheapest() {
    let mut node = Node::new(0);
    node.add_path(Path::new(0, 1, 10, 10));
    node.add_path(Path::new(0, 2, 3, 4));
    node.add_path(Path::new(0, 3, 30, 0));
    let best = node.get_shortest_patch();
    assert_eq!(best.to, 2);
    assert_eq!(best.time(), 7);
}
