use markov::Node;

#[test]
fn add() {
    let mut node = Node::default();
    node.add(1);
    node.add(1);
    node.add(1);
    node.add(2);
    assert_eq!(node.weight_of(1), Some(3));
    assert_eq!(node.weight_of(2), Some(1));
    assert_eq!(node.weight_of(3), None);
    assert_eq!(node.total_weight(), 4);
}

#[test]
fn weighted_add_and_get() {
    let mut node = Node::default();
    node.add_weight(1, 2);
    node.add_weight(2, 2);
    node.add_weight(3, 1);
    assert_eq!(node.total_weight(), 5);
    // the partition of [0, 5) in insertion order: 1 owns {0, 1},
    // 2 owns {2, 3}, 3 owns {4}; anything past the total selects nothing
    assert_eq!(node.get_weighted(0), Some(1));
    assert_eq!(node.get_weighted(1), Some(1));
    assert_eq!(node.get_weighted(2), Some(2));
    assert_eq!(node.get_weighted(3), Some(2));
    assert_eq!(node.get_weighted(4), Some(3));
    assert_eq!(node.get_weighted(5), None);
    assert_eq!(node.get_weighted(6), None);
}

#[test]
fn get_random() {
    let mut node = Node::default();
    assert_eq!(node.get_random(), None);
    node.add(10);
    assert_eq!(node.get_random(), Some(10));
}
