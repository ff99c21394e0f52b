use turbine_sim::node::Node;
use turbine_sim::params::{BATCH_SIZE, DATA_SHREDS, NUM_NODES, RECOVER_SIZE};
use turbine_sim::population::Population;

#[test]
fn new_node_holds_nothing() {
    let node = Node::new();
    assert_eq!(node.held(), 0);
    for shred in 0..BATCH_SIZE {
        assert!(!node.has(shred));
    }
    assert!(!node.has_full_data());
}

#[test]
fn default_node_holds_nothing() {
    let node = Node::default();
    assert_eq!(node.shreds, [false; BATCH_SIZE]);
}

#[test]
fn receive_sets_one_bit() {
    let mut node = Node::new();
    node.receive(5);
    assert!(node.has(5));
    assert_eq!(node.held(), 1);
    node.receive(5);
    assert_eq!(node.held(), 1);
    node.receive(BATCH_SIZE - 1);
    assert_eq!(node.held(), 2);
    assert!(!node.has(4));
    assert!(!node.has(6));
}

#[test]
fn recovery_needs_the_threshold() {
    let mut node = Node::new();
    for shred in 0..(RECOVER_SIZE - 1) {
        node.receive(BATCH_SIZE - 1 - shred);
    }
    let before = node;
    assert_eq!(node.held(), RECOVER_SIZE - 1);
    assert!(!node.recover());
    assert_eq!(node.shreds, before.shreds);
    assert!(!node.has_full_data());
}

#[test]
fn recovery_from_coding_shreds_alone() {
    let mut node = Node::new();
    for shred in DATA_SHREDS..BATCH_SIZE {
        node.receive(shred);
    }
    assert_eq!(node.held(), RECOVER_SIZE);
    assert!(!node.has_full_data());
    assert!(node.recover());
    assert!(node.has_full_data());
    assert_eq!(node.held(), BATCH_SIZE);
}

#[test]
fn recovery_leaves_coding_shreds_as_delivered() {
    let mut node = Node::new();
    for shred in 0..16 {
        node.receive(2 * shred);
    }
    for shred in 0..16 {
        node.receive(DATA_SHREDS + 2 * shred);
    }
    assert_eq!(node.held(), RECOVER_SIZE);
    assert!(node.recover());
    for shred in 0..DATA_SHREDS {
        assert!(node.has(shred));
    }
    for shred in DATA_SHREDS..BATCH_SIZE {
        assert_eq!(node.has(shred), (shred - DATA_SHREDS) % 2 == 0);
    }
    assert_eq!(node.held(), DATA_SHREDS + 16);
}

#[test]
fn recovery_twice_changes_nothing_more() {
    let mut node = Node::new();
    for shred in 0..RECOVER_SIZE {
        node.receive(shred + 10);
    }
    assert!(node.recover());
    let once = node;
    assert!(node.recover());
    assert_eq!(node.shreds, once.shreds);
}

#[test]
fn full_data_needs_every_data_shred() {
    let mut node = Node::new();
    for shred in 0..DATA_SHREDS {
        if shred != 17 {
            node.receive(shred);
        }
    }
    assert!(!node.has_full_data());
    node.receive(17);
    assert!(node.has_full_data());
}

#[test]
fn new_population_is_blank() {
    let nodes = Population::new();
    assert_eq!(nodes.nodes.len(), NUM_NODES);
    for id in 0..NUM_NODES {
        assert_eq!(nodes.held(id), 0);
    }
    assert!(!nodes.has_full_data(0));
}

#[test]
fn deliver_reaches_one_node() {
    let mut nodes = Population::new();
    nodes.deliver(42, 7);
    assert!(nodes.holds(42, 7));
    assert!(!nodes.holds(42, 8));
    assert!(!nodes.holds(41, 7));
    assert!(!nodes.holds(43, 7));
    assert_eq!(nodes.held(42), 1);
}

#[test]
fn population_recovers_one_node() {
    let mut nodes = Population::new();
    for shred in 0..RECOVER_SIZE {
        nodes.deliver(9, DATA_SHREDS + shred);
        nodes.deliver(10, DATA_SHREDS + shred);
    }
    for shred in 0..(RECOVER_SIZE - 1) {
        nodes.deliver(11, DATA_SHREDS + shred);
    }
    assert!(nodes.recover(9));
    assert!(nodes.has_full_data(9));
    assert!(!nodes.has_full_data(10));
    assert!(!nodes.recover(11));
    assert!(!nodes.has_full_data(11));
    assert_eq!(nodes.held(11), RECOVER_SIZE - 1);
}
