use std::collections::HashSet;
use turbine_sim::params::{BATCH_SIZE, DATA_SHREDS, L1_SIZE, NUM_NODES, RECOVER_SIZE};
use turbine_sim::population::Population;
use turbine_sim::propagation::{offer, propagate_round, propagate_shred};
use turbine_sim::recovery::recover_touched;
use turbine_sim::roles::Roles;
use turbine_sim::topology::Topology;

const FIRST_LEAF: usize = 249;
const END_OF_LEAVES: usize = 9_849;

fn rising() -> Vec<usize> {
    (0..NUM_NODES).collect()
}

fn falling() -> Vec<usize> {
    (0..NUM_NODES).rev().collect()
}

/// `order` with node `id` moved to `place`, and the node that stood there
/// moved to where `id` stood.
fn with_node_at(mut order: Vec<usize>, place: usize, id: usize) -> Vec<usize> {
    let from = order.iter().position(|&other| other == id).unwrap();
    order.swap(place, from);
    order
}

fn holders(nodes: &Population, shred: usize) -> Vec<usize> {
    (0..NUM_NODES).filter(|&id| nodes.holds(id, shred)).collect()
}

fn sorted(touched: &HashSet<usize>) -> Vec<usize> {
    let mut ids: Vec<usize> = touched.iter().copied().collect();
    ids.sort_unstable();
    ids
}

#[test]
fn offer_reaches_the_online_nodes_of_a_range() {
    let roles = Roles::new(1_000, 0).unwrap();
    let topology = Topology::from_order(rising()).unwrap();
    let mut nodes = Population::new();
    let mut touched = HashSet::new();
    offer(&mut nodes, &mut touched, &topology, &roles, 9, 990, 1_010);
    let expected: Vec<usize> = (990..1_000).collect();
    assert_eq!(holders(&nodes, 9), expected);
    assert_eq!(sorted(&touched), expected);
    assert!(holders(&nodes, 8).is_empty());
}

#[test]
fn offer_over_an_empty_range_does_nothing() {
    let roles = Roles::new(NUM_NODES, 0).unwrap();
    let topology = Topology::from_order(rising()).unwrap();
    let mut nodes = Population::new();
    let mut touched = HashSet::new();
    offer(&mut nodes, &mut touched, &topology, &roles, 0, 300, 300);
    assert!(holders(&nodes, 0).is_empty());
    assert!(touched.is_empty());
}

#[test]
fn offer_keeps_what_was_touched_before() {
    let roles = Roles::new(NUM_NODES, 0).unwrap();
    let topology = Topology::from_order(rising()).unwrap();
    let mut nodes = Population::new();
    let mut touched = HashSet::new();
    touched.insert(7_777);
    offer(&mut nodes, &mut touched, &topology, &roles, 0, 10, 12);
    assert_eq!(sorted(&touched), vec![10, 11, 7_777]);
}

#[test]
fn shred_reaches_first_level_and_leaf_groups_when_all_are_online() {
    let roles = Roles::new(NUM_NODES, 0).unwrap();
    let topology = Topology::from_order(rising()).unwrap();
    let mut nodes = Population::new();
    let mut touched = HashSet::new();
    propagate_shred(&mut nodes, &mut touched, &topology, &roles, 3);
    let expected: Vec<usize> = (0..=L1_SIZE).chain(FIRST_LEAF..END_OF_LEAVES).collect();
    assert_eq!(expected.len(), 9_801);
    assert_eq!(holders(&nodes, 3), expected);
    assert_eq!(sorted(&touched), expected);
    for shred in 0..BATCH_SIZE {
        if shred != 3 {
            assert!(holders(&nodes, shred).is_empty());
        }
    }
}

#[test]
fn places_outside_every_group_are_never_reached() {
    let roles = Roles::new(NUM_NODES, 0).unwrap();
    let topology = Topology::from_order(rising()).unwrap();
    let mut nodes = Population::new();
    let mut touched = HashSet::new();
    for shred in 0..BATCH_SIZE {
        propagate_shred(&mut nodes, &mut touched, &topology, &roles, shred);
    }
    for id in (L1_SIZE + 1)..FIRST_LEAF {
        assert_eq!(nodes.held(id), 0);
    }
    for id in END_OF_LEAVES..NUM_NODES {
        assert_eq!(nodes.held(id), 0);
    }
    assert_eq!(nodes.held(L1_SIZE), BATCH_SIZE);
    assert_eq!(nodes.held(FIRST_LEAF), BATCH_SIZE);
    assert_eq!(nodes.held(END_OF_LEAVES - 1), BATCH_SIZE);
    assert_eq!(touched.len(), 9_801);
}

#[test]
fn offline_nodes_receive_nothing() {
    let roles = Roles::new(300, 0).unwrap();
    let topology = Topology::from_order(rising()).unwrap();
    let mut nodes = Population::new();
    let mut touched = HashSet::new();
    propagate_shred(&mut nodes, &mut touched, &topology, &roles, 0);
    let expected: Vec<usize> = (0..=L1_SIZE).chain(FIRST_LEAF..300).collect();
    assert_eq!(holders(&nodes, 0), expected);
    assert_eq!(sorted(&touched), expected);
}

#[test]
fn offline_root_sends_nothing() {
    let roles = Roles::new(5_000, 0).unwrap();
    let topology = Topology::from_order(falling()).unwrap();
    assert_eq!(topology.root(), NUM_NODES - 1);
    let mut nodes = Population::new();
    let mut touched = HashSet::new();
    propagate_shred(&mut nodes, &mut touched, &topology, &roles, 12);
    assert!(holders(&nodes, 12).is_empty());
    assert!(touched.is_empty());
}

#[test]
fn relay_that_holds_the_shred_forwards_under_an_offline_root() {
    let roles = Roles::new(5_000, 0).unwrap();
    let order = with_node_at(with_node_at(falling(), 1, 10), FIRST_LEAF, 20);
    let order = with_node_at(order, FIRST_LEAF + 1, 6_000);
    let topology = Topology::from_order(order).unwrap();
    let mut nodes = Population::new();
    nodes.deliver(10, 3);
    let mut touched = HashSet::new();
    propagate_shred(&mut nodes, &mut touched, &topology, &roles, 3);
    assert_eq!(holders(&nodes, 3), vec![10, 20]);
    assert_eq!(sorted(&touched), vec![20]);
}

#[test]
fn relay_without_the_shred_does_not_forward_under_an_offline_root() {
    let roles = Roles::new(5_000, 5).unwrap();
    let order = with_node_at(with_node_at(falling(), 1, 10), FIRST_LEAF, 20);
    let topology = Topology::from_order(order).unwrap();
    let mut nodes = Population::new();
    let mut touched = HashSet::new();
    propagate_shred(&mut nodes, &mut touched, &topology, &roles, 3);
    assert!(holders(&nodes, 3).is_empty());
    assert!(touched.is_empty());
}

#[test]
fn malicious_relay_forwards_what_it_does_not_hold() {
    let roles = Roles::new(5_000, 100).unwrap();
    let order = with_node_at(with_node_at(falling(), 1, 10), FIRST_LEAF, 20);
    let order = with_node_at(order, FIRST_LEAF + 1, 6_000);
    let topology = Topology::from_order(order).unwrap();
    let mut nodes = Population::new();
    let mut touched = HashSet::new();
    propagate_shred(&mut nodes, &mut touched, &topology, &roles, 3);
    assert_eq!(holders(&nodes, 3), vec![20]);
    assert_eq!(sorted(&touched), vec![20]);
    assert!(!nodes.holds(10, 3));
    assert!(!nodes.holds(6_000, 3));
}

#[test]
fn offline_relay_does_not_forward_under_an_online_root() {
    let roles = Roles::new(100, 0).unwrap();
    let order = with_node_at(with_node_at(rising(), 1, 9_000), FIRST_LEAF, 50);
    let topology = Topology::from_order(order).unwrap();
    let mut nodes = Population::new();
    let mut touched = HashSet::new();
    propagate_shred(&mut nodes, &mut touched, &topology, &roles, 40);
    let expected: Vec<usize> = (0..100).filter(|&id| id != 1 && id != 50).collect();
    assert_eq!(holders(&nodes, 40), expected);
    assert_eq!(sorted(&touched), expected);
}

#[test]
fn relay_forwards_what_the_root_has_just_sent() {
    let roles = Roles::new(100, 0).unwrap();
    let order = with_node_at(rising(), FIRST_LEAF, 50);
    let topology = Topology::from_order(order).unwrap();
    let mut nodes = Population::new();
    let mut touched = HashSet::new();
    propagate_shred(&mut nodes, &mut touched, &topology, &roles, 40);
    let expected: Vec<usize> = (0..100).collect();
    assert_eq!(holders(&nodes, 40), expected);
    assert_eq!(sorted(&touched), expected);
}

#[test]
fn shred_already_held_does_not_touch() {
    let roles = Roles::new(NUM_NODES, 0).unwrap();
    let topology = Topology::from_order(rising()).unwrap();
    let mut nodes = Population::new();
    nodes.deliver(5, 3);
    nodes.deliver(300, 3);
    let mut touched = HashSet::new();
    propagate_shred(&mut nodes, &mut touched, &topology, &roles, 3);
    assert!(!touched.contains(&5));
    assert!(!touched.contains(&300));
    assert!(touched.contains(&6));
    assert_eq!(touched.len(), 9_799);
    let mut again = HashSet::new();
    propagate_shred(&mut nodes, &mut again, &topology, &roles, 3);
    assert!(again.is_empty());
}

#[test]
fn round_touches_exactly_the_nodes_that_gained_a_shred() {
    let roles = Roles::new(6_600, 0).unwrap();
    let mut nodes = Population::new();
    let touched = propagate_round(&mut nodes, 1, &roles, BATCH_SIZE);
    for id in 0..NUM_NODES {
        assert_eq!(touched.contains(&id), nodes.held(id) > 0);
        assert!(!touched.contains(&id) || roles.online(id));
    }
    assert!(!touched.is_empty());
}

#[test]
fn round_over_no_shreds_does_nothing() {
    let roles = Roles::new(NUM_NODES, 0).unwrap();
    let mut nodes = Population::new();
    let touched = propagate_round(&mut nodes, 1, &roles, 0);
    assert!(touched.is_empty());
    for id in 0..NUM_NODES {
        assert_eq!(nodes.held(id), 0);
    }
}

#[test]
fn round_of_data_shreds_sends_no_coding_shred() {
    let roles = Roles::new(NUM_NODES, 0).unwrap();
    let mut nodes = Population::new();
    let touched = propagate_round(&mut nodes, 2, &roles, DATA_SHREDS);
    assert!(!touched.is_empty());
    for shred in DATA_SHREDS..BATCH_SIZE {
        assert!(holders(&nodes, shred).is_empty());
    }
    assert!(!holders(&nodes, DATA_SHREDS - 1).is_empty());
}

#[test]
fn held_counts_never_fall_from_round_to_round() {
    let roles = Roles::new(4_000, 400).unwrap();
    let mut nodes = Population::new();
    let mut held: Vec<usize> = vec![0; NUM_NODES];
    let mut full: Vec<bool> = vec![false; NUM_NODES];
    let mut round = 0;
    loop {
        let shreds = if round == 0 { BATCH_SIZE } else { DATA_SHREDS };
        let touched = propagate_round(&mut nodes, 3, &roles, shreds);
        for id in 0..NUM_NODES {
            assert!(nodes.held(id) >= held[id]);
        }
        if touched.is_empty() {
            break;
        }
        recover_touched(&mut nodes, &touched, &roles);
        for id in 0..NUM_NODES {
            assert!(nodes.held(id) >= held[id]);
            assert!(!full[id] || nodes.has_full_data(id));
            held[id] = nodes.held(id);
            full[id] = nodes.has_full_data(id);
        }
        round += 1;
        assert!(round < 100);
    }
}

#[test]
fn quiet_round_stays_quiet_when_run_again() {
    let roles = Roles::new(6_600, 0).unwrap();
    let mut nodes = Population::new();
    let mut round = 0;
    loop {
        let shreds = if round == 0 { BATCH_SIZE } else { DATA_SHREDS };
        let touched = propagate_round(&mut nodes, 4, &roles, shreds);
        if touched.is_empty() {
            break;
        }
        recover_touched(&mut nodes, &touched, &roles);
        round += 1;
        assert!(round < 100);
    }
    let before: Vec<usize> = (0..NUM_NODES).map(|id| nodes.held(id)).collect();
    let shreds = if round == 0 { BATCH_SIZE } else { DATA_SHREDS };
    assert!(propagate_round(&mut nodes, 4, &roles, shreds).is_empty());
    assert!(propagate_round(&mut nodes, 4, &roles, DATA_SHREDS).is_empty());
    let after: Vec<usize> = (0..NUM_NODES).map(|id| nodes.held(id)).collect();
    assert_eq!(before, after);
}

#[test]
fn recovery_rebuilds_touched_nodes_above_the_threshold() {
    let roles = Roles::new(NUM_NODES, 0).unwrap();
    let mut nodes = Population::new();
    for shred in 0..RECOVER_SIZE {
        nodes.deliver(1, DATA_SHREDS + shred);
        nodes.deliver(2, DATA_SHREDS + shred);
    }
    for shred in 0..(RECOVER_SIZE - 1) {
        nodes.deliver(3, DATA_SHREDS + shred);
    }
    let mut touched = HashSet::new();
    touched.insert(1);
    touched.insert(3);
    recover_touched(&mut nodes, &touched, &roles);
    assert!(nodes.has_full_data(1));
    assert_eq!(nodes.held(1), BATCH_SIZE);
    assert!(!nodes.has_full_data(2));
    assert_eq!(nodes.held(2), RECOVER_SIZE);
    assert!(!nodes.has_full_data(3));
    assert_eq!(nodes.held(3), RECOVER_SIZE - 1);
}

#[test]
fn recovery_of_nobody_changes_nothing() {
    let roles = Roles::new(NUM_NODES, 0).unwrap();
    let mut nodes = Population::new();
    for shred in 0..BATCH_SIZE {
        nodes.deliver(8, shred);
    }
    nodes.deliver(9, 40);
    recover_touched(&mut nodes, &HashSet::new(), &roles);
    assert_eq!(nodes.held(8), BATCH_SIZE);
    assert_eq!(nodes.held(9), 1);
    assert!(!nodes.has_full_data(9));
}
