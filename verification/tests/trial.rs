use rand::seq::SliceRandom;
use rand::SeedableRng;
use rand_chacha::ChaCha8Rng;
use statistical::{mean, median};
use turbine_sim::params::{
    BATCH_SIZE, DATA_SHREDS, L1_SIZE, L2_SIZE, NUM_NODES, RECOVER_SIZE,
};
use turbine_sim::population::Population;
use turbine_sim::reach::is_well_fed;
use turbine_sim::roles::Roles;
use turbine_sim::topology::Topology;
use turbine_sim::trial::{run_trial, tally, turbine_recovery, TrialOutcome};

/// A direct simulation of one trial on plain vectors, against which the
/// library's outcome is held.
fn simulate(block: usize, online: usize, malicious: usize) -> TrialOutcome {
    let mut held = vec![vec![false; BATCH_SIZE]; NUM_NODES];
    let mut rounds = 0;
    loop {
        let shreds = if rounds == 0 { BATCH_SIZE } else { DATA_SHREDS };
        let mut touched = vec![false; NUM_NODES];
        for shred in 0..shreds {
            let mut order: Vec<usize> = (0..NUM_NODES).collect();
            order.shuffle(&mut ChaCha8Rng::seed_from_u64((shred * block) as u64));
            let mut targets: Vec<usize> = Vec::new();
            if order[0] < online {
                targets.extend(0..=L1_SIZE);
            }
            let mut give = |held: &mut Vec<Vec<bool>>, places: &[usize]| {
                for &place in places {
                    let id = order[place];
                    if id < online && !held[id][shred] {
                        held[id][shred] = true;
                        touched[id] = true;
                    }
                }
            };
            give(&mut held, &targets);
            for relay in 1..=L1_SIZE {
                let id = order[relay];
                if id < malicious || (id < online && held[id][shred]) {
                    let first = 1 + L1_SIZE + relay * L2_SIZE;
                    let places: Vec<usize> = (first..first + L2_SIZE).collect();
                    give(&mut held, &places);
                }
            }
        }
        rounds += 1;
        if !touched.contains(&true) {
            break;
        }
        for id in 0..NUM_NODES {
            if touched[id] && held[id].iter().filter(|&&bit| bit).count() >= RECOVER_SIZE {
                held[id][..DATA_SHREDS].fill(true);
            }
        }
    }
    let full = |id: usize| held[id][..DATA_SHREDS].iter().all(|&bit| bit);
    TrialOutcome {
        recovered: (0..NUM_NODES).filter(|&id| full(id) || id < malicious).count(),
        non_malicious_recovered: (0..NUM_NODES).filter(|&id| full(id) && id >= malicious).count(),
        rounds,
    }
}

/// For every node, the number of shreds of `block` whose tree has the node
/// at the place of the root, of a relay or of a leaf.
fn fed_counts(block: usize) -> Vec<usize> {
    let mut counts = vec![0; NUM_NODES];
    let end_of_leaves = 1 + L1_SIZE + (L1_SIZE + 1) * L2_SIZE;
    for shred in 0..BATCH_SIZE {
        let topology = Topology::generate(block, shred);
        for place in (0..=L1_SIZE).chain((1 + L1_SIZE + L2_SIZE)..end_of_leaves) {
            counts[topology.at(place)] += 1;
        }
    }
    counts
}

fn fraction(count: usize) -> f64 {
    count as f64 / NUM_NODES as f64
}

#[test]
fn trial_with_two_thirds_online_converges() {
    let roles = Roles::new(6_600, 0).unwrap();
    let outcome = run_trial(1, &roles);
    assert!(outcome.rounds >= 1);
    assert!(outcome.rounds <= NUM_NODES * BATCH_SIZE + 1);
    assert!(outcome.recovered <= 6_600);
    assert_eq!(outcome.non_malicious_recovered, outcome.recovered);
    let recovered = fraction(outcome.recovered);
    assert!((0.0..=1.0).contains(&recovered));
    assert_eq!(outcome, simulate(1, 6_600, 0));
}

#[test]
fn trial_is_repeatable() {
    let roles = Roles::new(5_000, 250).unwrap();
    assert_eq!(run_trial(9, &roles), run_trial(9, &roles));
}

#[test]
fn trial_with_one_third_online_matches_direct_simulation() {
    let roles = Roles::new(3_300, 0).unwrap();
    assert_eq!(run_trial(2, &roles), simulate(2, 3_300, 0));
}

#[test]
fn trial_with_malicious_nodes_matches_direct_simulation() {
    let roles = Roles::new(6_600, 660).unwrap();
    let outcome = run_trial(5, &roles);
    assert_eq!(outcome, simulate(5, 6_600, 660));
    assert_eq!(outcome.recovered, outcome.non_malicious_recovered + 660);
}

#[test]
fn trial_with_few_online_and_many_malicious_matches_direct_simulation() {
    let roles = Roles::new(2_000, 2_000).unwrap();
    let outcome = run_trial(11, &roles);
    assert_eq!(outcome, simulate(11, 2_000, 2_000));
    assert_eq!(outcome.non_malicious_recovered, 0);
    assert_eq!(outcome.recovered, 2_000);
}

#[test]
fn everyone_recovers_when_all_are_online_and_honest() {
    let roles = Roles::new(NUM_NODES, 0).unwrap();
    let outcome = run_trial(1, &roles);
    assert_eq!(outcome.recovered, NUM_NODES);
    assert_eq!(outcome.non_malicious_recovered, NUM_NODES);
    assert_eq!(outcome.rounds, 2);
}

#[test]
fn enough_shreds_reach_every_node_of_block_one() {
    let counts = fed_counts(1);
    assert!(counts.iter().all(|&count| count >= RECOVER_SIZE));
    assert_eq!(counts.iter().sum::<usize>(), BATCH_SIZE * 9_801);
}

#[test]
fn no_shred_reaches_the_nodes_left_out_of_block_zero() {
    let counts = fed_counts(0);
    assert_eq!(counts.iter().filter(|&&count| count == 0).count(), 199);
    assert_eq!(counts.iter().filter(|&&count| count == BATCH_SIZE).count(), 9_801);
}

#[test]
fn block_zero_shares_one_tree_among_all_shreds() {
    let roles = Roles::new(NUM_NODES, 0).unwrap();
    let outcome = run_trial(0, &roles);
    let reached = 1 + L1_SIZE + L1_SIZE * L2_SIZE;
    assert_eq!(reached, 9_801);
    assert_eq!(outcome.recovered, reached);
    assert_eq!(outcome.non_malicious_recovered, reached);
    assert_eq!(outcome.rounds, 2);
}

#[test]
fn nobody_recovers_when_nobody_is_online() {
    let roles = Roles::new(0, 0).unwrap();
    for block in [0, 1, 2, 77] {
        let outcome = run_trial(block, &roles);
        assert_eq!(outcome.recovered, 0);
        assert_eq!(outcome.non_malicious_recovered, 0);
        assert_eq!(outcome.rounds, 1);
    }
}

#[test]
fn one_online_node_recovers_only_as_root_or_relay() {
    let roles = Roles::new(1, 0).unwrap();
    let outcome = run_trial(3, &roles);
    assert_eq!(outcome, simulate(3, 1, 0));
    assert!(outcome.recovered <= 1);
}

#[test]
fn recovered_nodes_hold_the_data_or_are_malicious() {
    let roles = Roles::new(3_000, 1_000).unwrap();
    let mut nodes = Population::new();
    for shred in 0..DATA_SHREDS {
        nodes.deliver(10, shred);
        nodes.deliver(2_000, shred);
        nodes.deliver(9_999, shred);
    }
    for shred in 0..(DATA_SHREDS - 1) {
        nodes.deliver(2_001, shred);
    }
    for shred in DATA_SHREDS..BATCH_SIZE {
        nodes.deliver(2_002, shred);
    }
    let (recovered, non_malicious_recovered) = tally(&nodes, &roles);
    assert_eq!(recovered, 1_000 + 2);
    assert_eq!(non_malicious_recovered, 2);
}

#[test]
fn tally_of_a_blank_population_counts_the_malicious() {
    let roles = Roles::new(NUM_NODES, 123).unwrap();
    assert_eq!(tally(&Population::new(), &roles), (123, 0));
    let honest = Roles::new(NUM_NODES, 0).unwrap();
    assert_eq!(tally(&Population::new(), &honest), (0, 0));
}

#[test]
fn blocks_run_from_one_up_to_the_trial_count() {
    let roles = Roles::new(3_300, 330).unwrap();
    let outcomes = turbine_recovery(4, &roles);
    assert_eq!(outcomes.len(), 4);
    for (i, outcome) in outcomes.iter().enumerate() {
        assert_eq!(*outcome, run_trial(i + 1, &roles));
    }
}

#[test]
fn no_block_runs_for_a_trial_count_of_zero() {
    let roles = Roles::new(6_600, 0).unwrap();
    assert!(turbine_recovery(0, &roles).is_empty());
}

#[test]
fn a_trial_count_of_one_runs_block_one() {
    let roles = Roles::new(6_600, 0).unwrap();
    let outcomes = turbine_recovery(1, &roles);
    assert_eq!(outcomes, vec![run_trial(1, &roles)]);
    let outcome = outcomes[0];
    assert!(outcome.rounds >= 1);
    assert!(outcome.recovered <= 6_600);
    let recovered = vec![fraction(outcome.recovered)];
    let non_malicious = vec![fraction(outcome.non_malicious_recovered)];
    assert!((0.0..=1.0).contains(&recovered[0]));
    assert_eq!(median(&recovered), recovered[0]);
    assert_eq!(mean(&recovered), recovered[0]);
    assert_eq!(median(&non_malicious), recovered[0]);
    assert_eq!(mean(&non_malicious), recovered[0]);
}

#[test]
fn well_fed_blocks_are_told_from_the_others() {
    assert!(is_well_fed(1));
    assert!(!is_well_fed(0));
    assert_eq!(is_well_fed(1), fed_counts(1).iter().all(|&count| count >= RECOVER_SIZE));
    assert_eq!(is_well_fed(0), fed_counts(0).iter().all(|&count| count >= RECOVER_SIZE));
}

#[test]
fn everyone_recovers_in_a_well_fed_block() {
    let roles = Roles::new(NUM_NODES, 0).unwrap();
    for block in [2, 3] {
        let outcome = run_trial(block, &roles);
        assert_eq!(is_well_fed(block), outcome.recovered == NUM_NODES);
    }
}

#[test]
fn more_nodes_online_means_more_nodes_recover() {
    let many = Roles::new(6_600, 0).unwrap();
    let few = Roles::new(3_300, 0).unwrap();
    let with_many: Vec<f64> =
        turbine_recovery(3, &many).iter().map(|outcome| fraction(outcome.recovered)).collect();
    let with_few: Vec<f64> =
        turbine_recovery(3, &few).iter().map(|outcome| fraction(outcome.recovered)).collect();
    assert_eq!(with_many.len(), 3);
    assert_eq!(with_few.len(), 3);
    assert!(median(&with_many) > median(&with_few));
    assert!(mean(&with_many) > mean(&with_few));
    for value in with_many.iter().chain(with_few.iter()) {
        assert!((0.0..=1.0).contains(value));
    }
}
