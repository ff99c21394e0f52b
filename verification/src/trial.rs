//! One trial: rounds of delivery and recovery for one block, until a round
//! delivers nothing; and a run of trials, one for each block from 1 on.

use vstd::prelude::*;
use crate::laws::{lemma_honest_network_recovers, lemma_offline_network};
use crate::node::has_all_data;
use crate::params::{BATCH_SIZE, DATA_SHREDS, NUM_NODES};
use crate::population::{
    Population, changed, fresh_state, held_total, lemma_held_total_bound,
    lemma_held_total_grows, lemma_unchanged_is_equal,
};
use crate::propagation::{after_shreds, propagate_round};
use crate::reach::{trees_are_orders, well_fed};
use crate::recovery::{after_recoveries, recover_touched};
use crate::roles::Roles;

verus! {

/// How one trial ended.
#[derive(Clone, Copy, Debug, PartialEq, Eq)]
pub struct TrialOutcome {
    /// Nodes that count as recovered: they hold every data shred, or they
    /// are malicious.
    pub recovered: usize,
    /// Nodes that hold every data shred and are not malicious.
    pub non_malicious_recovered: usize,
    /// Rounds of delivery that were run, the last one, which delivered
    /// nothing, included.
    pub rounds: usize,
}

/// Number of shreds that are sent in a round: all of them in the first
/// round, the data shreds in every later one.
pub open spec fn round_shreds(round: nat) -> nat {
    if round == 0 {
        BATCH_SIZE as nat
    } else {
        DATA_SHREDS as nat
    }
}

/// The state once round number `round` has delivered its shreds to `state`.
pub open spec fn round_delivery(
    state: Seq<Seq<bool>>,
    block: usize,
    roles: Roles,
    round: nat,
) -> Seq<Seq<bool>> {
    after_shreds(state, block, roles, round_shreds(round))
}

/// The state once round number `round` has delivered its shreds to `state`
/// and the nodes that received one have attempted recovery.
pub open spec fn after_round(
    state: Seq<Seq<bool>>,
    block: usize,
    roles: Roles,
    round: nat,
) -> Seq<Seq<bool>> {
    let delivered = round_delivery(state, block, roles, round);
    after_recoveries(delivered, changed(state, delivered))
}

/// The state of the trial of `block` at the start of round number `round`.
pub open spec fn state_at(block: usize, roles: Roles, round: nat) -> Seq<Seq<bool>>
    decreases round,
{
    if round == 0 {
        fresh_state()
    } else {
        after_round(state_at(block, roles, (round - 1) as nat), block, roles, (round - 1) as nat)
    }
}

/// Round number `round` of the trial of `block` delivers nothing.
pub open spec fn settled(block: usize, roles: Roles, round: nat) -> bool {
    round_delivery(state_at(block, roles, round), block, roles, round) == state_at(
        block,
        roles,
        round,
    )
}

/// Round number `round` is the first round of the trial of `block` that
/// delivers nothing.
pub open spec fn converges_at(block: usize, roles: Roles, round: nat) -> bool {
    &&& settled(block, roles, round)
    &&& forall|earlier: nat| earlier < round ==> !#[trigger] settled(block, roles, earlier)
}

/// Node `id` counts as recovered: it holds every data shred, or it is
/// malicious.
pub open spec fn counts_as_recovered(state: Seq<Seq<bool>>, roles: Roles, id: int) -> bool {
    has_all_data(state[id]) || roles.is_malicious(id)
}

/// Node `id` has recovered the block itself: it holds every data shred and
/// is not malicious.
pub open spec fn genuinely_recovered(state: Seq<Seq<bool>>, roles: Roles, id: int) -> bool {
    has_all_data(state[id]) && !roles.is_malicious(id)
}

/// Number of nodes with an id below `n` that count as recovered.
pub open spec fn recovered_below(state: Seq<Seq<bool>>, roles: Roles, n: nat) -> nat
    decreases n,
{
    if n == 0 {
        0
    } else {
        recovered_below(state, roles, (n - 1) as nat) + if counts_as_recovered(
            state,
            roles,
            n - 1,
        ) {
            1nat
        } else {
            0nat
        }
    }
}

/// Number of nodes with an id below `n` that have recovered the block
/// themselves.
pub open spec fn genuine_below(state: Seq<Seq<bool>>, roles: Roles, n: nat) -> nat
    decreases n,
{
    if n == 0 {
        0
    } else {
        genuine_below(state, roles, (n - 1) as nat) + if genuinely_recovered(state, roles, n - 1) {
            1nat
        } else {
            0nat
        }
    }
}

/// `outcome` is how the trial of `block` ends: the number of the first
/// round that delivers nothing, plus one, and the two counts over the state
/// at that round.
pub open spec fn is_outcome(outcome: TrialOutcome, block: usize, roles: Roles) -> bool {
    let last = (outcome.rounds - 1) as nat;
    &&& outcome.rounds >= 1
    &&& converges_at(block, roles, last)
    &&& outcome.recovered == recovered_below(state_at(block, roles, last), roles, NUM_NODES as nat)
    &&& outcome.non_malicious_recovered == genuine_below(
        state_at(block, roles, last),
        roles,
        NUM_NODES as nat,
    )
}

/// Counts the nodes that count as recovered, and among them those that are
/// not malicious.
pub fn tally(nodes: &Population, roles: &Roles) -> (counts: (usize, usize))
    requires
        nodes.wf(),
    ensures
        counts.0 == recovered_below(nodes@, *roles, NUM_NODES as nat),
        counts.1 == genuine_below(nodes@, *roles, NUM_NODES as nat),
        counts.1 <= counts.0 <= NUM_NODES,
{
    let mut recovered: usize = 0;
    let mut non_malicious_recovered: usize = 0;
    let mut id: usize = 0;
    while id < NUM_NODES
        invariant
            id <= NUM_NODES,
            nodes.wf(),
            recovered == recovered_below(nodes@, *roles, id as nat),
            non_malicious_recovered == genuine_below(nodes@, *roles, id as nat),
            non_malicious_recovered <= recovered <= id,
        decreases NUM_NODES - id,
    {
        if nodes.has_full_data(id) || roles.malicious(id) {
            recovered += 1;
            if !roles.malicious(id) {
                non_malicious_recovered += 1;
            }
        }
        id += 1;
    }
    (recovered, non_malicious_recovered)
}

/// Runs the trial of `block`: a round that sends every shred, then rounds
/// that send the data shreds, each followed by recovery at the nodes that it
/// touched, until a round touches nobody.
///
/// The trial ends: every round but the last delivers at least one shred,
/// and there are `NUM_NODES * BATCH_SIZE` to deliver. Where nobody is
/// online it ends with the first round and nobody recovers; where everybody
/// is online and honest and enough shreds reach every node, it ends with
/// the second round and everybody recovers. The trees that the trial has
/// generated each name every node exactly once.
pub fn run_trial(block: usize, roles: &Roles) -> (outcome: TrialOutcome)
    ensures
        is_outcome(outcome, block, *roles),
        outcome.non_malicious_recovered <= outcome.recovered <= NUM_NODES,
        outcome.rounds <= NUM_NODES * BATCH_SIZE + 1,
        trees_are_orders(block),
        roles.online_nodes() == 0 ==> outcome.rounds == 1 && outcome.non_malicious_recovered == 0,
        roles.online_nodes() == NUM_NODES && roles.malicious_nodes() == 0 && well_fed(block) ==> {
            &&& outcome.rounds == 2
            &&& outcome.recovered == NUM_NODES
            &&& outcome.non_malicious_recovered == NUM_NODES
        },
{
    let mut nodes = Population::new();
    let mut rounds: usize = 0;
    proof {
        lemma_held_total_bound(nodes@);
    }
    loop
        invariant_except_break
            nodes@ == state_at(block, *roles, rounds as nat),
            forall|earlier: nat| earlier < rounds ==> !#[trigger] settled(block, *roles, earlier),
            rounds <= held_total(nodes@),
        invariant
            nodes.wf(),
            held_total(nodes@) <= NUM_NODES * BATCH_SIZE,
            rounds >= 1 ==> trees_are_orders(block),
        ensures
            1 <= rounds <= NUM_NODES * BATCH_SIZE + 1,
            nodes@ == state_at(block, *roles, (rounds - 1) as nat),
            converges_at(block, *roles, (rounds - 1) as nat),
        decreases NUM_NODES * BATCH_SIZE - held_total(nodes@),
    {
        let ghost before = nodes@;
        let ghost round = rounds as nat;
        let shreds = if rounds == 0 {
            BATCH_SIZE
        } else {
            DATA_SHREDS
        };
        let touched = propagate_round(&mut nodes, block, roles, shreds);
        let ghost delivered = nodes@;
        proof {
            lemma_held_total_bound(delivered);
            lemma_held_total_grows(before, delivered);
        }
        rounds += 1;
        if touched.is_empty() {
            proof {
                lemma_unchanged_is_equal(before, delivered);
            }
            break;
        }
        proof {
            assert(before != delivered) by {
                if before == delivered {
                    assert(changed(before, delivered) =~= Set::<usize>::empty());
                }
            }
        }
        recover_touched(&mut nodes, &touched, roles);
        proof {
            lemma_held_total_bound(nodes@);
            lemma_held_total_grows(delivered, nodes@);
            assert(state_at(block, *roles, rounds as nat) == after_round(
                state_at(block, *roles, round),
                block,
                *roles,
                round,
            ));
        }
    }
    let (recovered, non_malicious_recovered) = tally(&nodes, roles);
    let outcome = TrialOutcome { recovered, non_malicious_recovered, rounds };
    proof {
        if roles.online_nodes() == 0 {
            lemma_offline_network(outcome, block, *roles);
        }
        if roles.online_nodes() == NUM_NODES && roles.malicious_nodes() == 0 && well_fed(block) {
            lemma_honest_network_recovers(outcome, block, *roles);
        }
    }
    outcome
}

/// `outcome` is what the run of the trial of `block` has established: how
/// the trial ends, within which bounds, and that each tree of the block
/// names every node exactly once.
pub open spec fn is_trial_record(outcome: TrialOutcome, block: usize, roles: Roles) -> bool {
    &&& is_outcome(outcome, block, roles)
    &&& trees_are_orders(block)
    &&& outcome.non_malicious_recovered <= outcome.recovered <= NUM_NODES
    &&& outcome.rounds <= NUM_NODES * BATCH_SIZE + 1
}

/// Runs `trials` trials, those of the blocks from 1 up to and including
/// `trials`, one after the other, and returns their outcomes in that order.
pub fn turbine_recovery(trials: usize, roles: &Roles) -> (outcomes: Vec<TrialOutcome>)
    ensures
        outcomes@.len() == trials,
        forall|i: int|
            0 <= i < outcomes@.len() ==> is_trial_record(
                #[trigger] outcomes@[i],
                (i + 1) as usize,
                *roles,
            ),
{
    let mut outcomes: Vec<TrialOutcome> = Vec::new();
    let mut done: usize = 0;
    while done < trials
        invariant
            done <= trials,
            outcomes@.len() == done,
            forall|i: int|
                0 <= i < outcomes@.len() ==> is_trial_record(
                    #[trigger] outcomes@[i],
                    (i + 1) as usize,
                    *roles,
                ),
        decreases trials - done,
    {
        let outcome = run_trial(done + 1, roles);
        outcomes.push(outcome);
        done += 1;
    }
    outcomes
}

} // verus!
