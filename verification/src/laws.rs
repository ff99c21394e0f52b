//! What holds of every trial.

use vstd::prelude::*;
use crate::node::{can_recover, grows, has_all_data, held_count, lemma_held_count_grows};
use crate::params::{
    BATCH_SIZE, DATA_SHREDS, L1_SIZE, NUM_NODES, RECOVER_SIZE, lemma_derived_sizes,
};
use crate::population::{
    changed, fresh_state, is_state, lemma_state_grows_antisym, lemma_state_grows_trans,
    lemma_unchanged_is_equal, state_grows,
};
use crate::propagation::{
    after_shred, after_shreds, lemma_shreds_grow, lemma_shreds_offline, lemma_unsent_shreds_stay,
};
use crate::reach::{fed_count, is_fed, place_is_fed, trees_are_orders, well_fed};
use crate::recovery::{lemma_no_recoveries, lemma_recoveries_grow};
use crate::roles::Roles;
use crate::topology::{
    in_leaf_groups, is_node_order, node_order, position_of, relay_of, seed_of,
};
use crate::trial::{
    TrialOutcome, after_round, converges_at, counts_as_recovered, genuine_below,
    genuinely_recovered, is_outcome, recovered_below, round_delivery, round_shreds, settled,
    state_at,
};

verus! {

/// The tree of a shred is determined by the seed: two pairs of a block and
/// a shred with one seed, and so one pair taken twice, have one tree.
pub proof fn lemma_topology_deterministic(
    block_a: usize,
    shred_a: usize,
    block_b: usize,
    shred_b: usize,
)
    requires
        seed_of(block_a, shred_a) == seed_of(block_b, shred_b),
    ensures
        node_order(block_a, shred_a) == node_order(block_b, shred_b),
{
}

/// Every state of a trial is a state, and a round takes nothing away.
pub proof fn lemma_round_grows(block: usize, roles: Roles, round: nat)
    ensures
        is_state(state_at(block, roles, round)),
        is_state(round_delivery(state_at(block, roles, round), block, roles, round)),
        state_grows(
            state_at(block, roles, round),
            round_delivery(state_at(block, roles, round), block, roles, round),
        ),
        state_grows(state_at(block, roles, round), state_at(block, roles, round + 1)),
    decreases round,
{
    if round > 0 {
        lemma_round_grows(block, roles, (round - 1) as nat);
    }
    let state = state_at(block, roles, round);
    let delivered = round_delivery(state, block, roles, round);
    lemma_shreds_grow(state, block, roles, 0, round_shreds(round));
    lemma_recoveries_grow(delivered, changed(state, delivered));
    lemma_state_grows_trans(state, delivered, state_at(block, roles, round + 1));
}

/// Within a trial no node ever loses a shred: from one round to any later
/// one, the number of shreds that a node holds does not fall, and a node
/// that holds every data shred goes on holding them.
pub proof fn lemma_trial_monotone(block: usize, roles: Roles, earlier: nat, later: nat, id: int)
    requires
        earlier <= later,
        0 <= id < NUM_NODES,
    ensures
        state_grows(state_at(block, roles, earlier), state_at(block, roles, later)),
        held_count(state_at(block, roles, earlier)[id]) <= held_count(
            state_at(block, roles, later)[id],
        ),
        has_all_data(state_at(block, roles, earlier)[id]) ==> has_all_data(
            state_at(block, roles, later)[id],
        ),
    decreases later - earlier,
{
    let from = state_at(block, roles, earlier);
    let to = state_at(block, roles, later);
    lemma_round_grows(block, roles, earlier);
    if earlier < later {
        let before = state_at(block, roles, (later - 1) as nat);
        lemma_trial_monotone(block, roles, earlier, (later - 1) as nat, id);
        lemma_round_grows(block, roles, (later - 1) as nat);
        lemma_state_grows_trans(from, before, to);
    }
    assert(grows(from[id], to[id]));
    lemma_held_count_grows(from[id], to[id]);
}

/// Coding shreds are sent once: what a node holds of them when the first
/// round has delivered is what it holds of them at every later round.
/// Later rounds send data shreds only, and recovery adds data shreds only.
pub proof fn lemma_coding_shreds_sent_once(
    block: usize,
    roles: Roles,
    later: nat,
    id: int,
    shred: int,
)
    requires
        1 <= later,
        0 <= id < NUM_NODES,
        DATA_SHREDS <= shred < BATCH_SIZE,
    ensures
        state_at(block, roles, later)[id][shred] == round_delivery(
            fresh_state(),
            block,
            roles,
            0,
        )[id][shred],
    decreases later,
{
    let before = state_at(block, roles, (later - 1) as nat);
    let delivered = round_delivery(before, block, roles, (later - 1) as nat);
    lemma_round_grows(block, roles, (later - 1) as nat);
    assert(delivered[id].len() == BATCH_SIZE);
    assert(state_at(block, roles, later)[id][shred] == delivered[id][shred]);
    if later > 1 {
        lemma_coding_shreds_sent_once(block, roles, (later - 1) as nat, id, shred);
        lemma_unsent_shreds_stay(before, block, roles, DATA_SHREDS as nat, id, shred);
    }
}

/// A node that holds at least `RECOVER_SIZE` shreds at the start of a round
/// holds every data shred; and one that holds as many once the round has
/// delivered holds every data shred at the start of the next.
proof fn lemma_threshold_means_data(block: usize, roles: Roles, round: nat, id: int)
    requires
        0 <= id < NUM_NODES,
    ensures
        can_recover(state_at(block, roles, round)[id]) ==> has_all_data(
            state_at(block, roles, round)[id],
        ),
        can_recover(round_delivery(state_at(block, roles, round), block, roles, round)[id])
            ==> has_all_data(state_at(block, roles, round + 1)[id]),
    decreases round,
{
    let state = state_at(block, roles, round);
    let delivered = round_delivery(state, block, roles, round);
    lemma_round_grows(block, roles, round);
    if round == 0 {
        lemma_held_none(state[id]);
    } else {
        lemma_threshold_means_data(block, roles, (round - 1) as nat, id);
        lemma_round_grows(block, roles, (round - 1) as nat);
        let earlier = state_at(block, roles, (round - 1) as nat);
        let sent = round_delivery(earlier, block, roles, (round - 1) as nat);
        assert(sent[id].len() == BATCH_SIZE);
    }
    assert(delivered[id].len() == BATCH_SIZE);
    assert(state_at(block, roles, round + 1) == after_round(state, block, roles, round));
}

/// A node that holds at least `RECOVER_SIZE` shreds once a round has
/// delivered holds every data shred at every later round.
pub proof fn lemma_enough_shreds_recover(
    block: usize,
    roles: Roles,
    round: nat,
    later: nat,
    id: int,
)
    requires
        round < later,
        0 <= id < NUM_NODES,
        can_recover(round_delivery(state_at(block, roles, round), block, roles, round)[id]),
    ensures
        has_all_data(state_at(block, roles, later)[id]),
{
    lemma_threshold_means_data(block, roles, round, id);
    lemma_trial_monotone(block, roles, round + 1, later, id);
}

/// A round of delivery that touches nobody has changed nothing, and to run
/// it again on the state it left, over the same shreds or over fewer of
/// them, touches nobody again.
pub proof fn lemma_fixed_point(
    state: Seq<Seq<bool>>,
    block: usize,
    roles: Roles,
    count: nat,
    fewer: nat,
)
    requires
        is_state(state),
        fewer <= count <= BATCH_SIZE,
        changed(state, after_shreds(state, block, roles, count)) == Set::<usize>::empty(),
    ensures
        after_shreds(state, block, roles, count) == state,
        after_shreds(state, block, roles, fewer) == state,
        changed(
            after_shreds(state, block, roles, count),
            after_shreds(after_shreds(state, block, roles, count), block, roles, fewer),
        ) == Set::<usize>::empty(),
{
    let after = after_shreds(state, block, roles, count);
    let part = after_shreds(state, block, roles, fewer);
    lemma_shreds_grow(state, block, roles, 0, count);
    lemma_unchanged_is_equal(state, after);
    lemma_shreds_grow(state, block, roles, 0, fewer);
    lemma_shreds_grow(state, block, roles, fewer, count);
    lemma_state_grows_antisym(state, part);
    assert(changed(state, state) =~= Set::<usize>::empty());
}

/// Once a round of a trial has delivered nothing, the state of the trial
/// stays as it is and no later round delivers anything.
pub proof fn lemma_settled_for_good(block: usize, roles: Roles, round: nat, later: nat)
    requires
        settled(block, roles, round),
        round <= later,
    ensures
        state_at(block, roles, later) == state_at(block, roles, round),
        settled(block, roles, later),
    decreases later - round,
{
    if round < later {
        let before = (later - 1) as nat;
        lemma_settled_for_good(block, roles, round, before);
        let state = state_at(block, roles, before);
        lemma_round_grows(block, roles, before);
        assert(changed(state, state) =~= Set::<usize>::empty());
        lemma_no_recoveries(state);
        assert(state_at(block, roles, later) == state);
        lemma_fixed_point(state, block, roles, round_shreds(before), round_shreds(later));
    }
}

/// A trial has one outcome.
pub proof fn lemma_outcome_unique(a: TrialOutcome, b: TrialOutcome, block: usize, roles: Roles)
    requires
        is_outcome(a, block, roles),
        is_outcome(b, block, roles),
    ensures
        a == b,
{
    let last_a = (a.rounds - 1) as nat;
    let last_b = (b.rounds - 1) as nat;
    if last_a < last_b {
        assert(settled(block, roles, last_a));
    } else if last_b < last_a {
        assert(settled(block, roles, last_b));
    }
}

/// Number of malicious nodes with an id below `n`.
pub open spec fn malicious_below(roles: Roles, n: nat) -> nat {
    if roles.malicious_nodes() <= n {
        roles.malicious_nodes()
    } else {
        n
    }
}

/// A node counts as recovered in exactly two ways, which exclude each
/// other: it has recovered the block itself, or it is malicious. So the
/// nodes that count as recovered are as many as those two kinds together.
pub proof fn lemma_recovered_accounting(state: Seq<Seq<bool>>, roles: Roles, n: nat)
    ensures
        forall|id: int|
            counts_as_recovered(state, roles, id) <==> (#[trigger] genuinely_recovered(
                state,
                roles,
                id,
            ) || roles.is_malicious(id)),
        forall|id: int|
            !(#[trigger] genuinely_recovered(state, roles, id) && roles.is_malicious(id)),
        recovered_below(state, roles, n) == genuine_below(state, roles, n) + malicious_below(
            roles,
            n,
        ),
    decreases n,
{
    if n > 0 {
        lemma_recovered_accounting(state, roles, (n - 1) as nat);
    }
}

/// Where no node is online, nothing is ever delivered: the first round of
/// the trial delivers nothing, and no node recovers the block itself.
pub proof fn lemma_offline_network(outcome: TrialOutcome, block: usize, roles: Roles)
    requires
        roles.online_nodes() == 0,
        is_outcome(outcome, block, roles),
    ensures
        outcome.rounds == 1,
        outcome.non_malicious_recovered == 0,
{
    lemma_shreds_offline(fresh_state(), block, roles, round_shreds(0));
    assert(settled(block, roles, 0));
    lemma_none_genuine_at_start(roles, NUM_NODES as nat);
}

/// At the start of a trial no node has recovered the block itself.
proof fn lemma_none_genuine_at_start(roles: Roles, n: nat)
    requires
        n <= NUM_NODES,
    ensures
        genuine_below(fresh_state(), roles, n) == 0,
    decreases n,
{
    if n > 0 {
        lemma_none_genuine_at_start(roles, (n - 1) as nat);
        assert(!fresh_state()[n - 1][0]);
    }
}

/// Where every node is online, a shred reaches exactly the nodes at the fed
/// places of its tree.
proof fn lemma_shred_where_all_online(
    state: Seq<Seq<bool>>,
    order: Seq<usize>,
    roles: Roles,
    shred: int,
    id: int,
)
    requires
        is_state(state),
        is_node_order(order),
        roles.online_nodes() >= NUM_NODES,
        0 <= shred < BATCH_SIZE,
        0 <= id < NUM_NODES,
    ensures
        after_shred(state, order, roles, shred)[id] == if place_is_fed(position_of(order, id)) {
            state[id].update(shred, true)
        } else {
            state[id]
        },
{
    let place = position_of(order, id);
    lemma_derived_sizes();
    assert(order[0] < NUM_NODES);
    if in_leaf_groups(place) {
        let relay = relay_of(place);
        assert(1 <= relay <= L1_SIZE);
        assert(order[relay] < NUM_NODES);
    }
}

/// Where every node is online, a node holds after the shreds below `count`
/// have been sent to the fresh state exactly those of them that reach it.
proof fn lemma_round_where_all_online(block: usize, roles: Roles, count: nat, id: int, shred: int)
    requires
        roles.online_nodes() >= NUM_NODES,
        trees_are_orders(block),
        count <= BATCH_SIZE,
        0 <= id < NUM_NODES,
        0 <= shred < BATCH_SIZE,
    ensures
        is_state(after_shreds(fresh_state(), block, roles, count)),
        after_shreds(fresh_state(), block, roles, count)[id][shred] == (shred < count && is_fed(
            block,
            shred as usize,
            id,
        )),
    decreases count,
{
    lemma_shreds_grow(fresh_state(), block, roles, 0, count);
    if count > 0 {
        let sent = (count - 1) as usize;
        let before = after_shreds(fresh_state(), block, roles, (count - 1) as nat);
        lemma_round_where_all_online(block, roles, (count - 1) as nat, id, shred);
        assert(is_node_order(node_order(block, sent)));
        lemma_shred_where_all_online(before, node_order(block, sent), roles, sent as int, id);
        assert(before[id].len() == BATCH_SIZE);
    }
}

/// A bitmap whose places below `n` say which shreds reach a node holds, in
/// those places, as many shreds as reach the node.
proof fn lemma_held_is_fed(bits: Seq<bool>, block: usize, id: int, n: nat)
    requires
        n <= bits.len(),
        forall|shred: int| 0 <= shred < n ==> bits[shred] == is_fed(block, shred as usize, id),
    ensures
        held_count(bits.take(n as int)) == fed_count(block, id, n),
    decreases n,
{
    if n > 0 {
        lemma_held_is_fed(bits, block, id, (n - 1) as nat);
        assert(bits.take(n as int).drop_last() =~= bits.take(n - 1));
    }
}

/// A bitmap with no shred in it holds none.
proof fn lemma_held_none(bits: Seq<bool>)
    requires
        forall|shred: int| 0 <= shred < bits.len() ==> !bits[shred],
    ensures
        held_count(bits) == 0,
    decreases bits.len(),
{
    if bits.len() > 0 {
        lemma_held_none(bits.drop_last());
    }
}

/// Where every node holds every data shred, to send data shreds changes
/// nothing.
proof fn lemma_full_data_settles(state: Seq<Seq<bool>>, block: usize, roles: Roles, count: nat)
    requires
        is_state(state),
        count <= DATA_SHREDS,
        forall|id: int| 0 <= id < NUM_NODES ==> has_all_data(#[trigger] state[id]),
    ensures
        after_shreds(state, block, roles, count) == state,
    decreases count,
{
    if count > 0 {
        let shred = (count - 1) as usize;
        lemma_full_data_settles(state, block, roles, (count - 1) as nat);
        let after = after_shred(state, node_order(block, shred), roles, shred as int);
        assert forall|id: int| 0 <= id < state.len() implies after[id] == state[id] by {
            assert(has_all_data(state[id]));
            assert(state[id][shred as int]);
            assert(state[id].update(shred as int, true) =~= state[id]);
        }
        assert(after =~= state);
    }
}

/// Where every node holds every data shred and none is malicious, every
/// node has recovered the block itself.
proof fn lemma_all_recovered(state: Seq<Seq<bool>>, roles: Roles, n: nat)
    requires
        n <= NUM_NODES,
        roles.malicious_nodes() == 0,
        forall|id: int| 0 <= id < NUM_NODES ==> has_all_data(#[trigger] state[id]),
    ensures
        recovered_below(state, roles, n) == n,
        genuine_below(state, roles, n) == n,
    decreases n,
{
    if n > 0 {
        lemma_all_recovered(state, roles, (n - 1) as nat);
        assert(has_all_data(state[n - 1]));
    }
}

/// Where every node is online, none is malicious, and every node is reached
/// by at least `RECOVER_SIZE` of the block's shreds, every node recovers the
/// block, and the trial ends with its second round.
///
/// A node that fewer shreds reach never recovers: the trees of a block are
/// the same in every round, so no later round reaches it either.
pub proof fn lemma_honest_network_recovers(outcome: TrialOutcome, block: usize, roles: Roles)
    requires
        roles.online_nodes() == NUM_NODES,
        roles.malicious_nodes() == 0,
        trees_are_orders(block),
        well_fed(block),
        is_outcome(outcome, block, roles),
    ensures
        outcome.rounds == 2,
        outcome.recovered == NUM_NODES,
        outcome.non_malicious_recovered == NUM_NODES,
{
    let fresh = fresh_state();
    let delivered = round_delivery(fresh, block, roles, 0);
    let rebuilt = state_at(block, roles, 1);
    lemma_round_grows(block, roles, 0);
    lemma_round_grows(block, roles, 1);
    assert(rebuilt == after_round(fresh, block, roles, 0));
    assert forall|id: int| 0 <= id < NUM_NODES implies has_all_data(#[trigger] rebuilt[id])
        && delivered[id] != fresh[id] by {
        assert forall|shred: int| 0 <= shred < BATCH_SIZE implies delivered[id][shred] == is_fed(
            block,
            shred as usize,
            id,
        ) by {
            lemma_round_where_all_online(block, roles, BATCH_SIZE as nat, id, shred);
        }
        assert(delivered[id].len() == BATCH_SIZE);
        lemma_held_is_fed(delivered[id], block, id, BATCH_SIZE as nat);
        assert(delivered[id].take(BATCH_SIZE as int) =~= delivered[id]);
        assert(fed_count(block, id, BATCH_SIZE as nat) >= RECOVER_SIZE);
        lemma_held_none(fresh[id]);
        assert(delivered[id] != fresh[id]);
        assert(changed(fresh, delivered).contains(id as usize));
    }
    assert(!settled(block, roles, 0)) by {
        assert(has_all_data(rebuilt[0]) && delivered[0] != fresh[0]);
    }
    lemma_full_data_settles(rebuilt, block, roles, DATA_SHREDS as nat);
    assert(settled(block, roles, 1));
    assert(converges_at(block, roles, 1));
    let last = (outcome.rounds - 1) as nat;
    if last < 1 {
        assert(settled(block, roles, last));
    } else if last > 1 {
        assert(settled(block, roles, 1));
    }
    lemma_all_recovered(rebuilt, roles, NUM_NODES as nat);
}

} // verus!
