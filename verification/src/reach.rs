//! Which nodes the trees of a block reach.
//!
//! The places of a tree between the relays and the first leaf group, and
//! those behind the last leaf group, belong to no group: a node that stands
//! there receives nothing of that shred, whoever is online. Whether a block
//! can be rebuilt everywhere depends on how often each node stands at such a
//! place.

use vstd::prelude::*;
use crate::params::{BATCH_SIZE, L1_SIZE, L2_SIZE, NUM_NODES, RECOVER_SIZE, lemma_derived_sizes};
use crate::topology::{
    Topology, in_first_level, in_leaf_groups, is_node_order, lemma_position_of_id,
    lemma_position_of_place, node_order, position_of,
};

verus! {

/// The places that a shred reaches where every node is online: those of
/// the root, of the relays and of the leaf groups. The places between the
/// relays and the first leaf group, and those behind the last leaf group,
/// belong to no group.
pub open spec fn place_is_fed(place: int) -> bool {
    in_first_level(place) || in_leaf_groups(place)
}

/// Node `id` stands at a place of the tree of `shred` of `block` that the
/// shred reaches where every node is online.
pub open spec fn is_fed(block: usize, shred: usize, id: int) -> bool {
    place_is_fed(position_of(node_order(block, shred), id))
}

/// Number of shreds below `n` of `block` that reach node `id` where every
/// node is online.
pub open spec fn fed_count(block: usize, id: int, n: nat) -> nat
    decreases n,
{
    if n == 0 {
        0
    } else {
        fed_count(block, id, (n - 1) as nat) + if is_fed(block, (n - 1) as usize, id) {
            1nat
        } else {
            0nat
        }
    }
}

/// Every node is reached by enough of the shreds of `block` to rebuild it,
/// where every node is online.
pub open spec fn well_fed(block: usize) -> bool {
    forall|id: int|
        0 <= id < NUM_NODES ==> #[trigger] fed_count(block, id, BATCH_SIZE as nat) >= RECOVER_SIZE
}

/// The tree of every shred of `block` names every node exactly once.
pub open spec fn trees_are_orders(block: usize) -> bool {
    forall|shred: usize| shred < BATCH_SIZE ==> is_node_order(#[trigger] node_order(block, shred))
}

/// No more shreds reach a node than there are.
pub proof fn lemma_fed_count_bound(block: usize, id: int, n: nat)
    ensures
        fed_count(block, id, n) <= n,
    decreases n,
{
    if n > 0 {
        lemma_fed_count_bound(block, id, (n - 1) as nat);
    }
}

/// Adds one to the count of every node that stands at a fed place of the
/// tree.
fn count_fed(counts: &mut Vec<usize>, topology: &Topology)
    requires
        topology.wf(),
        old(counts)@.len() == NUM_NODES,
        forall|id: int| 0 <= id < NUM_NODES ==> old(counts)@[id] < usize::MAX,
    ensures
        final(counts)@.len() == NUM_NODES,
        forall|id: int|
            0 <= id < NUM_NODES ==> #[trigger] final(counts)@[id] == old(counts)@[id] + if place_is_fed(
                position_of(topology@, id),
            ) {
                1int
            } else {
                0int
            },
{
    let ghost order = topology@;
    let end_of_leaves = 1 + L1_SIZE + (L1_SIZE + 1) * L2_SIZE;
    proof {
        lemma_derived_sizes();
    }
    let mut place: usize = 0;
    while place < NUM_NODES
        invariant
            place <= NUM_NODES,
            topology.wf(),
            order == topology@,
            end_of_leaves == 1 + L1_SIZE + (L1_SIZE + 1) * L2_SIZE,
            counts@.len() == NUM_NODES,
            forall|id: int| 0 <= id < NUM_NODES ==> old(counts)@[id] < usize::MAX,
            forall|id: int|
                0 <= id < NUM_NODES ==> #[trigger] counts@[id] == old(counts)@[id] + if position_of(
                    order,
                    id,
                ) < place && place_is_fed(position_of(order, id)) {
                    1int
                } else {
                    0int
                },
        decreases NUM_NODES - place,
    {
        let ghost before = counts@;
        let id = topology.at(place);
        proof {
            lemma_derived_sizes();
            lemma_position_of_place(order, place as int);
        }
        if place <= L1_SIZE || (1 + L1_SIZE + L2_SIZE <= place && place < end_of_leaves) {
            let count = counts[id];
            counts.set(id, count + 1);
        }
        proof {
            assert forall|other: int| 0 <= other < NUM_NODES implies #[trigger] counts@[other]
                == old(counts)@[other] + if position_of(order, other) < place + 1 && place_is_fed(
                position_of(order, other),
            ) {
                1int
            } else {
                0int
            } by {
                if other != id {
                    lemma_position_of_id(order, other);
                    assert(position_of(order, other) != place);
                    assert(counts@[other] == before[other]);
                }
            }
        }
        place += 1;
    }
    proof {
        assert forall|id: int| 0 <= id < NUM_NODES implies position_of(order, id) < NUM_NODES by {
            lemma_position_of_id(order, id);
        }
    }
}

/// Whether every node is reached by at least `RECOVER_SIZE` of the shreds
/// of `block`, where every node is online: generates the tree of every
/// shred and counts, for each node, the trees in which it stands at a fed
/// place. The trees that it has generated each name every node exactly
/// once.
pub fn is_well_fed(block: usize) -> (yes: bool)
    ensures
        yes == well_fed(block),
        trees_are_orders(block),
{
    let mut counts: Vec<usize> = Vec::with_capacity(NUM_NODES);
    let mut id: usize = 0;
    while id < NUM_NODES
        invariant
            id <= NUM_NODES,
            counts@.len() == id,
            forall|j: int| 0 <= j < id ==> counts@[j] == 0,
        decreases NUM_NODES - id,
    {
        counts.push(0);
        id += 1;
    }
    let mut shred: usize = 0;
    while shred < BATCH_SIZE
        invariant
            shred <= BATCH_SIZE,
            counts@.len() == NUM_NODES,
            forall|id: int|
                0 <= id < NUM_NODES ==> #[trigger] counts@[id] == fed_count(block, id, shred as nat),
            forall|sent: usize| sent < shred ==> is_node_order(#[trigger] node_order(block, sent)),
        decreases BATCH_SIZE - shred,
    {
        let topology = Topology::generate(block, shred);
        proof {
            assert forall|id: int| 0 <= id < NUM_NODES implies counts@[id] < usize::MAX by {
                lemma_fed_count_bound(block, id, shred as nat);
            }
        }
        count_fed(&mut counts, &topology);
        shred += 1;
    }
    let mut id: usize = 0;
    while id < NUM_NODES
        invariant
            id <= NUM_NODES,
            counts@.len() == NUM_NODES,
            forall|j: int|
                0 <= j < NUM_NODES ==> #[trigger] counts@[j] == fed_count(
                    block,
                    j,
                    BATCH_SIZE as nat,
                ),
            forall|j: int|
                0 <= j < id ==> #[trigger] fed_count(block, j, BATCH_SIZE as nat) >= RECOVER_SIZE,
            trees_are_orders(block),
        decreases NUM_NODES - id,
    {
        if counts[id] < RECOVER_SIZE {
            assert(fed_count(block, id as int, BATCH_SIZE as nat) < RECOVER_SIZE);
            return false;
        }
        id += 1;
    }
    true
}

} // verus!
