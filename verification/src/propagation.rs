//! Delivery of shreds along their broadcast trees.
//!
//! The root sends a shred to itself and to its relays; a relay that is
//! online and holds the shred, or that is malicious, sends it on to its leaf
//! group. Only online nodes receive anything. What one shred's delivery does
//! to the state is `after_shred`, a closed form over the place at which each
//! node stands in the tree.

use vstd::prelude::*;
use std::collections::HashSet;
use crate::node::grows;
use crate::params::{BATCH_SIZE, L1_SIZE, L2_SIZE, NUM_NODES, lemma_derived_sizes};
use crate::population::{
    Population, changed, is_state, lemma_changed_accumulates, lemma_state_grows_trans, state_grows,
};
use crate::roles::Roles;
use crate::topology::{
    Topology, in_first_level, is_node_order, leaf_start, lemma_leaf_groups, lemma_position_of_id,
    lemma_position_of_place, node_order, position_of, relay_of,
};

verus! {

broadcast use vstd::std_specs::hash::group_hash_axioms;

/// The state once `shred` has been offered to the nodes at the places from
/// `lo` up to `hi`: those of them that are online hold it.
pub open spec fn after_offer(
    state: Seq<Seq<bool>>,
    order: Seq<usize>,
    roles: Roles,
    shred: int,
    lo: int,
    hi: int,
) -> Seq<Seq<bool>> {
    Seq::new(
        state.len(),
        |id: int|
            if roles.is_online(id) && lo <= position_of(order, id) < hi {
                state[id].update(shred, true)
            } else {
                state[id]
            },
    )
}

/// Whether the relay at place `relay` sends `shred` on to its leaves: it is
/// online and holds the shred, from before or from the root, or it is
/// malicious, whatever it holds.
pub open spec fn relay_forwards(
    state: Seq<Seq<bool>>,
    order: Seq<usize>,
    roles: Roles,
    shred: int,
    relay: int,
) -> bool {
    let id = order[relay] as int;
    let root = order[0] as int;
    (roles.is_online(id) && (state[id][shred] || roles.is_online(root))) || roles.is_malicious(id)
}

/// Whether `shred` is sent to `place`, by the root or by one of the relays
/// at the places below `upto`.
pub open spec fn sent_to(
    state: Seq<Seq<bool>>,
    order: Seq<usize>,
    roles: Roles,
    shred: int,
    upto: int,
    place: int,
) -> bool {
    ||| in_first_level(place) && roles.is_online(order[0] as int)
    ||| leaf_start(1) <= place < leaf_start(upto) && relay_forwards(
        state,
        order,
        roles,
        shred,
        relay_of(place),
    )
}

/// The state once the root and the relays at the places below `upto` have
/// sent `shred`.
pub open spec fn after_relays(
    state: Seq<Seq<bool>>,
    order: Seq<usize>,
    roles: Roles,
    shred: int,
    upto: int,
) -> Seq<Seq<bool>> {
    Seq::new(
        state.len(),
        |id: int|
            if roles.is_online(id) && sent_to(
                state,
                order,
                roles,
                shred,
                upto,
                position_of(order, id),
            ) {
                state[id].update(shred, true)
            } else {
                state[id]
            },
    )
}

/// The state once `shred` has gone down the whole tree `order`.
pub open spec fn after_shred(
    state: Seq<Seq<bool>>,
    order: Seq<usize>,
    roles: Roles,
    shred: int,
) -> Seq<Seq<bool>> {
    after_relays(state, order, roles, shred, L1_SIZE + 1)
}

/// The state once the shreds below `count` of `block` have gone down their
/// trees, in rising order.
pub open spec fn after_shreds(
    state: Seq<Seq<bool>>,
    block: usize,
    roles: Roles,
    count: nat,
) -> Seq<Seq<bool>>
    decreases count,
{
    if count == 0 {
        state
    } else {
        let shred = (count - 1) as usize;
        after_shred(
            after_shreds(state, block, roles, (count - 1) as nat),
            node_order(block, shred),
            roles,
            shred as int,
        )
    }
}

/// An offer leaves a state a state, takes nothing away, and changes online
/// nodes only.
pub proof fn lemma_offer_grows(
    state: Seq<Seq<bool>>,
    order: Seq<usize>,
    roles: Roles,
    shred: int,
    lo: int,
    hi: int,
)
    requires
        is_state(state),
        0 <= shred < BATCH_SIZE,
    ensures
        is_state(after_offer(state, order, roles, shred, lo, hi)),
        state_grows(state, after_offer(state, order, roles, shred, lo, hi)),
        forall|id: usize|
            changed(state, after_offer(state, order, roles, shred, lo, hi)).contains(id)
                ==> roles.is_online(id as int),
{
    let after = after_offer(state, order, roles, shred, lo, hi);
    assert forall|id: int| 0 <= id < state.len() implies (#[trigger] after[id]).len()
        == BATCH_SIZE by {
        assert(state[id].len() == BATCH_SIZE);
    }
    assert forall|id: int| 0 <= id < state.len() implies grows(
        #[trigger] state[id],
        after[id],
    ) by {
        assert(state[id].len() == BATCH_SIZE);
    }
}

/// Sending a shred down the tree, as far as the relays below `upto`, leaves
/// a state a state, takes nothing away, and changes online nodes only.
pub proof fn lemma_relays_grow(
    state: Seq<Seq<bool>>,
    order: Seq<usize>,
    roles: Roles,
    shred: int,
    upto: int,
)
    requires
        is_state(state),
        0 <= shred < BATCH_SIZE,
    ensures
        is_state(after_relays(state, order, roles, shred, upto)),
        state_grows(state, after_relays(state, order, roles, shred, upto)),
        forall|id: usize|
            changed(state, after_relays(state, order, roles, shred, upto)).contains(id)
                ==> roles.is_online(id as int),
{
    let after = after_relays(state, order, roles, shred, upto);
    assert forall|id: int| 0 <= id < state.len() implies (#[trigger] after[id]).len()
        == BATCH_SIZE by {
        assert(state[id].len() == BATCH_SIZE);
    }
    assert forall|id: int| 0 <= id < state.len() implies grows(
        #[trigger] state[id],
        after[id],
    ) by {
        assert(state[id].len() == BATCH_SIZE);
    }
}

/// Sending shreds down their trees leaves a state a state and takes
/// nothing away, however many are sent.
pub proof fn lemma_shreds_grow(
    state: Seq<Seq<bool>>,
    block: usize,
    roles: Roles,
    fewer: nat,
    count: nat,
)
    requires
        is_state(state),
        fewer <= count <= BATCH_SIZE,
    ensures
        is_state(after_shreds(state, block, roles, count)),
        state_grows(
            after_shreds(state, block, roles, fewer),
            after_shreds(state, block, roles, count),
        ),
    decreases count,
{
    if count == 0 {
    } else {
        let shred = (count - 1) as usize;
        let before = after_shreds(state, block, roles, (count - 1) as nat);
        if fewer == count {
            lemma_shreds_grow(state, block, roles, (count - 1) as nat, (count - 1) as nat);
            lemma_relays_grow(before, node_order(block, shred), roles, shred as int, L1_SIZE + 1);
        } else {
            lemma_shreds_grow(state, block, roles, fewer, (count - 1) as nat);
            lemma_relays_grow(before, node_order(block, shred), roles, shred as int, L1_SIZE + 1);
            lemma_state_grows_trans(
                after_shreds(state, block, roles, fewer),
                before,
                after_shreds(state, block, roles, count),
            );
        }
    }
}

/// Sending the shreds below `count` leaves every other shred where it is.
pub proof fn lemma_unsent_shreds_stay(
    state: Seq<Seq<bool>>,
    block: usize,
    roles: Roles,
    count: nat,
    id: int,
    shred: int,
)
    requires
        is_state(state),
        count <= shred < BATCH_SIZE,
        0 <= id < NUM_NODES,
    ensures
        after_shreds(state, block, roles, count)[id][shred] == state[id][shred],
    decreases count,
{
    if count > 0 {
        let sent = (count - 1) as usize;
        let before = after_shreds(state, block, roles, (count - 1) as nat);
        lemma_unsent_shreds_stay(state, block, roles, (count - 1) as nat, id, shred);
        lemma_shreds_grow(state, block, roles, 0, (count - 1) as nat);
        assert(before[id].len() == BATCH_SIZE);
    }
}

/// Where no node is online, sending shreds changes nothing.
pub proof fn lemma_shreds_offline(state: Seq<Seq<bool>>, block: usize, roles: Roles, count: nat)
    requires
        roles.online_nodes() == 0,
    ensures
        after_shreds(state, block, roles, count) == state,
    decreases count,
{
    if count > 0 {
        let shred = (count - 1) as usize;
        lemma_shreds_offline(state, block, roles, (count - 1) as nat);
        assert(after_shred(state, node_order(block, shred), roles, shred as int) =~= state);
    }
}

/// What the root sends is an offer to the first level, where the root is
/// online, and nothing where it is not.
proof fn lemma_first_level(state: Seq<Seq<bool>>, order: Seq<usize>, roles: Roles, shred: int)
    ensures
        roles.is_online(order[0] as int) ==> after_offer(state, order, roles, shred, 0, L1_SIZE + 1)
            == after_relays(state, order, roles, shred, 1),
        !roles.is_online(order[0] as int) ==> state == after_relays(state, order, roles, shred, 1),
{
    let sent = after_relays(state, order, roles, shred, 1);
    if roles.is_online(order[0] as int) {
        let offered = after_offer(state, order, roles, shred, 0, L1_SIZE + 1);
        assert forall|id: int| 0 <= id < state.len() implies offered[id] == sent[id] by {}
        assert(offered =~= sent);
    } else {
        assert forall|id: int| 0 <= id < state.len() implies state[id] == sent[id] by {}
        assert(state =~= sent);
    }
}

/// What the relay at place `relay` adds to what the root and the relays
/// below it have sent: an offer to its leaf group where it forwards, and
/// nothing where it does not.
proof fn lemma_relay_step(
    state: Seq<Seq<bool>>,
    order: Seq<usize>,
    roles: Roles,
    shred: int,
    relay: int,
)
    requires
        1 <= relay <= L1_SIZE,
    ensures
        relay_forwards(state, order, roles, shred, relay) ==> after_offer(
            after_relays(state, order, roles, shred, relay),
            order,
            roles,
            shred,
            leaf_start(relay),
            leaf_start(relay + 1),
        ) == after_relays(state, order, roles, shred, relay + 1),
        !relay_forwards(state, order, roles, shred, relay) ==> after_relays(
            state,
            order,
            roles,
            shred,
            relay,
        ) == after_relays(state, order, roles, shred, relay + 1),
{
    let before = after_relays(state, order, roles, shred, relay);
    let after = after_relays(state, order, roles, shred, relay + 1);
    lemma_leaf_groups(relay);
    lemma_derived_sizes();
    if relay_forwards(state, order, roles, shred, relay) {
        let offered = after_offer(
            before,
            order,
            roles,
            shred,
            leaf_start(relay),
            leaf_start(relay + 1),
        );
        assert forall|id: int| 0 <= id < state.len() implies offered[id] == after[id] by {
            let place = position_of(order, id);
            if leaf_start(relay) <= place < leaf_start(relay + 1) {
                assert(relay_of(place) == relay);
            }
            assert(offered[id] =~= after[id]);
        }
        assert(offered =~= after);
    } else {
        assert forall|id: int| 0 <= id < state.len() implies before[id] == after[id] by {
            let place = position_of(order, id);
            if leaf_start(relay) <= place < leaf_start(relay + 1) {
                assert(relay_of(place) == relay);
            }
        }
        assert(before =~= after);
    }
}

/// Whether a relay holds a shred once the root has sent it does not depend
/// on what the relays before it have sent on: no relay stands in a leaf
/// group.
proof fn lemma_relay_holds(
    state: Seq<Seq<bool>>,
    order: Seq<usize>,
    roles: Roles,
    shred: int,
    relay: int,
)
    requires
        is_state(state),
        is_node_order(order),
        0 <= shred < BATCH_SIZE,
        1 <= relay <= L1_SIZE,
    ensures
        relay_forwards(state, order, roles, shred, relay) <==> (roles.is_online(
            order[relay] as int,
        ) && after_relays(state, order, roles, shred, relay)[order[relay] as int][shred])
            || roles.is_malicious(order[relay] as int),
{
    lemma_position_of_place(order, relay);
    lemma_leaf_groups(1);
    let id = order[relay] as int;
    assert(state[id].len() == BATCH_SIZE);
}

/// Offers `shred` to the nodes at the places from `lo` up to `hi` of the
/// tree: each of them that is online and does not hold the shred receives
/// it and is recorded in `touched`.
pub fn offer(
    nodes: &mut Population,
    touched: &mut HashSet<usize>,
    topology: &Topology,
    roles: &Roles,
    shred: usize,
    lo: usize,
    hi: usize,
)
    requires
        old(nodes).wf(),
        topology.wf(),
        shred < BATCH_SIZE,
        lo <= hi <= NUM_NODES,
    ensures
        final(nodes).wf(),
        final(nodes)@ == after_offer(
            old(nodes)@,
            topology@,
            *roles,
            shred as int,
            lo as int,
            hi as int,
        ),
        final(touched)@ == old(touched)@.union(changed(old(nodes)@, final(nodes)@)),
{
    let ghost start = nodes@;
    let ghost order = topology@;
    let mut place: usize = lo;
    assert(nodes@ =~= after_offer(start, order, *roles, shred as int, lo as int, lo as int));
    assert(touched@ =~= old(touched)@.union(changed(start, nodes@)));
    while place < hi
        invariant
            lo <= place <= hi <= NUM_NODES,
            shred < BATCH_SIZE,
            nodes.wf(),
            topology.wf(),
            order == topology@,
            is_state(start),
            nodes@ == after_offer(start, order, *roles, shred as int, lo as int, place as int),
            touched@ == old(touched)@.union(changed(start, nodes@)),
        decreases hi - place,
    {
        let id = topology.at(place);
        let ghost before = nodes@;
        proof {
            lemma_position_of_place(order, place as int);
        }
        if roles.online(id) && !nodes.holds(id, shred) {
            nodes.deliver(id, shred);
            touched.insert(id);
            proof {
                assert(start[id as int].len() == BATCH_SIZE);
                assert(nodes@[id as int][shred as int] != start[id as int][shred as int]);
                assert(changed(start, nodes@) =~= changed(start, before).insert(id)) by {
                    assert forall|other: usize|
                        changed(start, nodes@).contains(other) <==> changed(start, before).insert(
                            id,
                        ).contains(other) by {
                        if other != id && other < start.len() {
                            assert(nodes@[other as int] == before[other as int]);
                        }
                    }
                }
                assert(touched@ =~= old(touched)@.union(changed(start, nodes@)));
            }
        }
        proof {
            let next = after_offer(start, order, *roles, shred as int, lo as int, place + 1);
            assert forall|other: int| 0 <= other < start.len() implies nodes@[other]
                == next[other] by {
                assert(start[other].len() == BATCH_SIZE);
                if other == id {
                    assert(nodes@[other] =~= next[other]);
                } else {
                    lemma_position_of_id(order, other);
                    assert(position_of(order, other) != place);
                    assert(nodes@[other] == before[other]);
                }
            }
            assert(nodes@ =~= next);
        }
        place += 1;
    }
}

/// Sends `shred` down the tree `topology`: the root, where it is online,
/// offers it to itself and the relays; then each relay that is online and
/// holds the shred, or that is malicious, offers it to its leaf group.
/// Records in `touched` every node that received it.
pub fn propagate_shred(
    nodes: &mut Population,
    touched: &mut HashSet<usize>,
    topology: &Topology,
    roles: &Roles,
    shred: usize,
)
    requires
        old(nodes).wf(),
        topology.wf(),
        shred < BATCH_SIZE,
    ensures
        final(nodes).wf(),
        final(nodes)@ == after_shred(old(nodes)@, topology@, *roles, shred as int),
        final(touched)@ == old(touched)@.union(changed(old(nodes)@, final(nodes)@)),
{
    let ghost start = nodes@;
    let ghost order = topology@;
    let ghost noted = touched@;
    let root = topology.root();
    proof {
        lemma_first_level(start, order, *roles, shred as int);
        lemma_relays_grow(start, order, *roles, shred as int, 1);
    }
    if roles.online(root) {
        offer(nodes, touched, topology, roles, shred, 0, 1 + L1_SIZE);
    } else {
        assert(touched@ =~= noted.union(changed(start, nodes@)));
    }
    let mut relay: usize = 1;
    while relay < 1 + L1_SIZE
        invariant
            1 <= relay <= 1 + L1_SIZE,
            shred < BATCH_SIZE,
            nodes.wf(),
            topology.wf(),
            order == topology@,
            is_state(start),
            nodes@ == after_relays(start, order, *roles, shred as int, relay as int),
            touched@ == noted.union(changed(start, nodes@)),
        decreases 1 + L1_SIZE - relay,
    {
        let id = topology.relay(relay);
        let ghost before = nodes@;
        proof {
            lemma_relay_holds(start, order, *roles, shred as int, relay as int);
            lemma_relay_step(start, order, *roles, shred as int, relay as int);
            lemma_leaf_groups(relay as int);
            lemma_relays_grow(start, order, *roles, shred as int, relay as int);
        }
        if (roles.online(id) && nodes.holds(id, shred)) || roles.malicious(id) {
            let first = 1 + L1_SIZE + relay * L2_SIZE;
            offer(nodes, touched, topology, roles, shred, first, first + L2_SIZE);
            proof {
                lemma_offer_grows(
                    before,
                    order,
                    *roles,
                    shred as int,
                    first as int,
                    first + L2_SIZE,
                );
                lemma_changed_accumulates(start, before, nodes@);
                assert(touched@ =~= noted.union(changed(start, nodes@)));
            }
        }
        relay += 1;
    }
}

/// One round of delivery: sends the shreds below `shreds` of `block` down
/// their trees, in rising order. Returns the nodes that received a shred.
pub fn propagate_round(nodes: &mut Population, block: usize, roles: &Roles, shreds: usize) -> (touched:
    HashSet<usize>)
    requires
        old(nodes).wf(),
        shreds <= BATCH_SIZE,
    ensures
        final(nodes).wf(),
        final(nodes)@ == after_shreds(old(nodes)@, block, *roles, shreds as nat),
        state_grows(old(nodes)@, final(nodes)@),
        touched@ == changed(old(nodes)@, final(nodes)@),
        forall|id: usize|
            #[trigger] touched@.contains(id) ==> id < NUM_NODES && roles.is_online(id as int),
        forall|shred: usize| shred < shreds ==> is_node_order(#[trigger] node_order(block, shred)),
{
    let ghost start = nodes@;
    let mut touched: HashSet<usize> = HashSet::new();
    let mut shred: usize = 0;
    assert(touched@ =~= changed(start, nodes@));
    while shred < shreds
        invariant
            shred <= shreds <= BATCH_SIZE,
            nodes.wf(),
            is_state(start),
            nodes@ == after_shreds(start, block, *roles, shred as nat),
            state_grows(start, nodes@),
            touched@ == changed(start, nodes@),
            forall|id: usize|
                #[trigger] touched@.contains(id) ==> id < NUM_NODES && roles.is_online(id as int),
            forall|sent: usize| sent < shred ==> is_node_order(#[trigger] node_order(block, sent)),
        decreases shreds - shred,
    {
        let ghost before = nodes@;
        let topology = Topology::generate(block, shred);
        propagate_shred(nodes, &mut touched, &topology, roles, shred);
        proof {
            lemma_relays_grow(before, topology@, *roles, shred as int, L1_SIZE + 1);
            lemma_changed_accumulates(start, before, nodes@);
            lemma_state_grows_trans(start, before, nodes@);
        }
        shred += 1;
    }
    touched
}

} // verus!
