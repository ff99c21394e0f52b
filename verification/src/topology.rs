//! The broadcast tree of one shred: a seeded random order of all nodes whose
//! prefix names the root, the relays and the leaf group of each relay.

use vstd::prelude::*;
use rand::SeedableRng;
use rand::seq::SliceRandom;
use rand_chacha::ChaCha8Rng;
use crate::params::{L1_SIZE, L2_SIZE, NUM_NODES, lemma_derived_sizes};

verus! {

/// What `shuffle_seeded` leaves in a vector that held `items`.
pub uninterp spec fn seeded_shuffle(items: Seq<usize>, seed: u64) -> Seq<usize>;

/// Shuffles `items` in place with `rand`'s `SliceRandom::shuffle`, drawing
/// from a `rand_chacha::ChaCha8Rng` made by `SeedableRng::seed_from_u64(seed)`.
///
/// Trusted: the outcome is a function of the items and the seed alone (the
/// generator is seeded from nothing else, and for a slice of no more than
/// `u32::MAX` items the shuffle draws 32-bit indices on every platform), and
/// it is a rearrangement of the items (the shuffle only swaps places).
#[verifier::external_body]
fn shuffle_seeded(items: &mut Vec<usize>, seed: u64)
    requires
        old(items)@.len() <= u32::MAX,
    ensures
        final(items)@ == seeded_shuffle(old(items)@, seed),
        final(items)@.to_multiset() == old(items)@.to_multiset(),
{
    let mut rng = ChaCha8Rng::seed_from_u64(seed);
    items.shuffle(&mut rng);
}

/// The node ids in rising order.
pub open spec fn identity_order() -> Seq<usize> {
    Seq::new(NUM_NODES as nat, |id: int| id as usize)
}

/// The seed of one shred's tree: the product of the two indices, reduced
/// to 64 bits.
pub open spec fn seed_of(block: usize, shred: usize) -> u64 {
    vstd::wrapping::u64_specs::wrapping_mul(shred as u64, block as u64)
}

/// The order in which the nodes stand in the tree of `shred` of `block`.
pub open spec fn node_order(block: usize, shred: usize) -> Seq<usize> {
    seeded_shuffle(identity_order(), seed_of(block, shred))
}

/// `order` names every node id exactly once.
pub open spec fn is_node_order(order: Seq<usize>) -> bool {
    &&& order.len() == NUM_NODES
    &&& order.no_duplicates()
    &&& forall|p: int| 0 <= p < order.len() ==> #[trigger] order[p] < NUM_NODES
    &&& forall|id: usize| id < NUM_NODES ==> #[trigger] order.contains(id)
}

/// The place at which node `id` stands in `order`.
pub open spec fn position_of(order: Seq<usize>, id: int) -> int {
    order.index_of(id as usize)
}

/// First place of the leaf group of the relay at place `relay`.
pub open spec fn leaf_start(relay: int) -> int {
    1 + L1_SIZE + relay * L2_SIZE
}

/// The place is that of the root or of a relay.
pub open spec fn in_first_level(place: int) -> bool {
    0 <= place <= L1_SIZE
}

/// The place lies in the leaf group of some relay.
pub open spec fn in_leaf_groups(place: int) -> bool {
    leaf_start(1) <= place < leaf_start(L1_SIZE + 1)
}

/// For a place in a leaf group, the place of the relay that feeds it.
pub open spec fn relay_of(place: int) -> int {
    (place - 1 - L1_SIZE) / (L2_SIZE as int)
}

/// Every node stands at exactly one place of a node order.
pub proof fn lemma_position_of_id(order: Seq<usize>, id: int)
    requires
        is_node_order(order),
        0 <= id < NUM_NODES,
    ensures
        0 <= position_of(order, id) < NUM_NODES,
        order[position_of(order, id)] == id,
{
    assert(order.contains(id as usize));
}

/// The node at a place stands at that place and no other.
pub proof fn lemma_position_of_place(order: Seq<usize>, place: int)
    requires
        is_node_order(order),
        0 <= place < NUM_NODES,
    ensures
        position_of(order, order[place] as int) == place,
{
    lemma_position_of_id(order, order[place] as int);
}

/// The leaf groups lie behind the relays and within the order, one after
/// the other.
pub proof fn lemma_leaf_groups(relay: int)
    requires
        1 <= relay <= L1_SIZE,
    ensures
        L1_SIZE < leaf_start(relay),
        leaf_start(relay) + L2_SIZE == leaf_start(relay + 1),
        leaf_start(relay + 1) <= NUM_NODES,
        forall|place: int|
            leaf_start(relay) <= place < leaf_start(relay + 1) <==> in_leaf_groups(place)
                && #[trigger] relay_of(place) == relay,
{
    lemma_derived_sizes();
}

/// The broadcast tree of one shred.
pub struct Topology {
    pub order: Vec<usize>,
}

impl View for Topology {
    type V = Seq<usize>;

    open spec fn view(&self) -> Seq<usize> {
        self.order@
    }
}

impl Topology {
    /// The tree names every node exactly once.
    pub open spec fn wf(&self) -> bool {
        is_node_order(self@)
    }

    /// The tree of `shred` of `block`: the node ids, shuffled with the
    /// product of the two indices as the seed.
    pub fn generate(block: usize, shred: usize) -> (topology: Topology)
        ensures
            topology.wf(),
            topology@ == node_order(block, shred),
    {
        let mut order: Vec<usize> = Vec::with_capacity(NUM_NODES);
        let mut id: usize = 0;
        while id < NUM_NODES
            invariant
                id <= NUM_NODES,
                order@.len() == id,
                forall|j: int| 0 <= j < id ==> order@[j] == j,
            decreases NUM_NODES - id,
        {
            order.push(id);
            id += 1;
        }
        assert(order@ =~= identity_order());
        let seed = (shred as u64).wrapping_mul(block as u64);
        shuffle_seeded(&mut order, seed);
        proof {
            lemma_rearranged_identity(order@);
        }
        Topology { order }
    }

    /// The tree with the given order, where that names every node exactly
    /// once.
    pub fn from_order(order: Vec<usize>) -> (topology: Option<Topology>)
        ensures
            topology is Some <==> is_node_order(order@),
            topology matches Some(t) ==> t@ == order@,
    {
        if order.len() != NUM_NODES {
            return None;
        }
        let mut place_of: Vec<usize> = Vec::with_capacity(NUM_NODES);
        let mut id: usize = 0;
        while id < NUM_NODES
            invariant
                id <= NUM_NODES,
                place_of@.len() == id,
                forall|j: int| 0 <= j < id ==> place_of@[j] == NUM_NODES,
            decreases NUM_NODES - id,
        {
            place_of.push(NUM_NODES);
            id += 1;
        }
        let mut place: usize = 0;
        while place < NUM_NODES
            invariant
                place <= NUM_NODES,
                order@.len() == NUM_NODES,
                place_of@.len() == NUM_NODES,
                forall|p: int| 0 <= p < place ==> #[trigger] order@[p] < NUM_NODES,
                forall|p: int| 0 <= p < place ==> place_of@[#[trigger] order@[p] as int] == p,
                forall|j: int|
                    0 <= j < NUM_NODES ==> (#[trigger] place_of@[j] == NUM_NODES || (0
                        <= place_of@[j] < place && order@[place_of@[j] as int] == j)),
            decreases NUM_NODES - place,
        {
            let id = order[place];
            if id >= NUM_NODES {
                return None;
            }
            if place_of[id] != NUM_NODES {
                assert(order@[place_of@[id as int] as int] == order@[place as int]);
                return None;
            }
            place_of.set(id, place);
            place += 1;
        }
        assert forall|p: int, q: int|
            0 <= p < order@.len() && 0 <= q < order@.len() && p != q implies order@[p]
            != order@[q] by {
            assert(place_of@[order@[p] as int] == p);
            assert(place_of@[order@[q] as int] == q);
        }
        let mut id: usize = 0;
        while id < NUM_NODES
            invariant
                id <= NUM_NODES,
                order@.len() == NUM_NODES,
                place_of@.len() == NUM_NODES,
                forall|j: int|
                    0 <= j < NUM_NODES ==> (#[trigger] place_of@[j] == NUM_NODES || (0
                        <= place_of@[j] < NUM_NODES && order@[place_of@[j] as int] == j)),
                forall|p: int| 0 <= p < NUM_NODES ==> #[trigger] order@[p] < NUM_NODES,
                forall|p: int| 0 <= p < NUM_NODES ==> place_of@[#[trigger] order@[p] as int] == p,
                forall|j: usize| j < id ==> #[trigger] order@.contains(j),
            decreases NUM_NODES - id,
        {
            if place_of[id] == NUM_NODES {
                assert forall|p: int| 0 <= p < order@.len() implies order@[p] != id by {
                    assert(place_of@[order@[p] as int] == p);
                }
                assert(!order@.contains(id));
                return None;
            }
            assert(order@[place_of@[id as int] as int] == id);
            id += 1;
        }
        Some(Topology { order })
    }

    /// The node at `place`.
    pub fn at(&self, place: usize) -> (id: usize)
        requires
            self.wf(),
            place < NUM_NODES,
        ensures
            id == self@[place as int],
            id < NUM_NODES,
    {
        self.order[place]
    }

    /// The root: the node at the first place.
    pub fn root(&self) -> (id: usize)
        requires
            self.wf(),
        ensures
            id == self@[0],
            id < NUM_NODES,
    {
        self.order[0]
    }

    /// The relay at place `relay`, one of the `L1_SIZE` places behind the
    /// root.
    pub fn relay(&self, relay: usize) -> (id: usize)
        requires
            self.wf(),
            1 <= relay <= L1_SIZE,
        ensures
            id == self@[relay as int],
            id < NUM_NODES,
    {
        self.order[relay]
    }

    /// The `k`-th leaf of the relay at place `relay`.
    pub fn leaf(&self, relay: usize, k: usize) -> (id: usize)
        requires
            self.wf(),
            1 <= relay <= L1_SIZE,
            k < L2_SIZE,
        ensures
            id == self@[leaf_start(relay as int) + k],
            id < NUM_NODES,
    {
        proof {
            lemma_leaf_groups(relay as int);
        }
        self.order[1 + L1_SIZE + relay * L2_SIZE + k]
    }
}

/// A rearrangement of the rising order names every node exactly once.
proof fn lemma_rearranged_identity(order: Seq<usize>)
    requires
        order.to_multiset() == identity_order().to_multiset(),
    ensures
        is_node_order(order),
{
    let identity = identity_order();
    order.to_multiset_ensures();
    identity.to_multiset_ensures();
    assert(identity.no_duplicates());
    identity.lemma_multiset_has_no_duplicates();
    order.lemma_multiset_has_no_duplicates_conv();
    assert forall|p: int| 0 <= p < order.len() implies #[trigger] order[p] < NUM_NODES by {
        assert(order.contains(order[p]));
        assert(order.to_multiset().count(order[p]) > 0);
        assert(identity.to_multiset().count(order[p]) > 0);
        assert(identity.contains(order[p]));
    }
    assert forall|id: usize| id < NUM_NODES implies #[trigger] order.contains(id) by {
        assert(identity[id as int] == id);
        assert(identity.contains(id));
        assert(identity.to_multiset().count(id) > 0);
        assert(order.to_multiset().count(id) > 0);
    }
}

} // verus!
