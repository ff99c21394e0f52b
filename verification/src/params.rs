//! The fixed shape of the network and of a block.

use vstd::prelude::*;

verus! {

/// Shreds per block, data and coding together.
pub const BATCH_SIZE: usize = 64;

/// Shreds a node must hold to rebuild the block.
pub const RECOVER_SIZE: usize = 32;

/// Leading shreds that carry the block's data; recovery yields exactly these.
pub const DATA_SHREDS: usize = RECOVER_SIZE;

/// Nodes in the network.
pub const NUM_NODES: usize = 10_000;

/// Relays fed directly by the root.
pub const L1_SIZE: usize = 200;

/// Nodes left once the root and the relays are taken.
pub const L2_NODES: usize = NUM_NODES - L1_SIZE - 1;

/// Leaves fed by one relay; the division truncates.
pub const L2_SIZE: usize = L2_NODES / L1_SIZE;

/// The derived sizes in numbers: the leaf groups hold 48 nodes each, and
/// together with the root and the relays they leave 199 nodes out.
pub proof fn lemma_derived_sizes()
    ensures
        L2_NODES == 9_799,
        L2_SIZE == 48,
        1 + L1_SIZE + L1_SIZE * L2_SIZE + 199 == NUM_NODES,
{
}

} // verus!
