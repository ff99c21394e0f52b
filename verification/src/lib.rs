//! A Monte-Carlo model of erasure-coded block propagation through a
//! two-level fan-out broadcast tree.
//!
//! A block is split into `BATCH_SIZE` shreds. For every shred the nodes are
//! put into a seeded random order whose prefix names the root, the relays and
//! the leaf group of each relay. Rounds of delivery and erasure recovery are
//! repeated until a round delivers nothing.

pub mod params;
pub mod roles;
pub mod node;
pub mod population;
pub mod topology;
pub mod propagation;
pub mod recovery;
pub mod reach;
pub mod trial;
pub mod laws;
