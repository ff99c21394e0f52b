//! Which nodes are online and which are malicious.

use vstd::prelude::*;
use crate::params::NUM_NODES;

verus! {

/// The role of every node, given by two counts: node `id` is online when
/// `id` is below the online count and malicious when it is below the
/// malicious count.
#[derive(Clone, Copy, Debug)]
pub struct Roles {
    online_count: usize,
    malicious_count: usize,
}

impl Roles {
    /// Number of online nodes.
    pub closed spec fn online_nodes(self) -> nat {
        self.online_count as nat
    }

    /// Number of malicious nodes.
    pub closed spec fn malicious_nodes(self) -> nat {
        self.malicious_count as nat
    }

    /// The malicious nodes are online nodes, and the online nodes are nodes
    /// of the network.
    pub open spec fn well_formed(self) -> bool {
        self.malicious_nodes() <= self.online_nodes() <= NUM_NODES
    }

    #[verifier::type_invariant]
    spec fn inv(self) -> bool {
        self.well_formed()
    }

    /// Node `id` is online.
    pub open spec fn is_online(self, id: int) -> bool {
        0 <= id < self.online_nodes()
    }

    /// Node `id` is malicious.
    pub open spec fn is_malicious(self, id: int) -> bool {
        0 <= id < self.malicious_nodes()
    }

    /// Roles with the given counts, or `None` where the counts name more
    /// online nodes than the network has or more malicious nodes than
    /// online ones.
    pub fn new(online_count: usize, malicious_count: usize) -> (roles: Option<Roles>)
        ensures
            roles is Some <==> malicious_count <= online_count <= NUM_NODES,
            roles matches Some(r) ==> {
                &&& r.online_nodes() == online_count
                &&& r.malicious_nodes() == malicious_count
                &&& r.well_formed()
            },
    {
        if malicious_count <= online_count && online_count <= NUM_NODES {
            Some(Roles { online_count, malicious_count })
        } else {
            None
        }
    }

    /// Number of online nodes; never above the size of the network.
    pub fn online_count(&self) -> (count: usize)
        ensures
            count == self.online_nodes(),
            count <= NUM_NODES,
            self.well_formed(),
    {
        proof {
            use_type_invariant(self);
        }
        self.online_count
    }

    /// Number of malicious nodes; never above the number of online nodes.
    pub fn malicious_count(&self) -> (count: usize)
        ensures
            count == self.malicious_nodes(),
            count <= self.online_nodes(),
            self.well_formed(),
    {
        proof {
            use_type_invariant(self);
        }
        self.malicious_count
    }

    /// Whether node `id` is online.
    pub fn online(&self, id: usize) -> (yes: bool)
        ensures
            yes == self.is_online(id as int),
    {
        id < self.online_count
    }

    /// Whether node `id` is malicious.
    pub fn malicious(&self, id: usize) -> (yes: bool)
        ensures
            yes == self.is_malicious(id as int),
    {
        id < self.malicious_count
    }
}

} // verus!
