//! The nodes of one trial, and the measures by which a trial makes progress.
//!
//! The state of a trial is modelled as a `Seq<Seq<bool>>`: one bitmap of
//! `BATCH_SIZE` places for each node id.

use vstd::prelude::*;
use crate::node::{
    Node, after_recovery, can_recover, grows, has_all_data, held_count, lemma_held_count_bound,
    lemma_held_count_grows,
};
use crate::params::{BATCH_SIZE, NUM_NODES};

verus! {

/// One bitmap of `BATCH_SIZE` places for each node of the network.
pub open spec fn is_state(state: Seq<Seq<bool>>) -> bool {
    &&& state.len() == NUM_NODES
    &&& forall|id: int| 0 <= id < state.len() ==> (#[trigger] state[id]).len() == BATCH_SIZE
}

/// The state at the start of a trial: nobody holds anything.
pub open spec fn fresh_state() -> Seq<Seq<bool>> {
    Seq::new(NUM_NODES as nat, |id: int| Seq::new(BATCH_SIZE as nat, |shred: int| false))
}

/// Every node of `after` holds what it holds in `before`.
pub open spec fn state_grows(before: Seq<Seq<bool>>, after: Seq<Seq<bool>>) -> bool {
    &&& before.len() == after.len()
    &&& forall|id: int| 0 <= id < before.len() ==> grows(#[trigger] before[id], after[id])
}

/// The nodes whose bitmap differs between the two states.
pub open spec fn changed(before: Seq<Seq<bool>>, after: Seq<Seq<bool>>) -> Set<usize> {
    Set::new(|id: usize| id < before.len() && before[id as int] != after[id as int])
}

/// Number of shreds held, over all nodes.
pub open spec fn held_total(state: Seq<Seq<bool>>) -> nat
    decreases state.len(),
{
    if state.len() == 0 {
        0
    } else {
        held_total(state.drop_last()) + held_count(state.last())
    }
}

/// No state holds more than every shred at every node.
pub proof fn lemma_held_total_bound(state: Seq<Seq<bool>>)
    requires
        forall|id: int| 0 <= id < state.len() ==> (#[trigger] state[id]).len() == BATCH_SIZE,
    ensures
        held_total(state) <= state.len() * BATCH_SIZE,
    decreases state.len(),
{
    if state.len() > 0 {
        let rest = state.drop_last();
        assert forall|id: int| 0 <= id < rest.len() implies (#[trigger] rest[id]).len()
            == BATCH_SIZE by {
            assert(rest[id] == state[id]);
        }
        lemma_held_total_bound(rest);
        lemma_held_count_bound(state.last());
        assert(rest.len() * BATCH_SIZE + BATCH_SIZE == state.len() * BATCH_SIZE)
            by (nonlinear_arith)
            requires
                rest.len() + 1 == state.len(),
        ;
    }
}

/// A state that grows holds more shreds, and strictly more unless nothing
/// changed.
pub proof fn lemma_held_total_grows(before: Seq<Seq<bool>>, after: Seq<Seq<bool>>)
    requires
        state_grows(before, after),
    ensures
        held_total(before) <= held_total(after),
        before != after ==> held_total(before) < held_total(after),
    decreases before.len(),
{
    if before.len() > 0 {
        let b = before.drop_last();
        let a = after.drop_last();
        assert forall|id: int| 0 <= id < b.len() implies grows(#[trigger] b[id], a[id]) by {
            assert(b[id] == before[id] && a[id] == after[id]);
            assert(grows(before[id], after[id]));
        }
        lemma_held_total_grows(b, a);
        assert(grows(before[before.len() - 1], after[before.len() - 1]));
        lemma_held_count_grows(before.last(), after.last());
        if b == a && before.last() == after.last() {
            assert forall|id: int| 0 <= id < before.len() implies before[id] == after[id] by {
                if id < before.len() - 1 {
                    assert(before[id] == b[id] && after[id] == a[id]);
                }
            }
            assert(before =~= after);
        }
    } else {
        assert(before =~= after);
    }
}

/// Growth is transitive.
pub proof fn lemma_state_grows_trans(a: Seq<Seq<bool>>, b: Seq<Seq<bool>>, c: Seq<Seq<bool>>)
    requires
        state_grows(a, b),
        state_grows(b, c),
    ensures
        state_grows(a, c),
{
    assert forall|id: int| 0 <= id < a.len() implies grows(#[trigger] a[id], c[id]) by {
        assert(grows(a[id], b[id]));
        assert(grows(b[id], c[id]));
    }
}

/// Two states that each hold what the other holds are one state.
pub proof fn lemma_state_grows_antisym(a: Seq<Seq<bool>>, b: Seq<Seq<bool>>)
    requires
        state_grows(a, b),
        state_grows(b, a),
    ensures
        a == b,
{
    assert forall|id: int| 0 <= id < a.len() implies a[id] == b[id] by {
        assert(grows(a[id], b[id]));
        assert(grows(b[id], a[id]));
        assert(a[id] =~= b[id]);
    }
    assert(a =~= b);
}

/// Two states with no changed node between them are one state.
pub proof fn lemma_unchanged_is_equal(before: Seq<Seq<bool>>, after: Seq<Seq<bool>>)
    requires
        before.len() == after.len(),
        before.len() <= usize::MAX,
        changed(before, after) =~= Set::<usize>::empty(),
    ensures
        before == after,
{
    assert forall|id: int| 0 <= id < before.len() implies before[id] == after[id] by {
        assert(!changed(before, after).contains(id as usize));
    }
    assert(before =~= after);
}

/// Over two steps of growth, the nodes that changed are those that changed
/// in either step.
pub proof fn lemma_changed_accumulates(a: Seq<Seq<bool>>, b: Seq<Seq<bool>>, c: Seq<Seq<bool>>)
    requires
        state_grows(a, b),
        state_grows(b, c),
    ensures
        changed(a, c) == changed(a, b).union(changed(b, c)),
{
    assert forall|id: usize| changed(a, c).contains(id) <==> (changed(a, b).contains(id)
        || changed(b, c).contains(id)) by {
        if id < a.len() {
            let i = id as int;
            assert(grows(a[i], b[i]));
            assert(grows(b[i], c[i]));
            if a[i] == c[i] {
                assert(a[i] =~= b[i]);
            }
        }
    }
    assert(changed(a, c) =~= changed(a, b).union(changed(b, c)));
}

/// The nodes of one trial.
pub struct Population {
    pub nodes: Vec<Node>,
}

impl View for Population {
    type V = Seq<Seq<bool>>;

    open spec fn view(&self) -> Seq<Seq<bool>> {
        Seq::new(self.nodes@.len(), |id: int| self.nodes@[id]@)
    }
}

impl Population {
    /// The population has one node for each node id.
    pub open spec fn wf(&self) -> bool {
        self.nodes@.len() == NUM_NODES
    }

    /// A fresh population: `NUM_NODES` nodes that hold nothing.
    pub fn new() -> (population: Population)
        ensures
            population.wf(),
            population@ == fresh_state(),
    {
        let mut nodes: Vec<Node> = Vec::with_capacity(NUM_NODES);
        let mut id: usize = 0;
        while id < NUM_NODES
            invariant
                id <= NUM_NODES,
                nodes@.len() == id,
                forall|j: int| 0 <= j < id ==> (#[trigger] nodes@[j])@ == Seq::new(
                    BATCH_SIZE as nat,
                    |shred: int| false,
                ),
            decreases NUM_NODES - id,
        {
            nodes.push(Node::new());
            id += 1;
        }
        let population = Population { nodes };
        assert(population@ =~= fresh_state());
        population
    }

    /// Whether node `id` holds `shred`.
    pub fn holds(&self, id: usize, shred: usize) -> (held: bool)
        requires
            self.wf(),
            id < NUM_NODES,
            shred < BATCH_SIZE,
        ensures
            held == self@[id as int][shred as int],
    {
        self.nodes[id].has(shred)
    }

    /// Hands `shred` to node `id`.
    pub fn deliver(&mut self, id: usize, shred: usize)
        requires
            old(self).wf(),
            id < NUM_NODES,
            shred < BATCH_SIZE,
        ensures
            final(self).wf(),
            final(self)@ == old(self)@.update(
                id as int,
                old(self)@[id as int].update(shred as int, true),
            ),
    {
        self.nodes[id].shreds[shred] = true;
        assert(self@ =~= old(self)@.update(
            id as int,
            old(self)@[id as int].update(shred as int, true),
        ));
    }

    /// Number of shreds that node `id` holds.
    pub fn held(&self, id: usize) -> (count: usize)
        requires
            self.wf(),
            id < NUM_NODES,
        ensures
            count == held_count(self@[id as int]),
            count <= BATCH_SIZE,
    {
        self.nodes[id].held()
    }

    /// Whether node `id` holds every data shred.
    pub fn has_full_data(&self, id: usize) -> (full: bool)
        requires
            self.wf(),
            id < NUM_NODES,
        ensures
            full == has_all_data(self@[id as int]),
    {
        self.nodes[id].has_full_data()
    }

    /// Erasure recovery at node `id`. Returns whether the node held enough
    /// shreds to rebuild the block.
    pub fn recover(&mut self, id: usize) -> (rebuilt: bool)
        requires
            old(self).wf(),
            id < NUM_NODES,
        ensures
            final(self).wf(),
            rebuilt == can_recover(old(self)@[id as int]),
            final(self)@ == old(self)@.update(id as int, after_recovery(old(self)@[id as int])),
    {
        let mut node = self.nodes[id];
        let rebuilt = node.recover();
        self.nodes[id] = node;
        assert(self@ =~= old(self)@.update(id as int, after_recovery(old(self)@[id as int])));
        rebuilt
    }
}

} // verus!
