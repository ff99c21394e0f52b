//! Erasure recovery at the nodes that a round of delivery has touched.

use vstd::prelude::*;
use vstd::std_specs::iter::IteratorSpec;
use std::collections::HashSet;
use crate::node::{after_recovery, grows};
use crate::params::{BATCH_SIZE, NUM_NODES};
use crate::population::{Population, is_state, state_grows};
use crate::roles::Roles;

verus! {

broadcast use vstd::std_specs::hash::group_hash_axioms;

/// The state once every node of `touched` has attempted recovery.
pub open spec fn after_recoveries(state: Seq<Seq<bool>>, touched: Set<usize>) -> Seq<Seq<bool>> {
    Seq::new(
        state.len(),
        |id: int|
            if touched.contains(id as usize) {
                after_recovery(state[id])
            } else {
                state[id]
            },
    )
}

/// Recovery leaves a state a state and takes nothing away.
pub proof fn lemma_recoveries_grow(state: Seq<Seq<bool>>, touched: Set<usize>)
    requires
        is_state(state),
    ensures
        is_state(after_recoveries(state, touched)),
        state_grows(state, after_recoveries(state, touched)),
{
    let after = after_recoveries(state, touched);
    assert forall|id: int| 0 <= id < state.len() implies (#[trigger] after[id]).len()
        == BATCH_SIZE by {
        assert(state[id].len() == BATCH_SIZE);
    }
    assert forall|id: int| 0 <= id < state.len() implies grows(#[trigger] state[id], after[id]) by {
        assert(state[id].len() == BATCH_SIZE);
    }
}

/// Where nobody was touched, recovery changes nothing.
pub proof fn lemma_no_recoveries(state: Seq<Seq<bool>>)
    ensures
        after_recoveries(state, Set::<usize>::empty()) == state,
{
    assert(after_recoveries(state, Set::<usize>::empty()) =~= state);
}

/// An element of the first `n + 1` keys is one of the first `n` or the
/// `n`-th.
proof fn lemma_next_key(keys: Seq<usize>, n: int, id: usize)
    requires
        0 <= n < keys.len(),
    ensures
        keys.take(n + 1).contains(id) <==> keys.take(n).contains(id) || keys[n] == id,
{
    let shorter = keys.take(n);
    let longer = keys.take(n + 1);
    if shorter.contains(id) {
        let j = choose|j: int| 0 <= j < shorter.len() && shorter[j] == id;
        assert(longer[j] == id);
    }
    if keys[n] == id {
        assert(longer[n] == id);
    }
    if longer.contains(id) {
        let j = choose|j: int| 0 <= j < longer.len() && longer[j] == id;
        if j < n {
            assert(shorter[j] == id);
        }
    }
}

/// Attempts recovery at every node of `touched`: each of them that holds at
/// least `RECOVER_SIZE` shreds gains every data shred. The order in which
/// the nodes are visited does not matter: each node's recovery reads and
/// writes that node's bitmap alone.
///
/// A touched node is online: delivery touches no other.
pub fn recover_touched(nodes: &mut Population, touched: &HashSet<usize>, roles: &Roles)
    requires
        old(nodes).wf(),
        forall|id: usize|
            #[trigger] touched@.contains(id) ==> id < NUM_NODES && roles.is_online(id as int),
    ensures
        final(nodes).wf(),
        final(nodes)@ == after_recoveries(old(nodes)@, touched@),
        state_grows(old(nodes)@, final(nodes)@),
{
    let ghost start = nodes@;
    let ghost keys: Seq<usize> = touched.iter().remaining().unref();
    let ghost mut done: int = 0;
    proof {
        assert(keys.to_set() == touched@);
        assert(keys.no_duplicates()) by {
            let refs = touched.iter().remaining();
            assert forall|i: int, j: int|
                0 <= i < keys.len() && 0 <= j < keys.len() && i != j implies keys[i]
                != keys[j] by {
                assert(refs[i] != refs[j]);
            }
        }
        assert(nodes@ =~= after_recoveries(start, keys.take(0).to_set()));
    }
    for id in it: touched.iter()
        invariant
            nodes.wf(),
            is_state(start),
            it.seq().unref() == keys,
            keys.to_set() == touched@,
            keys.no_duplicates(),
            done == it.index(),
            0 <= done <= keys.len(),
            forall|id: usize| #[trigger] touched@.contains(id) ==> id < NUM_NODES,
            nodes@ == after_recoveries(start, keys.take(done).to_set()),
    {
        let id = *id;
        proof {
            assert(keys[done] == id);
            assert(keys.contains(id));
            assert(touched@.contains(id));
            assert(!keys.take(done).contains(id)) by {
                if keys.take(done).contains(id) {
                    let seen = keys.take(done);
                    let j = choose|j: int| 0 <= j < seen.len() && seen[j] == id;
                    assert(keys[j] == keys[done]);
                }
            }
        }
        nodes.recover(id);
        proof {
            let next = after_recoveries(start, keys.take(done + 1).to_set());
            assert forall|other: int| 0 <= other < start.len() implies nodes@[other]
                == next[other] by {
                lemma_next_key(keys, done, other as usize);
            }
            assert(nodes@ =~= next);
            done = done + 1;
        }
    }
    proof {
        assert(keys.take(done) =~= keys);
        lemma_recoveries_grow(start, touched@);
    }
}

} // verus!
