//! One node's shred bitmap, and erasure recovery on it.

use vstd::prelude::*;
use crate::params::{BATCH_SIZE, DATA_SHREDS, RECOVER_SIZE};

verus! {

/// Number of shreds that a bitmap holds.
pub open spec fn held_count(bits: Seq<bool>) -> nat
    decreases bits.len(),
{
    if bits.len() == 0 {
        0
    } else {
        held_count(bits.drop_last()) + if bits.last() {
            1nat
        } else {
            0nat
        }
    }
}

/// The bitmap holds every data shred.
pub open spec fn has_all_data(bits: Seq<bool>) -> bool {
    forall|i: int| 0 <= i < DATA_SHREDS ==> bits[i]
}

/// The bitmap with every data shred added; coding shreds stay as they are.
pub open spec fn with_data(bits: Seq<bool>) -> Seq<bool> {
    Seq::new(bits.len(), |i: int| i < DATA_SHREDS || bits[i])
}

/// The bitmap holds enough shreds, of whatever kind, to rebuild the block.
pub open spec fn can_recover(bits: Seq<bool>) -> bool {
    held_count(bits) >= RECOVER_SIZE
}

/// The bitmap after an attempt at recovery.
pub open spec fn after_recovery(bits: Seq<bool>) -> Seq<bool> {
    if can_recover(bits) {
        with_data(bits)
    } else {
        bits
    }
}

/// `after` holds every shred that `before` holds.
pub open spec fn grows(before: Seq<bool>, after: Seq<bool>) -> bool {
    &&& before.len() == after.len()
    &&& forall|i: int| 0 <= i < before.len() ==> (before[i] ==> after[i])
}

/// A bitmap holds no more shreds than it has places.
pub proof fn lemma_held_count_bound(bits: Seq<bool>)
    ensures
        held_count(bits) <= bits.len(),
    decreases bits.len(),
{
    if bits.len() > 0 {
        lemma_held_count_bound(bits.drop_last());
    }
}

/// A bitmap that gains shreds holds more of them, and strictly more unless
/// nothing changed.
pub proof fn lemma_held_count_grows(before: Seq<bool>, after: Seq<bool>)
    requires
        grows(before, after),
    ensures
        held_count(before) <= held_count(after),
        before != after ==> held_count(before) < held_count(after),
    decreases before.len(),
{
    if before.len() > 0 {
        let b = before.drop_last();
        let a = after.drop_last();
        lemma_held_count_grows(b, a);
        if b == a && before.last() == after.last() {
            assert forall|i: int| 0 <= i < before.len() implies before[i] == after[i] by {
                if i < before.len() - 1 {
                    assert(before[i] == b[i] && after[i] == a[i]);
                }
            }
            assert(before =~= after);
        }
    } else {
        assert(before =~= after);
    }
}

/// A node: which shreds of the current block it holds.
#[derive(Clone, Copy)]
pub struct Node {
    pub shreds: [bool; BATCH_SIZE],
}

impl View for Node {
    type V = Seq<bool>;

    open spec fn view(&self) -> Seq<bool> {
        self.shreds@
    }
}

impl Node {
    /// A node that holds nothing.
    pub fn new() -> (node: Node)
        ensures
            node@ == Seq::new(BATCH_SIZE as nat, |i: int| false),
    {
        let node = Node { shreds: [false; BATCH_SIZE] };
        assert(node@ =~= Seq::new(BATCH_SIZE as nat, |i: int| false));
        node
    }

    /// Whether the node holds `shred`.
    pub fn has(&self, shred: usize) -> (held: bool)
        requires
            shred < BATCH_SIZE,
        ensures
            held == self@[shred as int],
    {
        self.shreds[shred]
    }

    /// Marks `shred` as held.
    pub fn receive(&mut self, shred: usize)
        requires
            shred < BATCH_SIZE,
        ensures
            final(self)@ == old(self)@.update(shred as int, true),
    {
        self.shreds[shred] = true;
    }

    /// Number of shreds held.
    pub fn held(&self) -> (count: usize)
        ensures
            count == held_count(self@),
            count <= BATCH_SIZE,
    {
        let mut count: usize = 0;
        let mut i: usize = 0;
        while i < BATCH_SIZE
            invariant
                i <= BATCH_SIZE,
                self@.len() == BATCH_SIZE,
                count == held_count(self@.take(i as int)),
                count <= i,
            decreases BATCH_SIZE - i,
        {
            assert(self@.take(i + 1).drop_last() =~= self@.take(i as int));
            if self.shreds[i] {
                count += 1;
            }
            i += 1;
        }
        assert(self@.take(BATCH_SIZE as int) =~= self@);
        count
    }

    /// Whether every data shred is held.
    pub fn has_full_data(&self) -> (full: bool)
        ensures
            full == has_all_data(self@),
    {
        let mut i: usize = 0;
        while i < DATA_SHREDS
            invariant
                i <= DATA_SHREDS,
                forall|j: int| 0 <= j < i ==> self@[j],
            decreases DATA_SHREDS - i,
        {
            if !self.shreds[i] {
                return false;
            }
            i += 1;
        }
        true
    }

    /// Erasure recovery: a node that holds at least `RECOVER_SIZE` shreds,
    /// of whatever kind, gains every data shred. Returns whether it did.
    pub fn recover(&mut self) -> (rebuilt: bool)
        ensures
            rebuilt == can_recover(old(self)@),
            final(self)@ == after_recovery(old(self)@),
    {
        if self.held() >= RECOVER_SIZE {
            let mut i: usize = 0;
            while i < DATA_SHREDS
                invariant
                    i <= DATA_SHREDS,
                    self@.len() == BATCH_SIZE,
                    forall|j: int| 0 <= j < BATCH_SIZE ==> self@[j] == (j < i || old(self)@[j]),
                decreases DATA_SHREDS - i,
            {
                self.shreds[i] = true;
                i += 1;
            }
            assert(self@ =~= with_data(old(self)@));
            true
        } else {
            false
        }
    }
}

impl Default for Node {
    fn default() -> (node: Node)
        ensures
            node@ == Seq::new(BATCH_SIZE as nat, |i: int| false),
    {
        Node::new()
    }
}

} // verus!
