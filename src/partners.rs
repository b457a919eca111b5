//! The partner association of one pairing pass: for each winning key, the
//! keys it beat, handed back last-paired-first. Keys may repeat, so the same
//! key can hold several partners at once.
use vstd::prelude::*;

verus! {

/// Pairs `(winner, partner)` in the order they were recorded. Looking up a
/// winner takes the most recently recorded pair with that key.
pub struct PartnerStacks {
    entries: Vec<(usize, usize)>,
}

impl View for PartnerStacks {
    type V = Seq<(usize, usize)>;

    closed spec fn view(&self) -> Seq<(usize, usize)> {
        self.entries@
    }
}

/// Whether some recorded pair has `key` as its winner.
pub open spec fn has_key(pairs: Seq<(usize, usize)>, key: usize) -> bool {
    exists|j: int| 0 <= j < pairs.len() && (#[trigger] pairs[j]).0 == key
}

impl PartnerStacks {
    /// An association with nothing recorded.
    pub fn new() -> (r: PartnerStacks)
        ensures
            r@ == Seq::<(usize, usize)>::empty(),
    {
        PartnerStacks { entries: Vec::new() }
    }

    /// Records that `winner` beat `partner`.
    pub fn push(&mut self, winner: usize, partner: usize)
        ensures
            final(self)@ == old(self)@.push((winner, partner)),
    {
        self.entries.push((winner, partner));
    }

    /// Takes out the most recently recorded pair whose winner is `winner`,
    /// and returns its partner.
    pub fn pop(&mut self, winner: usize) -> (r: usize)
        requires
            has_key(old(self)@, winner),
        ensures
            exists|j: int|
                0 <= j < old(self)@.len() && old(self)@[j] == (winner, r) && final(self)@
                    == old(self)@.remove(j) && forall|k: int|
                    j < k < old(self)@.len() ==> (#[trigger] old(self)@[k]).0 != winner,
    {
        let mut j = self.entries.len();
        while j > 0 && self.entries[j - 1].0 != winner
            invariant
                j <= self.entries.len(),
                has_key(self.entries@, winner),
                forall|k: int| j <= k < self.entries.len() ==> (#[trigger] self.entries@[k]).0 != winner,
            decreases j,
        {
            j -= 1;
        }
        if j == 0 {
            proof {
                let k = choose|k: int| 0 <= k < self.entries.len() && (#[trigger] self.entries@[k]).0 == winner;
                assert(self.entries@[k].0 == winner);
            }
        }
        let e = self.entries.remove(j - 1);
        e.1
    }
}

} // verus!
