//! The set of points that a graph search has seen.

use vstd::prelude::*;

verus! {

/// Whether bit `i` of a word is set.
pub open spec fn word_bit(word: u64, i: u32) -> bool {
    word & (1u64 << (i as u64)) != 0
}

/// A set of point ids, one bit each.
pub struct VisitedSet {
    bits: Vec<u64>,
}

impl View for VisitedSet {
    type V = Set<u32>;

    closed spec fn view(&self) -> Set<u32> {
        Set::new(
            |id: u32| id < 64 * self.bits@.len() && word_bit(self.bits@[id as int / 64], id % 64),
        )
    }
}

impl VisitedSet {
    /// Ids below this bound can be marked.
    pub closed spec fn bound(&self) -> nat {
        64 * self.bits@.len()
    }

    /// An empty set with room for the ids below `n`.
    pub fn new(n: u32) -> (r: Self)
        ensures
            r@ == Set::<u32>::empty(),
            n <= r.bound() < n + 64,
    {
        let words: usize = (n / 64) as usize + if n % 64 == 0 {
            0usize
        } else {
            1usize
        };
        let r = VisitedSet { bits: vec![0u64; words] };
        proof {
            assert forall|id: u32| !r@.contains(id) by {
                if id < 64 * r.bits@.len() {
                    let i = (id % 64) as u64;
                    assert(r.bits@[id as int / 64] == 0);
                    assert(0u64 & (1u64 << i) == 0) by (bit_vector);
                }
            }
            assert(r@ =~= Set::<u32>::empty());
        }
        r
    }

    /// Adds an id; tells whether it is new.
    pub fn mark(&mut self, id: u32) -> (r: bool)
        requires
            id < old(self).bound(),
        ensures
            r == !old(self)@.contains(id),
            final(self)@ == old(self)@.insert(id),
            final(self).bound() == old(self).bound(),
    {
        let word: usize = (id / 64) as usize;
        let i: u64 = (id % 64) as u64;
        assert((1u64 << i) != 0) by (bit_vector)
            requires
                i < 64,
        ;
        let bit: u64 = 1u64 << i;
        if self.bits[word] & bit != 0 {
            assert(self@ =~= old(self)@.insert(id));
            return false;
        }
        let before: u64 = self.bits[word];
        self.bits[word] = before | bit;
        proof {
            let after = before | bit;
            assert forall|other: u32| self@.contains(other) == old(self)@.insert(
                id,
            ).contains(other) by {
                let j = (other % 64) as u64;
                assert((after & (1u64 << j) != 0) == (before & (1u64 << j) != 0 || j == i))
                    by (bit_vector)
                    requires
                        after == before | (1u64 << i),
                        i < 64,
                        j < 64,
                ;
                if other / 64 == id / 64 && j == i {
                    assert(other == id);
                }
            }
            assert(self@ =~= old(self)@.insert(id));
        }
        true
    }
}

} // verus!
