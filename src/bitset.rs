use vstd::prelude::*;

verus! {

/// Whether bit `i` of `b` is set.
pub open spec fn bit(b: u32, i: u32) -> bool {
    (b >> i) & 1u32 == 1u32
}

proof fn lemma_bit_set(b: u32, i: u32, j: u32)
    by (bit_vector)
    requires
        i < 32,
        j < 32,
    ensures
        bit(b | (1u32 << i), j) == (bit(b, j) || i == j),
{
}

proof fn lemma_bit_or(a: u32, b: u32, j: u32)
    by (bit_vector)
    requires
        j < 32,
    ensures
        bit(a | b, j) == (bit(a, j) || bit(b, j)),
{
}

proof fn lemma_bit_and(a: u32, b: u32, j: u32)
    by (bit_vector)
    requires
        j < 32,
    ensures
        bit(a & b, j) == (bit(a, j) && bit(b, j)),
{
}

proof fn lemma_bit_zero(j: u32)
    by (bit_vector)
    requires
        j < 32,
    ensures
        !bit(0u32, j),
{
}

proof fn lemma_nonzero_has_bit(b: u32)
    by (bit_vector)
    requires
        b != 0u32,
    ensures
        bit(b, 0u32) ||
            bit(b, 1u32) ||
            bit(b, 2u32) ||
            bit(b, 3u32) ||
            bit(b, 4u32) ||
            bit(b, 5u32) ||
            bit(b, 6u32) ||
            bit(b, 7u32) ||
            bit(b, 8u32) ||
            bit(b, 9u32) ||
            bit(b, 10u32) ||
            bit(b, 11u32) ||
            bit(b, 12u32) ||
            bit(b, 13u32) ||
            bit(b, 14u32) ||
            bit(b, 15u32) ||
            bit(b, 16u32) ||
            bit(b, 17u32) ||
            bit(b, 18u32) ||
            bit(b, 19u32) ||
            bit(b, 20u32) ||
            bit(b, 21u32) ||
            bit(b, 22u32) ||
            bit(b, 23u32) ||
            bit(b, 24u32) ||
            bit(b, 25u32) ||
            bit(b, 26u32) ||
            bit(b, 27u32) ||
            bit(b, 28u32) ||
            bit(b, 29u32) ||
            bit(b, 30u32) ||
            bit(b, 31u32),
{
}

/// A set of small numbers (below 32), such as the edges of a cell or the
/// corners of a cell.
#[derive(Clone, Copy, Debug, PartialEq, Eq, Structural, Hash)]
pub struct BitSet {
    pub bits: u32,
}

impl BitSet {
    /// Whether `i` is in the set.
    pub open spec fn has(self, i: nat) -> bool {
        i < 32 && bit(self.bits, i as u32)
    }

    /// Whether the two sets share an element.
    pub open spec fn meets(self, o: BitSet) -> bool {
        exists|i: nat| self.has(i) && o.has(i)
    }

    /// The empty set.
    pub fn zero() -> (r: BitSet)
        ensures
            forall|i: nat| !r.has(i),
            r.bits == 0,
    {
        proof {
            assert forall|i: nat| !BitSet { bits: 0 }.has(i) by {
                if i < 32 {
                    lemma_bit_zero(i as u32);
                }
            }
        }
        BitSet { bits: 0 }
    }

    /// Adds `i` to the set.
    pub fn set(&mut self, i: usize)
        requires
            i < 32,
        ensures
            forall|j: nat| final(self).has(j) == (old(self).has(j) || j == i),
    {
        let ghost b = self.bits;
        self.bits = self.bits | (1u32 << (i as u32));
        proof {
            assert forall|j: nat| self.has(j) == (BitSet { bits: b }.has(j) || j == i) by {
                if j < 32 {
                    lemma_bit_set(b, i as u32, j as u32);
                }
            }
        }
    }

    /// Whether `i` is in the set.
    pub fn get(&self, i: usize) -> (r: bool)
        ensures
            r == self.has(i as nat),
    {
        if i >= 32 {
            false
        } else {
            (self.bits >> (i as u32)) & 1u32 == 1u32
        }
    }

    /// The union of the two sets.
    pub fn merge(&self, o: BitSet) -> (r: BitSet)
        ensures
            forall|j: nat| r.has(j) == (self.has(j) || o.has(j)),
    {
        let r = BitSet { bits: self.bits | o.bits };
        proof {
            assert forall|j: nat| r.has(j) == (self.has(j) || o.has(j)) by {
                if j < 32 {
                    lemma_bit_or(self.bits, o.bits, j as u32);
                }
            }
        }
        r
    }

    /// The intersection of the two sets.
    pub fn intersect(&self, o: BitSet) -> (r: BitSet)
        ensures
            forall|j: nat| r.has(j) == (self.has(j) && o.has(j)),
    {
        let r = BitSet { bits: self.bits & o.bits };
        proof {
            assert forall|j: nat| r.has(j) == (self.has(j) && o.has(j)) by {
                if j < 32 {
                    lemma_bit_and(self.bits, o.bits, j as u32);
                }
            }
        }
        r
    }

    /// Whether the set has no element.
    pub fn empty(&self) -> (r: bool)
        ensures
            r == (forall|i: nat| !self.has(i)),
    {
        proof {
            if self.bits != 0 {
                lemma_nonzero_has_bit(self.bits);
                assert(
                    self.has(0) || self.has(1) || self.has(2) || self.has(3) || self.has(4) || self.has(5) ||
                    self.has(6) || self.has(7) || self.has(8) || self.has(9) || self.has(10) || self.has(11) ||
                    self.has(12) || self.has(13) || self.has(14) || self.has(15) || self.has(16) || self.has(17) ||
                    self.has(18) || self.has(19) || self.has(20) || self.has(21) || self.has(22) || self.has(23) ||
                    self.has(24) || self.has(25) || self.has(26) || self.has(27) || self.has(28) || self.has(29) ||
                    self.has(30) || self.has(31)
                );
            } else {
                assert forall|i: nat| !self.has(i) by {
                    if i < 32 {
                        lemma_bit_zero(i as u32);
                    }
                }
            }
        }
        self.bits == 0
    }

    /// Whether the two sets share an element.
    pub fn meets_exec(&self, o: BitSet) -> (r: bool)
        ensures
            r == self.meets(o),
    {
        let both = self.intersect(o);
        !both.empty()
    }

    /// The set as a number: bit `i` is set iff `i` is in the set.
    pub fn as_u32(&self) -> (r: u32)
        ensures
            r == self.bits,
    {
        self.bits
    }

    /// The set of the four numbers given (which need not differ).
    pub fn from_4bits(a: usize, b: usize, c: usize, d: usize) -> (r: BitSet)
        requires
            a < 32,
            b < 32,
            c < 32,
            d < 32,
        ensures
            forall|j: nat| r.has(j) == (j == a || j == b || j == c || j == d),
    {
        let mut r = BitSet::zero();
        r.set(a);
        r.set(b);
        r.set(c);
        r.set(d);
        r
    }

    /// The elements of the set, in increasing order.
    pub fn members(&self) -> (r: Vec<usize>)
        ensures
            forall|k: int| 0 <= k < r@.len() ==> self.has(#[trigger] r@[k] as nat),
            forall|i: nat| self.has(i) ==> r@.contains(i as usize),
            forall|k: int, l: int| 0 <= k < l < r@.len() ==> r@[k] < r@[l],
    {
        let mut r: Vec<usize> = Vec::new();
        let mut i: usize = 0;
        while i < 32
            invariant
                i <= 32,
                forall|k: int| 0 <= k < r@.len() ==> self.has(#[trigger] r@[k] as nat) && r@[k] < i,
                forall|j: nat| j < i && self.has(j) ==> r@.contains(j as usize),
                forall|k: int, l: int| 0 <= k < l < r@.len() ==> r@[k] < r@[l],
            decreases 32 - i,
        {
            if self.get(i) {
                let ghost before = r@;
                r.push(i);
                assert(r@[r@.len() - 1] == i);
                assert forall|j: nat| j <= i && self.has(j) implies r@.contains(j as usize) by {
                    if j < i {
                        let k = choose|k: int| 0 <= k < before.len() && before[k] == j as usize;
                        assert(r@[k] == j as usize);
                    }
                }
            }
            i = i + 1;
        }
        r
    }
}

} // verus!
