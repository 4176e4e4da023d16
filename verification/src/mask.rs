//! 64-bit masks: signal tags, active levels and occlusion arcs.

use vstd::prelude::*;

verus! {

/// Whether bit `i` (counted from the least significant bit) of `bits` is set.
pub open spec fn bit_set(bits: u64, i: int) -> bool {
    0 <= i < 64 && ((bits >> (i as u64)) & 1u64) == 1u64
}

pub proof fn lemma_bit_insert(b: u64, i: u64, j: u64)
    by (bit_vector)
    requires
        i < 64,
        j < 64,
    ensures
        (((b | (1u64 << i)) >> j) & 1u64 == 1u64) == (((b >> j) & 1u64 == 1u64) || i == j),
{
}

pub proof fn lemma_bit_erase(b: u64, i: u64, j: u64)
    by (bit_vector)
    requires
        i < 64,
        j < 64,
    ensures
        (((b & !(1u64 << i)) >> j) & 1u64 == 1u64) == (((b >> j) & 1u64 == 1u64) && i != j),
{
}

pub proof fn lemma_bit_and(a: u64, b: u64, j: u64)
    by (bit_vector)
    requires
        j < 64,
    ensures
        (((a & b) >> j) & 1u64 == 1u64) == (((a >> j) & 1u64 == 1u64) && ((b >> j) & 1u64
            == 1u64)),
{
}

pub proof fn lemma_bit_or(a: u64, b: u64, j: u64)
    by (bit_vector)
    requires
        j < 64,
    ensures
        (((a | b) >> j) & 1u64 == 1u64) == (((a >> j) & 1u64 == 1u64) || ((b >> j) & 1u64
            == 1u64)),
{
}

pub proof fn lemma_bit_not(a: u64, j: u64)
    by (bit_vector)
    requires
        j < 64,
    ensures
        (((!a) >> j) & 1u64 == 1u64) == !((a >> j) & 1u64 == 1u64),
{
}

/// The tag bits that the engine gives its signals.
#[derive(Clone, Copy, PartialEq, Eq, Structural, Debug)]
pub enum Bit {
    BoundingVolume,
    Occlude,
    Collider,
    Audio,
    Player,
}

impl Bit {
    pub open spec fn spec_index(self) -> int {
        match self {
            Bit::BoundingVolume => 0,
            Bit::Occlude => 1,
            Bit::Collider => 2,
            Bit::Audio => 3,
            Bit::Player => 4,
        }
    }

    /// The position of this tag in a mask.
    pub fn index(self) -> (r: usize)
        ensures
            r == self.spec_index(),
            r < 64,
    {
        match self {
            Bit::BoundingVolume => 0,
            Bit::Occlude => 1,
            Bit::Collider => 2,
            Bit::Audio => 3,
            Bit::Player => 4,
        }
    }
}

/// A mask of 64 bits; bit `i` of `bits` is the mask's `i`-th entry.
#[derive(Clone, Copy, PartialEq, Eq, Structural, Debug, Hash, Default)]
pub struct Mask {
    pub bits: u64,
}

impl Mask {
    /// Whether entry `i` is set.
    pub open spec fn has(self, i: int) -> bool {
        bit_set(self.bits, i)
    }

    /// The mask with no entry set.
    pub fn zero() -> (m: Mask)
        ensures
            m.bits == 0,
            forall|i: int| !m.has(i),
    {
        proof {
            assert forall|i: int| !bit_set(0u64, i) by {
                if 0 <= i < 64 {
                    let j = i as u64;
                    assert(((0u64 >> j) & 1u64) == 0u64) by (bit_vector);
                }
            }
        }
        Mask { bits: 0 }
    }

    /// The mask with every entry set.
    pub fn full() -> (m: Mask)
        ensures
            m.bits == u64::MAX,
            forall|i: int| 0 <= i < 64 ==> m.has(i),
    {
        proof {
            assert forall|i: int| 0 <= i < 64 implies bit_set(u64::MAX, i) by {
                let j = i as u64;
                assert(((0xffff_ffff_ffff_ffffu64 >> j) & 1u64) == 1u64) by (bit_vector)
                    requires
                        j < 64,
                ;
            }
        }
        Mask { bits: u64::MAX }
    }

    /// The mask with exactly the entries of the given tags set.
    pub fn with_tags(tags: &[Bit]) -> (m: Mask)
        ensures
            forall|i: int|
                #![trigger m.has(i)]
                m.has(i) <==> exists|j: int| 0 <= j < tags@.len() && #[trigger] tags@[j].spec_index() == i,
    {
        let mut m = Mask::zero();
        let mut j: usize = 0;
        while j < tags.len()
            invariant
                j <= tags@.len(),
                forall|i: int|
                    #![trigger m.has(i)]
                    m.has(i) <==> exists|k: int| 0 <= k < j && #[trigger] tags@[k].spec_index() == i,
            decreases tags@.len() - j,
        {
            let t = tags[j];
            m.set(t.index(), true);
            proof {
                assert forall|i: int| #![trigger m.has(i)] m.has(i) <==> exists|k: int|
                    0 <= k < j + 1 && #[trigger] tags@[k].spec_index() == i by {
                    if i == t.spec_index() {
                        assert(tags@[j as int].spec_index() == i);
                    }
                }
            }
            j = j + 1;
        }
        m
    }

    pub fn from_bits(bits: u64) -> (m: Mask)
        ensures
            m.bits == bits,
    {
        Mask { bits }
    }

    /// Whether entry `i` is set.
    pub fn get(&self, i: usize) -> (r: bool)
        requires
            i < 64,
        ensures
            r == self.has(i as int),
    {
        (self.bits >> (i as u64)) & 1u64 == 1u64
    }

    /// Sets entry `i` to `value`, leaving every other entry as it was.
    pub fn set(&mut self, i: usize, value: bool)
        requires
            i < 64,
        ensures
            final(self).bits == (if value {
                old(self).bits | (1u64 << (i as u64))
            } else {
                old(self).bits & !(1u64 << (i as u64))
            }),
            forall|j: int|
                #![trigger final(self).has(j)]
                final(self).has(j) == (if j == i {
                    value
                } else {
                    old(self).has(j)
                }),
    {
        let ghost b = self.bits;
        if value {
            self.bits = self.bits | (1u64 << (i as u64));
        } else {
            self.bits = self.bits & !(1u64 << (i as u64));
        }
        proof {
            assert forall|j: int| #![trigger bit_set(self.bits, j)] bit_set(self.bits, j) == (if j == i {
                value
            } else {
                bit_set(b, j)
            }) by {
                if 0 <= j < 64 {
                    if value {
                        lemma_bit_insert(b, i as u64, j as u64);
                    } else {
                        lemma_bit_erase(b, i as u64, j as u64);
                    }
                }
            }
        }
    }

    /// Whether some entry is set.
    pub fn any(&self) -> (r: bool)
        ensures
            r == (self.bits != 0),
    {
        self.bits != 0
    }

    /// Whether every entry is set.
    pub fn all(&self) -> (r: bool)
        ensures
            r == (self.bits == u64::MAX),
    {
        self.bits == u64::MAX
    }

    /// The entries set in both masks.
    pub fn and(&self, other: &Mask) -> (r: Mask)
        ensures
            r.bits == self.bits & other.bits,
            forall|j: int| #![trigger r.has(j)] r.has(j) == (self.has(j) && other.has(j)),
    {
        let r = Mask { bits: self.bits & other.bits };
        proof {
            assert forall|j: int| #![trigger r.has(j)] r.has(j) == (self.has(j) && other.has(j)) by {
                if 0 <= j < 64 {
                    lemma_bit_and(self.bits, other.bits, j as u64);
                }
            }
        }
        r
    }

    /// The entries set in either mask.
    pub fn or(&self, other: &Mask) -> (r: Mask)
        ensures
            r.bits == self.bits | other.bits,
            forall|j: int| #![trigger r.has(j)] r.has(j) == (self.has(j) || other.has(j)),
    {
        let r = Mask { bits: self.bits | other.bits };
        proof {
            assert forall|j: int| #![trigger r.has(j)] r.has(j) == (self.has(j) || other.has(j)) by {
                if 0 <= j < 64 {
                    lemma_bit_or(self.bits, other.bits, j as u64);
                }
            }
        }
        r
    }

    /// The entries not set in this mask.
    pub fn not(&self) -> (r: Mask)
        ensures
            r.bits == !self.bits,
            forall|j: int| 0 <= j < 64 ==> #[trigger] r.has(j) == !self.has(j),
    {
        let r = Mask { bits: !self.bits };
        proof {
            assert forall|j: int| 0 <= j < 64 implies #[trigger] r.has(j) == !self.has(j) by {
                lemma_bit_not(self.bits, j as u64);
            }
        }
        r
    }

    /// The indices of the set entries, in increasing order.
    pub fn ones(&self) -> (r: Vec<usize>)
        ensures
            forall|k: int| 0 <= k < r.len() ==> #[trigger] r[k] < 64 && self.has(r[k] as int),
            forall|k1: int, k2: int| 0 <= k1 < k2 < r.len() ==> r[k1] < r[k2],
            forall|i: int| 0 <= i < 64 && #[trigger] self.has(i) ==> r@.contains(i as usize),
    {
        let mut r: Vec<usize> = Vec::new();
        let mut i: usize = 0;
        while i < 64
            invariant
                i <= 64,
                forall|k: int| 0 <= k < r.len() ==> #[trigger] r[k] < i && self.has(r[k] as int),
                forall|k1: int, k2: int| 0 <= k1 < k2 < r.len() ==> r[k1] < r[k2],
                forall|j: int| 0 <= j < i && #[trigger] self.has(j) ==> r@.contains(j as usize),
            decreases 64 - i,
        {
            let ghost prev = r@;
            if self.get(i) {
                r.push(i);
                proof {
                    assert(r[r.len() - 1] == i);
                }
            }
            proof {
                assert forall|j: int| 0 <= j < i + 1 && #[trigger] self.has(j) implies r@.contains(
                    j as usize,
                ) by {
                    if j < i {
                        let k = choose|k: int| 0 <= k < prev.len() && prev[k] == j as usize;
                        assert(r@[k] == j as usize);
                    } else {
                        assert(r@[r.len() - 1] == i);
                    }
                }
            }
            i = i + 1;
        }
        r
    }
}

} // verus!
