//! Bit vectors that summarise the direction of a vector.

use bitvec::vec::BitVec;
use vstd::prelude::*;

verus! {

/// The most bits that a code can hold: `bitvec` keeps three bits of each length
/// for itself.
pub open spec fn max_code_len() -> int {
    usize::MAX as int / 8
}

/// A SimHash code: a `bitvec::vec::BitVec`, held opaquely.
#[verifier::external_body]
#[derive(Debug, PartialEq, Eq)]
pub struct HashCode {
    bits: BitVec,
}

/// The bits that a code holds, first to last.
pub uninterp spec fn code_bits(code: HashCode) -> Seq<bool>;

impl View for HashCode {
    type V = Seq<bool>;

    open spec fn view(&self) -> Seq<bool> {
        code_bits(*self)
    }
}

impl HashCode {
    /// `BitVec::with_capacity`: a code without any bit. `bitvec` panics on a
    /// capacity beyond its longest length.
    #[verifier::external_body]
    pub(crate) fn with_capacity(capacity: usize) -> (code: HashCode)
        requires
            capacity <= max_code_len(),
        ensures
            code_bits(code) == Seq::<bool>::empty(),
    {
        HashCode { bits: BitVec::with_capacity(capacity) }
    }

    /// `BitVec::push`: one more bit at the end. `bitvec` panics when the length
    /// would pass its longest.
    #[verifier::external_body]
    pub(crate) fn push(&mut self, bit: bool)
        requires
            code_bits(*old(self)).len() < max_code_len(),
        ensures
            code_bits(*final(self)) == code_bits(*old(self)).push(bit),
    {
        self.bits.push(bit)
    }

    /// `BitVec::len`: the number of bits.
    #[verifier::external_body]
    fn bit_count(&self) -> (count: usize)
        ensures
            count == code_bits(*self).len(),
    {
        self.bits.len()
    }

    /// The number of bits.
    pub fn len(&self) -> (len: usize)
        ensures
            len == self@.len(),
    {
        self.bit_count()
    }

    /// Indexing of a `BitVec`: the bit at a position, which must be in range.
    #[verifier::external_body]
    pub(crate) fn bit(&self, at: usize) -> (bit: bool)
        requires
            at < code_bits(*self).len(),
        ensures
            bit == code_bits(*self)[at as int],
    {
        self.bits[at]
    }
}

impl Clone for HashCode {
    /// `BitVec::clone`: a code with the same bits.
    #[verifier::external_body]
    fn clone(&self) -> (copy: HashCode)
        ensures
            code_bits(copy) == code_bits(*self),
    {
        HashCode { bits: self.bits.clone() }
    }
}

/// The number of places at which two codes of one length hold the same bit.
pub open spec fn collisions(a: Seq<bool>, b: Seq<bool>) -> nat
    decreases a.len(),
{
    if a.len() == 0 || a.len() != b.len() {
        0
    } else {
        collisions(a.drop_last(), b.drop_last()) + if a.last() == b.last() {
            1nat
        } else {
            0nat
        }
    }
}

/// Codes collide at most everywhere, equally in both directions, and a code
/// collides with itself everywhere.
pub proof fn collisions_measure_likeness(a: Seq<bool>, b: Seq<bool>)
    requires
        a.len() == b.len(),
    ensures
        collisions(a, b) <= a.len(),
        collisions(a, b) == collisions(b, a),
        collisions(a, b) == a.len() <==> a == b,
    decreases a.len(),
{
    if a.len() > 0 {
        collisions_measure_likeness(a.drop_last(), b.drop_last());
        assert(a =~= a.drop_last().push(a.last()));
        assert(b =~= b.drop_last().push(b.last()));
    } else {
        assert(a =~= b);
    }
}

/// What a code does not share with another it shares with the other's complement.
pub proof fn complements_share_the_rest(a: Seq<bool>, b: Seq<bool>)
    requires
        a.len() == b.len(),
    ensures
        collisions(a, b) + collisions(a, b.map_values(|bit: bool| !bit)) == a.len(),
    decreases a.len(),
{
    let flip = |bit: bool| !bit;
    if a.len() > 0 {
        complements_share_the_rest(a.drop_last(), b.drop_last());
        assert(b.map_values(flip).drop_last() =~= b.drop_last().map_values(flip));
    }
}

/// The places at which two codes hold the same bit.
pub open spec fn matching_places(a: Seq<bool>, b: Seq<bool>) -> Set<int> {
    Set::new(|i: int| 0 <= i < a.len() && a[i] == b[i])
}

/// Collisions are counted place by place, at every place.
pub proof fn collisions_count_places(a: Seq<bool>, b: Seq<bool>)
    requires
        a.len() == b.len(),
    ensures
        matching_places(a, b).finite(),
        matching_places(a, b).len() == collisions(a, b),
        matching_places(a, b) == Set::new(|i: int| 0 <= i < a.len() && a[i] == b[i]),
    decreases a.len(),
{
    if a.len() == 0 {
        assert(matching_places(a, b) =~= Set::<int>::empty());
    } else {
        let last = a.len() - 1;
        let before = matching_places(a.drop_last(), b.drop_last());
        collisions_count_places(a.drop_last(), b.drop_last());
        if a.last() == b.last() {
            assert(matching_places(a, b) =~= before.insert(last));
        } else {
            assert(matching_places(a, b) =~= before);
        }
    }
}

} // verus!
