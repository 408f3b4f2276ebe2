//! The per-download map of received blocks, kept in a `bitvec::vec::BitVec`.

use bitvec::vec::BitVec;
use vstd::prelude::*;

verus! {

/// A bit-vector with one bit per block of a download: set once the block is in.
#[verifier::external_body]
pub struct BlockMap {
    bits: BitVec,
}

/// The bits that a block map holds, in index order.
pub uninterp spec fn bits_of(map: BlockMap) -> Seq<bool>;

impl View for BlockMap {
    type V = Seq<bool>;

    open spec fn view(&self) -> Seq<bool> {
        bits_of(*self)
    }
}

/// `bits` cut or lengthened to `n`, new bits taking `value`.
pub open spec fn resized(bits: Seq<bool>, n: nat, value: bool) -> Seq<bool> {
    if n <= bits.len() {
        bits.take(n as int)
    } else {
        bits + Seq::new((n - bits.len()) as nat, |k: int| value)
    }
}

/// The longest bit-vector that `BitVec` can hold: `usize::MAX >> 3` bits.
pub open spec fn max_bits() -> nat {
    (usize::MAX / 8) as nat
}

impl BlockMap {
    /// `BitVec::new`: an empty bit-vector.
    #[verifier::external_body]
    pub(crate) fn new() -> (map: BlockMap)
        ensures
            bits_of(map) == Seq::<bool>::empty(),
    {
        BlockMap { bits: BitVec::new() }
    }

    /// `BitSlice::len`: the number of bits.
    #[verifier::external_body]
    pub(crate) fn len(&self) -> (n: usize)
        ensures
            n == bits_of(*self).len(),
    {
        self.bits.len()
    }

    /// `Index<usize>` of `BitSlice` (`bits[index]`): the bit at `index`. The crate
    /// panics when `index` is not below the length.
    #[verifier::external_body]
    pub(crate) fn get(&self, index: usize) -> (bit: bool)
        requires
            index < bits_of(*self).len(),
        ensures
            bit == bits_of(*self)[index as int],
    {
        self.bits[index]
    }

    /// `BitSlice::set`: writes `value` at `index`, the other bits unchanged. The
    /// crate panics when `index` is not below the length.
    #[verifier::external_body]
    pub(crate) fn set(&mut self, index: usize, value: bool)
        requires
            index < bits_of(*old(self)).len(),
        ensures
            bits_of(*final(self)) == bits_of(*old(self)).update(index as int, value),
    {
        self.bits.set(index, value)
    }

    /// `BitVec::resize`: truncates to `new_len` bits, or appends bits of `value` up
    /// to it. The crate panics when it grows past `usize::MAX >> 3` bits. Nothing
    /// is said of the allocation failing.
    #[verifier::external_body]
    pub(crate) fn resize(&mut self, new_len: usize, value: bool)
        requires
            new_len <= bits_of(*old(self)).len() || new_len <= max_bits(),
        ensures
            bits_of(*final(self)) == resized(bits_of(*old(self)), new_len as nat, value),
    {
        self.bits.resize(new_len, value)
    }

    /// `BitSlice::fill`: every bit becomes `value`, the length unchanged.
    #[verifier::external_body]
    pub(crate) fn fill(&mut self, value: bool)
        ensures
            bits_of(*final(self)) == Seq::new(bits_of(*old(self)).len(), |k: int| value),
    {
        self.bits.fill(value)
    }
}

} // verus!
