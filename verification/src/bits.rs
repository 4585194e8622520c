//! Growable bit sequences, kept in a `bitvec::vec::BitVec`.
//!
//! Verus does not look inside a `BitVec`. What one holds is named by [`bits_of`],
//! and every method here is a thin call into `bitvec` whose contract is taken
//! on trust from that crate's source.

use bitvec::vec::BitVec;
use vstd::prelude::*;

verus! {

/// A growable sequence of bits: a `bitvec::vec::BitVec` with the default
/// storage and bit order. The verifier is told nothing of the field; all that
/// is known of a value is what the methods below say of [`bits_of`].
#[verifier::external_body]
pub struct BitVector {
    inner: BitVec,
}

/// The bits that a bit-vector holds, first to last.
pub uninterp spec fn bits_of(bv: BitVector) -> Seq<bool>;

/// The longest bit sequence that a bit-vector can hold on this machine:
/// `BitSlice::MAX_BITS`, the largest `usize` shifted right by three.
pub open spec fn max_bits() -> int {
    usize::MAX as int / 8
}

impl View for BitVector {
    type V = Seq<bool>;

    open spec fn view(&self) -> Seq<bool> {
        bits_of(*self)
    }
}

impl BitVector {
    /// `BitVec::new`: a bit-vector that holds no bits.
    #[verifier::external_body]
    pub(crate) fn new() -> (bv: BitVector)
        ensures
            bits_of(bv) == Seq::<bool>::empty(),
    {
        BitVector { inner: BitVec::new() }
    }

    /// `BitVec::len`: the number of bits held.
    #[verifier::external_body]
    pub(crate) fn len(&self) -> (n: usize)
        ensures
            n == bits_of(*self).len(),
    {
        self.inner.len()
    }

    /// `BitSlice::get` with a single position: the bit there, or nothing when the
    /// position is past the end.
    #[verifier::external_body]
    pub(crate) fn get(&self, index: usize) -> (bit: Option<bool>)
        ensures
            bit == if index < bits_of(*self).len() {
                Some(bits_of(*self)[index as int])
            } else {
                None
            },
    {
        self.inner.get(index).map(|bit| *bit)
    }

    /// `BitVec::resize`: cuts the sequence down to `new_len` bits, or appends
    /// copies of `value` until it holds `new_len` bits. The call panics when
    /// `new_len` is more than a bit-vector can hold, so that is required not to
    /// happen.
    #[verifier::external_body]
    pub(crate) fn resize(&mut self, new_len: usize, value: bool)
        requires
            new_len <= max_bits(),
        ensures
            bits_of(*final(self)).len() == new_len,
            forall|i: int|
                0 <= i < new_len ==> #[trigger] bits_of(*final(self))[i] == if i < bits_of(
                    *old(self),
                ).len() {
                    bits_of(*old(self))[i]
                } else {
                    value
                },
    {
        self.inner.resize(new_len, value)
    }

    /// `BitSlice::replace`: writes `value` at `index` and hands back the bit that
    /// was there. The call panics on a position past the end, so `index` must be
    /// inside.
    #[verifier::external_body]
    pub(crate) fn replace(&mut self, index: usize, value: bool) -> (previous: bool)
        requires
            index < bits_of(*old(self)).len(),
        ensures
            previous == bits_of(*old(self))[index as int],
            bits_of(*final(self)) == bits_of(*old(self)).update(index as int, value),
    {
        self.inner.replace(index, value)
    }

    /// `BitVec::clear`: drops every bit.
    #[verifier::external_body]
    pub(crate) fn clear(&mut self)
        ensures
            bits_of(*final(self)) == Seq::<bool>::empty(),
    {
        self.inner.clear()
    }
}

} // verus!
