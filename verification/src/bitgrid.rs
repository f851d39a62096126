//! The packed bit vector that backs a board's obstruction map.
//!
//! The bits live in a `bv::BitVec`. Nothing in this file is proved: each item
//! states what the crate's source shows of one of its functions, and the rest
//! of the library is verified against these statements.

use bv::BitVec;
use vstd::prelude::*;

verus! {

/// A `bv::BitVec` with the default block type. The verifier does not look
/// inside: what it holds is spoken of through [`bits`].
#[verifier::external_body]
#[derive(Debug)]
pub struct BitGrid {
    inner: BitVec,
}

/// The bits that a vector holds, lowest position first.
pub uninterp spec fn bits(v: BitGrid) -> Seq<bool>;

/// `BitVec::new_fill(false, len)`: a vector of `len` bits, all clear. The
/// crate works out the number of blocks without a check for overflow; a
/// length that fits in thirty-two bits keeps it in range on every machine.
#[verifier::external_body]
pub(crate) fn bits_cleared(len: u64) -> (v: BitGrid)
    requires
        len <= u32::MAX,
    ensures
        bits(v).len() == len,
        forall|i: int| 0 <= i < len ==> !(#[trigger] bits(v)[i]),
{
    BitGrid { inner: BitVec::new_fill(false, len) }
}

/// `BitVec::get`: the bit at `position`. The crate panics on a position past
/// the end, which the precondition excludes.
#[verifier::external_body]
pub(crate) fn bit_get(v: &BitGrid, position: u64) -> (b: bool)
    requires
        position < bits(*v).len(),
    ensures
        b == bits(*v)[position as int],
{
    v.inner.get(position)
}

/// `BitVec::set`: overwrites the bit at `position` and leaves every other bit
/// as it was. The crate panics on a position past the end.
#[verifier::external_body]
pub(crate) fn bit_set(v: &mut BitGrid, position: u64, value: bool)
    requires
        position < bits(*old(v)).len(),
    ensures
        bits(*final(v)) == bits(*old(v)).update(position as int, value),
{
    v.inner.set(position, value)
}

/// `<BitVec as Clone>::clone`: a vector with the same bits.
#[verifier::external_body]
pub(crate) fn bits_clone(v: &BitGrid) -> (w: BitGrid)
    ensures
        bits(w) == bits(*v),
{
    BitGrid { inner: v.inner.clone() }
}

} // verus!
