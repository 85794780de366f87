//! Bit storage behind the piece bitfield.

use bitvec::vec::BitVec;
use vstd::prelude::*;

verus! {

/// The most bits that a bitfield of this library holds. A `BitVec` takes
/// `usize::MAX >> 3` bits at most, which is this number where `usize` has 32
/// bits.
pub const MAX_PIECES: usize = 0x1fff_ffff;

/// A growable vector of bits, kept in a `bitvec::vec::BitVec`.
#[verifier::external_body]
#[derive(Debug)]
pub struct BitStorage {
    bits: BitVec,
}

/// The bits that a bit vector holds, first to last.
pub uninterp spec fn bits_of(storage: BitStorage) -> Seq<bool>;

/// The number of bits that are set.
pub open spec fn count_true(s: Seq<bool>) -> nat
    decreases s.len(),
{
    if s.len() == 0 {
        0
    } else {
        count_true(s.drop_last()) + if s.last() {
            1nat
        } else {
            0nat
        }
    }
}

/// `BitVec::new`: a vector of no bits.
#[verifier::external_body]
pub(crate) fn bits_new() -> (storage: BitStorage)
    ensures
        bits_of(storage) == Seq::<bool>::empty(),
{
    BitStorage { bits: BitVec::new() }
}

/// `BitVec::repeat`: a vector of `len` bits, each equal to `bit`.
#[verifier::external_body]
pub(crate) fn bits_repeat(bit: bool, len: usize) -> (storage: BitStorage)
    requires
        len <= MAX_PIECES,
    ensures
        bits_of(storage) == Seq::new(len as nat, |i: int| bit),
{
    BitStorage { bits: BitVec::repeat(bit, len) }
}

/// `BitVec::len`: the number of bits held.
#[verifier::external_body]
pub(crate) fn bits_len(storage: &BitStorage) -> (n: usize)
    ensures
        n == bits_of(*storage).len(),
{
    storage.bits.len()
}

/// `BitVec::push`: appends one bit.
#[verifier::external_body]
pub(crate) fn bits_push(storage: &mut BitStorage, value: bool)
    requires
        bits_of(*old(storage)).len() < MAX_PIECES,
    ensures
        bits_of(*final(storage)) == bits_of(*old(storage)).push(value),
{
    storage.bits.push(value)
}

/// `BitVec::resize`: cuts the vector to `new_len` bits, or fills it up to
/// `new_len` bits with `value`.
#[verifier::external_body]
pub(crate) fn bits_resize(storage: &mut BitStorage, new_len: usize, value: bool)
    requires
        new_len <= MAX_PIECES,
    ensures
        bits_of(*final(storage)).len() == new_len,
        forall|i: int|
            0 <= i < new_len ==> #[trigger] bits_of(*final(storage))[i] == if i < bits_of(
                *old(storage),
            ).len() {
                bits_of(*old(storage))[i]
            } else {
                value
            },
{
    storage.bits.resize(new_len, value)
}

/// `BitSlice::get` with one index, through the reference it gives: the bit
/// at `index`, or nothing where the vector is shorter.
#[verifier::external_body]
pub(crate) fn bits_get(storage: &BitStorage, index: usize) -> (bit: Option<bool>)
    ensures
        bit == if index < bits_of(*storage).len() {
            Some(bits_of(*storage)[index as int])
        } else {
            None
        },
{
    storage.bits.get(index).map(|b| *b)
}

/// `BitSlice::set`: writes the bit at `index`. It panics only where `index`
/// is past the end, which the caller rules out.
#[verifier::external_body]
pub(crate) fn bits_set(storage: &mut BitStorage, index: usize, value: bool)
    requires
        index < bits_of(*old(storage)).len(),
    ensures
        bits_of(*final(storage)) == bits_of(*old(storage)).update(index as int, value),
    no_unwind
{
    storage.bits.set(index, value)
}

/// `BitSlice::count_ones`: the number of bits that are set.
#[verifier::external_body]
pub(crate) fn bits_count_ones(storage: &BitStorage) -> (n: usize)
    ensures
        n == count_true(bits_of(*storage)),
{
    storage.bits.count_ones()
}

/// `BitVec::clone`: a vector of the same bits.
#[verifier::external_body]
pub(crate) fn bits_clone(storage: &BitStorage) -> (copy: BitStorage)
    ensures
        bits_of(copy) == bits_of(*storage),
{
    BitStorage { bits: storage.bits.clone() }
}

} // verus!
