//! Fixed-capacity buffers of weight offsets.

use arrayvec::ArrayVec;
use vstd::prelude::*;

verus! {

/// `arrayvec::ArrayVec`, a vector stored in place that holds at most `CAP` items.
#[verifier::external_type_specification]
#[verifier::external_body]
#[verifier::reject_recursive_types(T)]
pub struct ExArrayVec<T, const CAP: usize>(arrayvec::ArrayVec<T, CAP>);

/// The items of a buffer of the blocks of a piece-square update, in the order of their pushes.
pub uninterp spec fn block_offsets(buffer: ArrayVec<usize, 32>) -> Seq<usize>;

/// `ArrayVec::new`: the new buffer holds nothing.
#[verifier::external_body]
pub(crate) fn new_block_offsets() -> (buffer: ArrayVec<usize, 32>)
    ensures
        block_offsets(buffer) == Seq::<usize>::empty(),
{
    ArrayVec::new()
}

/// `ArrayVec::push`: the item goes behind those that are there. A full buffer would panic.
#[verifier::external_body]
pub(crate) fn push_block_offset(buffer: &mut ArrayVec<usize, 32>, offset: usize)
    requires
        block_offsets(*old(buffer)).len() < 32,
    ensures
        block_offsets(*final(buffer)) == block_offsets(*old(buffer)).push(offset),
{
    buffer.push(offset)
}

/// `ArrayVec::as_slice`: the items, in order.
#[verifier::external_body]
pub(crate) fn slice_block_offsets(buffer: &ArrayVec<usize, 32>) -> (offsets: &[usize])
    ensures
        offsets@ == block_offsets(*buffer),
{
    buffer.as_slice()
}

/// The items of a buffer of the features that an update adds or removes, in the order of their
/// pushes.
pub uninterp spec fn update_offsets(buffer: ArrayVec<u32, 192>) -> Seq<u32>;

/// `ArrayVec::new`: the new buffer holds nothing.
#[verifier::external_body]
pub(crate) fn new_update_offsets() -> (buffer: ArrayVec<u32, 192>)
    ensures
        update_offsets(buffer) == Seq::<u32>::empty(),
{
    ArrayVec::new()
}

/// `ArrayVec::push`: the item goes behind those that are there. A full buffer would panic.
#[verifier::external_body]
pub(crate) fn push_update_offset(buffer: &mut ArrayVec<u32, 192>, offset: u32)
    requires
        update_offsets(*old(buffer)).len() < 192,
    ensures
        update_offsets(*final(buffer)) == update_offsets(*old(buffer)).push(offset),
{
    buffer.push(offset)
}

/// `ArrayVec::as_slice`: the items, in order.
#[verifier::external_body]
pub(crate) fn slice_update_offsets(buffer: &ArrayVec<u32, 192>) -> (offsets: &[u32])
    ensures
        offsets@ == update_offsets(*buffer),
{
    buffer.as_slice()
}

/// The items of a buffer of the features of a board, in the order of their pushes.
pub uninterp spec fn refresh_offsets(buffer: ArrayVec<u32, 256>) -> Seq<u32>;

/// `ArrayVec::new`: the new buffer holds nothing.
#[verifier::external_body]
pub(crate) fn new_refresh_offsets() -> (buffer: ArrayVec<u32, 256>)
    ensures
        refresh_offsets(buffer) == Seq::<u32>::empty(),
{
    ArrayVec::new()
}

/// `ArrayVec::push`: the item goes behind those that are there. A full buffer would panic.
#[verifier::external_body]
pub(crate) fn push_refresh_offset(buffer: &mut ArrayVec<u32, 256>, offset: u32)
    requires
        refresh_offsets(*old(buffer)).len() < 256,
    ensures
        refresh_offsets(*final(buffer)) == refresh_offsets(*old(buffer)).push(offset),
{
    buffer.push(offset)
}

/// `ArrayVec::as_slice`: the items, in order.
#[verifier::external_body]
pub(crate) fn slice_refresh_offsets(buffer: &ArrayVec<u32, 256>) -> (offsets: &[u32])
    ensures
        offsets@ == refresh_offsets(*buffer),
{
    buffer.as_slice()
}

/// A buffer of offsets with room for a fixed number of them.
pub trait OffsetBuffer: Sized {
    /// The offsets, in the order in which they were pushed.
    spec fn offsets(&self) -> Seq<u32>;

    /// How many offsets there is room for.
    spec fn room() -> nat;

    fn push_offset(&mut self, offset: u32)
        requires
            old(self).offsets().len() < Self::room(),
        ensures
            final(self).offsets() == old(self).offsets().push(offset),
    ;
}

impl OffsetBuffer for ArrayVec<u32, 192> {
    open spec fn offsets(&self) -> Seq<u32> {
        update_offsets(*self)
    }

    open spec fn room() -> nat {
        192
    }

    fn push_offset(&mut self, offset: u32) {
        push_update_offset(self, offset)
    }
}

impl OffsetBuffer for ArrayVec<u32, 256> {
    open spec fn offsets(&self) -> Seq<u32> {
        refresh_offsets(*self)
    }

    open spec fn room() -> nat {
        256
    }

    fn push_offset(&mut self, offset: u32) {
        push_refresh_offset(self, offset)
    }
}

} // verus!
