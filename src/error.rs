use vstd::prelude::*;

verus! {

/// What can go wrong when working with the heap.
#[derive(Debug, Clone, Copy, PartialEq, Eq, Structural)]
pub enum HeapError {
    /// No free block is large enough, even after a collection.
    OutOfMemory,
    /// A tag byte names no kind of object.
    UnknownTag,
    /// A box was found where an object was expected.
    InvalidTag,
    /// An address lies outside the heap.
    AddressOutOfRange,
    /// Boxes lead from pair to pair further than any object without a
    /// cycle could reach.
    TooDeep,
}

} // verus!
