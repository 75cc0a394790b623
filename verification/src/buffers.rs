//! Typed handles to device-resident buffers. A handle carries the slot
//! its allocation occupies in the context's buffer store and its fixed
//! element count; the store itself lives in the context.

use vstd::prelude::*;

verus! {

/// A device-resident array of 32-bit unsigned integers, storage-usable
/// and host-mappable. The element count is fixed at creation.
pub struct MappableStorageBuffer {
    id: usize,
    len: usize,
}

impl MappableStorageBuffer {
    /// The slot of the owning context's buffer store that this handle names.
    pub closed spec fn id(self) -> usize {
        self.id
    }

    /// The element count, fixed when the buffer was allocated.
    pub closed spec fn spec_len(self) -> usize {
        self.len
    }

    pub(crate) fn new_handle(id: usize, len: usize) -> (r: Self)
        ensures
            r.id() == id,
            r.spec_len() == len,
    {
        MappableStorageBuffer { id, len }
    }

    /// The element count, fixed when the buffer was allocated.
    pub fn len(&self) -> (n: usize)
        ensures
            n == self.spec_len(),
    {
        self.len
    }

    /// The slot this handle names, for driving an external device from
    /// the same records.
    pub fn slot(&self) -> (i: usize)
        ensures
            i == self.id(),
    {
        self.id
    }
}

/// A device-resident buffer of exactly one 32-bit unsigned integer,
/// used as a reduction's output slot.
pub struct MappableSingleValueBuffer {
    id: usize,
}

impl MappableSingleValueBuffer {
    /// The slot of the owning context's buffer store that this handle names.
    pub closed spec fn id(self) -> usize {
        self.id
    }

    pub(crate) fn new_handle(id: usize) -> (r: Self)
        ensures
            r.id() == id,
    {
        MappableSingleValueBuffer { id }
    }

    /// The slot this handle names.
    pub fn slot(&self) -> (i: usize)
        ensures
            i == self.id(),
    {
        self.id
    }
}

} // verus!
