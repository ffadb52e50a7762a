//! The reusable staging buffer for pre-hash values.
//!
//! Every structural-hash computation stages the pre-hash of each element in a
//! buffer of 64-bit values before sorting it. To avoid allocating that buffer
//! on every call, a [`ScratchPool`] keeps one buffer checked in between
//! computations. A computation acquires the buffer (cleared, capacity
//! retained) at its start and releases it at its end. When the buffer is
//! already checked out by an enclosing, not-yet-finished computation — which
//! happens when a container of containers is hashed, so the inner hash
//! computation re-enters while the outer one holds the buffer — acquisition
//! transparently yields a fresh private fallback buffer instead. Acquisition
//! can therefore never fail or block.

use vstd::prelude::*;

verus! {

/// A pool holding at most one reusable staging buffer.
///
/// A pool is confined to its owner; independent computations share a buffer
/// only by going through the same pool value, so there is no cross-thread
/// state and nothing to lock.
pub struct ScratchPool {
    shared: Option<Vec<u64>>,
}

impl ScratchPool {
    /// Whether the shared buffer is currently checked in and a call to
    /// `acquire` would hand it out (rather than a fallback buffer).
    pub closed spec fn available(&self) -> bool {
        self.shared is Some
    }

    /// Creates a pool with its shared buffer checked in, preallocated for the
    /// common case of containers with at most a hundred elements.
    pub fn new() -> (pool: ScratchPool)
        ensures
            pool.available(),
    {
        ScratchPool { shared: Some(Vec::with_capacity(100)) }
    }

    /// Hands out an empty staging buffer: the shared one (cleared, capacity
    /// retained) when it is checked in, or a fresh private fallback buffer
    /// when an enclosing computation already holds the shared one.
    pub fn acquire(&mut self) -> (buf: Vec<u64>)
        ensures
            buf@ == Seq::<u64>::empty(),
            !final(self).available(),
    {
        match self.shared.take() {
            Some(mut buf) => {
                buf.clear();
                buf
            },
            None => Vec::new(),
        }
    }

    /// Checks a buffer back in, making it the shared buffer for the next
    /// computation. Its contents are stale and will be cleared on the next
    /// `acquire`; its capacity is retained.
    pub fn release(&mut self, buf: Vec<u64>)
        ensures
            final(self).available(),
    {
        self.shared = Some(buf);
    }
}

} // verus!
