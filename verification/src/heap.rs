//! The heap front-end over the frame allocator.
//!
//! Adapts byte-size allocation requests into frame-count requests: the lowest
//! allocation hook available before any fault-handling machinery exists.
//! Alignment finer than page granularity is not honored; callers must not
//! depend on sub-page alignment.  Deallocation is a documented no-op: the
//! bump allocator cannot reclaim.
//!
//! Exactly one instance exists process-wide, owned by the startup glue; it
//! must be initialized once before first use.

use vstd::prelude::*;

use crate::arch::PhysicalAddress;
use crate::bump::alloc_addr;
use crate::bump::alloc_step;
use crate::bump::has_fit;
use crate::bump::BumpAllocator;
use crate::PAGE_SIZE;

verus! {

/// Number of whole frames needed to cover `size` bytes.
pub open spec fn frames_needed(size: nat) -> nat {
    ((size + PAGE_SIZE - 1) / (PAGE_SIZE as int)) as nat
}

/// The process-wide allocation entry point.  Holds the frame allocator once
/// the startup glue has attached it.
pub struct Heap {
    pub allocator: Option<BumpAllocator>,
}

impl Heap {
    /// An empty front-end, not yet attached to a frame allocator.
    pub fn new() -> (r: Heap)
        ensures
            r.allocator is None,
    {
        Heap { allocator: None }
    }

    /// Attaches the frame allocator.  Must happen exactly once, before the
    /// first allocation; a second attempt is a fatal configuration error and
    /// is therefore ruled out here.
    pub fn init(&mut self, allocator: BumpAllocator)
        requires
            old(self).allocator is None,
        ensures
            final(self).allocator == Some(allocator),
    {
        self.allocator = Some(allocator);
    }

    /// Serves a byte-size request by allocating `frames_needed(size)` whole
    /// frames from the first arena that can hold them contiguously.  Reports
    /// out of memory as a distinct outcome instead of a sentinel address.
    /// Use before initialization is a programmer error and is ruled out here.
    pub fn allocate(&mut self, size: usize) -> (r: Option<PhysicalAddress>)
        requires
            old(self).allocator is Some,
            old(self).allocator->Some_0.wf(),
        ensures
            final(self).allocator is Some,
            final(self).allocator->Some_0.wf(),
            final(self).allocator->Some_0@ == alloc_step(
                old(self).allocator->Some_0@,
                frames_needed(size as nat),
            ),
            r is Some <==> has_fit(old(self).allocator->Some_0@, frames_needed(size as nat)),
            r matches Some(a) ==> a.0 == alloc_addr(
                old(self).allocator->Some_0@,
                frames_needed(size as nat),
            ),
            r is None ==> *final(self) == *old(self),
    {
        let q: usize = size / (PAGE_SIZE as usize);
        let rem: usize = size % (PAGE_SIZE as usize);
        let count: usize = if rem == 0 {
            q
        } else {
            q + 1
        };
        proof {
            assert(count == frames_needed(size as nat)) by (nonlinear_arith)
                requires
                    q == size as int / (PAGE_SIZE as int),
                    rem == size as int % (PAGE_SIZE as int),
                    count == if rem == 0 { q as int } else { q + 1 },
                    PAGE_SIZE == 4096,
                    size >= 0,
            ;
        }
        match &mut self.allocator {
            Some(a) => a.allocate(count),
            None => None,
        }
    }

    /// The corresponding deallocation entry point: a documented no-op, since
    /// the bump allocator never reuses freed space (there is none).
    pub fn deallocate(&mut self, _addr: PhysicalAddress, _size: usize)
        ensures
            *final(self) == *old(self),
    {
    }
}

} // verus!
