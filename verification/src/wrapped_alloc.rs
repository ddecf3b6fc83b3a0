//! A buddy engine behind the interface of an allocator that is asked for a
//! size and an alignment.
use crate::buddy_alloc::{BuddyAlloc, BuddyView};
use vstd::prelude::*;

verus! {

/// A buddy engine that serves requests by their size alone.
pub struct WrappedAlloc(BuddyAlloc);

impl WrappedAlloc {
    /// What the engine stands for.
    pub closed spec fn view(&self) -> BuddyView {
        self.0@
    }

    /// The engine is consistent.
    pub closed spec fn wf(&self) -> bool {
        self.0.wf()
    }

    /// The engine that is wrapped.
    pub closed spec fn inner(&self) -> BuddyAlloc {
        self.0
    }

    /// Wraps an engine.
    pub fn new(alloc: BuddyAlloc) -> (wrapped: Self)
        requires
            alloc.wf(),
        ensures
            wrapped.wf(),
            wrapped@ == alloc@,
            wrapped.inner() == alloc,
    {
        WrappedAlloc(alloc)
    }

    /// Serves a request of `size` bytes; the alignment is not looked at.
    pub fn allocate(&mut self, size: usize, align: usize) -> (p: usize)
        requires
            old(self).wf(),
        ensures
            final(self).wf(),
            p == old(self)@.malloc_ptr(size as nat),
            final(self)@ == old(self)@.malloc(size as nat),
            final(self).inner().keeps(&old(self).inner(), 0),
    {
        self.0.malloc(size)
    }

    /// Gives the block at `ptr` back.
    pub fn deallocate(&mut self, ptr: usize, size: usize, align: usize)
        requires
            old(self).wf(),
            old(self)@.live.contains_key(ptr as int),
        ensures
            final(self).wf(),
            final(self)@ == old(self)@.free(ptr as int),
            final(self).inner().keeps(&old(self).inner(), ptr as int),
    {
        self.0.free(ptr)
    }

    /// Reads the byte at address `addr` of the region.
    pub fn read(&self, addr: usize) -> (b: u8)
        requires
            self.wf(),
            self.inner().in_region(addr as int),
        ensures
            b == self.inner().byte(addr as int),
    {
        self.0.read(addr)
    }

    /// Writes the byte at address `addr`, which lies in a block that is
    /// handed out.
    pub fn write(&mut self, addr: usize, b: u8)
        requires
            old(self).wf(),
            exists|q: int| old(self).inner().in_live(q, addr as int),
        ensures
            final(self).wf(),
            final(self)@ == old(self)@,
            final(self).inner().byte(addr as int) == b,
            forall|a: int|
                a != addr && old(self).inner().in_region(a)
                    ==> #[trigger] final(self).inner().byte(a) == old(self).inner().byte(a),
    {
        self.0.write(addr, b)
    }
}

} // verus!
