//! Free-list pool.
//!
//! A small-object pool whose slots are all on the free list from the start.
use crate::fast_alloc::{FastAlloc, FastAllocParam, PoolView};
use vstd::prelude::*;

verus! {

/// The bytes of a slot: the most that one request can ask for.
pub const BLOCK_SIZE: usize = 64;

/// What a free-list pool is built from.
#[derive(Clone, Copy)]
pub struct FreelistAllocParam {
    base_addr: usize,
    len: usize,
}

impl FreelistAllocParam {
    /// The address at which the region starts.
    pub closed spec fn base_addr(self) -> usize {
        self.base_addr
    }

    /// The bytes of the region.
    pub closed spec fn len(self) -> usize {
        self.len
    }

    /// The parameters that a pool can be built from: a region of one or
    /// more whole slots, starting above address 0 and ending within the
    /// address space.
    pub open spec fn valid(self) -> bool {
        &&& self.base_addr() > 0
        &&& self.len() > 0
        &&& self.len() % BLOCK_SIZE == 0
        &&& self.base_addr() + self.len() <= usize::MAX
    }

    /// The number of slots.
    pub open spec fn slots(self) -> int {
        (self.len() / BLOCK_SIZE) as int
    }

    /// What a fresh pool over these parameters stands for: every slot is on
    /// the free list, the last one at its head.
    pub open spec fn initial_view(self) -> PoolView {
        PoolView {
            base: self.base_addr() as int,
            end: self.base_addr() + self.len(),
            next: self.base_addr() + self.len(),
            free: Seq::new(
                self.slots() as nat,
                |j: int| self.base_addr() + (self.slots() - 1 - j) * BLOCK_SIZE,
            ),
            live: Set::empty(),
        }
    }

    /// Parameters for a region of `len` bytes at `base_addr`.
    pub fn new(base_addr: usize, len: usize) -> (param: Self)
        ensures
            param.base_addr() == base_addr,
            param.len() == len,
    {
        FreelistAllocParam { base_addr, len }
    }
}

/// A pool of slots of 64 bytes, all of them linked when the pool is built.
pub struct FreelistAlloc {
    pool: FastAlloc,
}

impl FreelistAlloc {
    /// What the pool stands for.
    pub closed spec fn view(&self) -> PoolView {
        self.pool@
    }

    /// The byte of the region at address `addr`.
    pub closed spec fn byte(&self, addr: int) -> u8 {
        self.pool.byte(addr)
    }

    /// Whether `a` is the address of a byte of the slot that is handed out
    /// at `q`.
    pub open spec fn in_live(&self, q: int, a: int) -> bool {
        self@.live.contains(q) && q <= a < q + BLOCK_SIZE
    }

    /// This pool holds what `o` holds in every slot that `o` has handed
    /// out, but perhaps the slot at `but`.
    pub open spec fn keeps(&self, o: &FreelistAlloc, but: int) -> bool {
        forall|q: int, a: int| #[trigger] o.in_live(q, a) && q != but ==> self.byte(a) == o.byte(a)
    }

    /// The bookkeeping is consistent, and no slot is fresh.
    pub closed spec fn wf(&self) -> bool {
        &&& self.pool.wf()
        &&& self.pool@.next == self.pool@.end
    }

    /// Every slot is on the free list or handed out; what is handed out
    /// lies in the pool on a slot boundary and is not on the free list.
    pub proof fn lemma_slots(&self)
        requires
            self.wf(),
        ensures
            self@.next == self@.end,
            self@.free.len() + self@.live.len() == self@.total_slots(),
            self@.base > 0,
            forall|p: int| #[trigger]
                self@.live.contains(p) ==> self@.contains(p) && p + BLOCK_SIZE <= self@.end && (p
                    - self@.base) % (BLOCK_SIZE as int) == 0 && !self@.free.contains(p),
            forall|j: int|
                0 <= j < self@.free.len() ==> self@.contains(#[trigger] self@.free[j]) && (
                self@.free[j] - self@.base) % (BLOCK_SIZE as int) == 0,
            self@.free.no_duplicates(),
    {
        self.pool.lemma_slots();
    }

    /// Two slots that are handed out do not overlap, and each lies within
    /// the pool.
    pub proof fn lemma_live_disjoint(&self, p: int, q: int)
        requires
            self.wf(),
            self@.live.contains(p),
            self@.live.contains(q),
            p != q,
        ensures
            p + BLOCK_SIZE <= q || q + BLOCK_SIZE <= p,
            self@.base <= p,
            p + BLOCK_SIZE <= self@.end,
    {
        self.pool.lemma_live_disjoint(p, q);
    }

    /// Whether a pool can be built from `param`.
    pub fn can_build(param: &FreelistAllocParam) -> (ok: bool)
        ensures
            ok == param.valid(),
    {
        param.base_addr > 0 && param.len > 0 && param.len % BLOCK_SIZE == 0 && param.len
            <= usize::MAX - param.base_addr
    }

    /// A pool over the region of `param`, whose bytes are `region`, with
    /// every slot on the free list.
    pub fn new(param: FreelistAllocParam, region: Vec<u8>) -> (alloc: FreelistAlloc)
        requires
            param.valid(),
            region@.len() == param.len(),
        ensures
            alloc.wf(),
            alloc@ == param.initial_view(),
    {
        let nblocks: usize = param.len / BLOCK_SIZE;
        let inner = FastAllocParam::new_with_initialized_nodes(param.base_addr, param.len, nblocks);
        let pool = FastAlloc::new(inner, region);
        let alloc = FreelistAlloc { pool };
        proof {
            assert(alloc@.free =~= param.initial_view().free);
        }
        alloc
    }

    /// Whether `p` lies in the region of the pool.
    pub fn contains_ptr(&self, p: usize) -> (r: bool)
        ensures
            r == self@.contains(p as int),
    {
        self.pool.contains_ptr(p)
    }

    /// Serves a request for `nbytes` bytes with the slot at the head of the
    /// free list. Returns its address, or 0 if `nbytes` is more than a slot
    /// has or the list is empty.
    pub fn malloc(&mut self, nbytes: usize) -> (p: usize)
        requires
            old(self).wf(),
        ensures
            final(self).wf(),
            p == old(self)@.malloc_ptr(nbytes as nat),
            final(self)@ == old(self)@.malloc(nbytes as nat),
            p == 0 <==> nbytes > BLOCK_SIZE || old(self)@.free.len() == 0,
            p != 0 ==> p == old(self)@.free[0] && final(self)@.live.contains(p as int)
                && !old(self)@.live.contains(p as int),
            final(self).keeps(old(self), 0),
    {
        let p: usize = self.pool.malloc(nbytes);
        proof {
            assert forall|q: int, a: int| #[trigger] old(self).in_live(q, a) && q != 0
                implies self.byte(a) == old(self).byte(a) by {
                assert(old(self).pool.in_live(q, a));
            }
        }
        p
    }

    /// Gives the slot at `p` back: it becomes the head of the free list.
    pub fn free(&mut self, p: usize)
        requires
            old(self).wf(),
            old(self)@.live.contains(p as int),
        ensures
            final(self).wf(),
            final(self)@ == old(self)@.free(p as int),
            final(self).keeps(old(self), p as int),
    {
        self.pool.free(p);
        proof {
            assert forall|q: int, a: int| #[trigger] old(self).in_live(q, a) && q != p
                implies self.byte(a) == old(self).byte(a) by {
                assert(old(self).pool.in_live(q, a));
            }
        }
    }

    /// Reads the byte at address `addr` of the pool's region.
    pub fn read(&self, addr: usize) -> (b: u8)
        requires
            self.wf(),
            self@.contains(addr as int),
        ensures
            b == self.byte(addr as int),
    {
        self.pool.read(addr)
    }

    /// Writes the byte at address `addr`, which lies in a slot that is
    /// handed out. The pool stays as it is.
    pub fn write(&mut self, addr: usize, b: u8)
        requires
            old(self).wf(),
            exists|q: int| old(self).in_live(q, addr as int),
        ensures
            final(self).wf(),
            final(self)@ == old(self)@,
            final(self).byte(addr as int) == b,
            forall|a: int|
                a != addr && old(self)@.contains(a) ==> #[trigger] final(self).byte(a)
                    == old(self).byte(a),
    {
        proof {
            let q = choose|q: int| self.in_live(q, addr as int);
            assert(self.pool.in_live(q, addr as int));
        }
        self.pool.write(addr, b)
    }
}

} // verus!
