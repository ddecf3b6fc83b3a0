//! Composite front end.
//!
//! A small-object pool in front of a buddy engine, each over a region of
//! its own. Requests of up to 64 bytes go to the pool first; the others, and
//! those that the pool cannot serve, go to the engine. Both are built on
//! first use.
use crate::buddy_alloc::{BuddyAlloc, BuddyAllocParam, BuddyView};
use crate::fast_alloc::{FastAlloc, FastAllocParam, PoolView, BLOCK_SIZE};
use vstd::prelude::*;

verus! {

/// Requests for more bytes than this go to the buddy engine at once.
pub const MAX_FAST_ALLOC_SIZE: usize = BLOCK_SIZE;

/// What a composite stands for: its pool and its engine.
pub struct AllocView {
    /// The small-object pool.
    pub pool: PoolView,
    /// The buddy engine.
    pub buddy: BuddyView,
}

/// The bytes that a request of `size` bytes aligned to `align` is served
/// with: the larger of the two.
pub open spec fn request_bytes(size: usize, align: usize) -> nat {
    if size >= align {
        size as nat
    } else {
        align as nat
    }
}

impl AllocView {
    /// Whether the pool serves the request.
    pub open spec fn uses_pool(self, size: usize, align: usize) -> bool {
        request_bytes(size, align) <= MAX_FAST_ALLOC_SIZE
            && self.pool.malloc_ptr(request_bytes(size, align)) != 0
    }

    /// The address that the request is answered with.
    pub open spec fn allocate_ptr(self, size: usize, align: usize) -> int {
        if self.uses_pool(size, align) {
            self.pool.malloc_ptr(request_bytes(size, align))
        } else {
            self.buddy.malloc_ptr(request_bytes(size, align))
        }
    }

    /// The composite after the request.
    pub open spec fn allocate(self, size: usize, align: usize) -> AllocView {
        if self.uses_pool(size, align) {
            AllocView { pool: self.pool.malloc(request_bytes(size, align)), ..self }
        } else {
            AllocView { buddy: self.buddy.malloc(request_bytes(size, align)), ..self }
        }
    }

    /// The composite after the block or slot at `p` has been given back:
    /// to the pool if `p` lies in its region, else to the engine.
    pub open spec fn deallocate(self, p: int) -> AllocView {
        if self.pool.contains(p) {
            AllocView { pool: self.pool.free(p), ..self }
        } else {
            AllocView { buddy: self.buddy.free(p), ..self }
        }
    }

    /// Whether the block or slot at `p` is handed out.
    pub open spec fn is_live(self, p: int) -> bool {
        self.pool.live.contains(p) || self.buddy.live.contains_key(p)
    }

    /// The bytes that stand behind what is handed out at `p`: a slot of the
    /// pool, or a block of the engine.
    pub open spec fn live_bytes(self, p: int) -> int {
        if self.pool.live.contains(p) {
            BLOCK_SIZE as int
        } else {
            self.buddy.block(self.buddy.live[p])
        }
    }
}

/// An allocator for a single thread of execution: a pool for small
/// requests and a buddy engine for the rest.
pub struct NonThreadsafeAlloc {
    fast_alloc_param: FastAllocParam,
    fast_region: Option<Vec<u8>>,
    inner_fast_alloc: Option<FastAlloc>,
    buddy_alloc_param: BuddyAllocParam,
    buddy_region: Option<Vec<u8>>,
    inner_buddy_alloc: Option<BuddyAlloc>,
}

impl NonThreadsafeAlloc {
    /// What the composite stands for. A part that is not built yet stands
    /// for what it will be when built.
    pub closed spec fn view(&self) -> AllocView {
        AllocView {
            pool: match self.inner_fast_alloc {
                Some(a) => a@,
                None => self.fast_alloc_param.initial_view(),
            },
            buddy: match self.inner_buddy_alloc {
                Some(a) => a@,
                None => self.buddy_alloc_param.initial_view(),
            },
        }
    }

    /// The byte at address `addr` of what is handed out.
    pub closed spec fn byte(&self, addr: int) -> u8 {
        if self@.pool.contains(addr) {
            match self.inner_fast_alloc {
                Some(a) => a.byte(addr),
                None => 0u8,
            }
        } else {
            match self.inner_buddy_alloc {
                Some(a) => a.byte(addr),
                None => 0u8,
            }
        }
    }

    /// Whether `a` is the address of a byte of the slot or block that is
    /// handed out at `q`.
    pub open spec fn in_live(&self, q: int, a: int) -> bool {
        self@.is_live(q) && q <= a < q + self@.live_bytes(q)
    }

    /// This composite holds what `o` holds in all that `o` has handed out,
    /// but perhaps the slot or block at `but`.
    pub open spec fn keeps(&self, o: &NonThreadsafeAlloc, but: int) -> bool {
        forall|q: int, a: int| #[trigger] o.in_live(q, a) && q != but ==> self.byte(a) == o.byte(a)
    }

    /// Both parts are consistent, or can be built, and their regions do not
    /// overlap.
    pub closed spec fn wf(&self) -> bool {
        &&& self.fast_alloc_param.valid()
        &&& self.buddy_alloc_param.valid()
        &&& match self.inner_fast_alloc {
            Some(a) => a.wf() && self.fast_region is None,
            None => self.fast_region is Some && self.fast_region->0@.len()
                == self.fast_alloc_param.len(),
        }
        &&& match self.inner_buddy_alloc {
            Some(a) => a.wf() && self.buddy_region is None,
            None => self.buddy_region is Some && self.buddy_alloc_param.fits(self.buddy_region->0@),
        }
        &&& self@.pool.base == self.fast_alloc_param.base_addr()
        &&& self@.pool.end == self.fast_alloc_param.base_addr() + self.fast_alloc_param.len()
        &&& self@.buddy.base == self.buddy_alloc_param.data_base()
        &&& self@.buddy.end == self.buddy_alloc_param.end()
        &&& (self@.pool.end <= self@.buddy.base || self@.buddy.end <= self@.pool.base)
    }

    /// Whether the two regions can carry a composite: each can carry its
    /// part, and they do not overlap.
    pub open spec fn fits(
        fast_alloc_param: FastAllocParam,
        buddy_alloc_param: BuddyAllocParam,
    ) -> bool {
        &&& fast_alloc_param.valid()
        &&& buddy_alloc_param.valid()
        &&& (fast_alloc_param.base_addr() + fast_alloc_param.len() <= buddy_alloc_param.base_addr()
            || buddy_alloc_param.end() <= fast_alloc_param.base_addr())
    }

    /// A composite over the two regions, which must not overlap, and whose
    /// bytes are `fast_region` and `buddy_region`. Neither part is built
    /// yet.
    pub fn new(
        fast_alloc_param: FastAllocParam,
        fast_region: Vec<u8>,
        buddy_alloc_param: BuddyAllocParam,
        buddy_region: Vec<u8>,
    ) -> (alloc: Self)
        requires
            Self::fits(fast_alloc_param, buddy_alloc_param),
            fast_region@.len() == fast_alloc_param.len(),
            buddy_alloc_param.fits(buddy_region@),
        ensures
            alloc.wf(),
            alloc@.pool == fast_alloc_param.initial_view(),
            alloc@.buddy == buddy_alloc_param.initial_view(),
    {
        proof {
            buddy_alloc_param.lemma_data_base();
        }
        NonThreadsafeAlloc {
            fast_region: Some(fast_region),
            inner_fast_alloc: None,
            buddy_region: Some(buddy_region),
            inner_buddy_alloc: None,
            fast_alloc_param,
            buddy_alloc_param,
        }
    }

    /// As `new`, for regions that may not be able to carry a composite.
    pub fn try_new(
        fast_alloc_param: FastAllocParam,
        fast_region: Vec<u8>,
        buddy_alloc_param: BuddyAllocParam,
        buddy_region: Vec<u8>,
    ) -> (r: Option<Self>)
        requires
            fast_region@.len() == fast_alloc_param.len(),
            buddy_alloc_param.fits(buddy_region@),
        ensures
            r is Some <==> Self::fits(fast_alloc_param, buddy_alloc_param),
            r matches Some(alloc) ==> alloc.wf() && alloc@.pool == fast_alloc_param.initial_view()
                && alloc@.buddy == buddy_alloc_param.initial_view(),
    {
        if !FastAlloc::can_build(&fast_alloc_param) || !BuddyAlloc::can_build(&buddy_alloc_param) {
            return None;
        }
        let (fast_base, fast_len) = fast_alloc_param.region();
        let (buddy_base, buddy_len) = buddy_alloc_param.region();
        let apart: bool = fast_base + fast_len <= buddy_base || buddy_base + buddy_len
            <= fast_base;
        if apart {
            Some(Self::new(fast_alloc_param, fast_region, buddy_alloc_param, buddy_region))
        } else {
            None
        }
    }

    /// Builds the pool if it is not built yet.
    fn fetch_fast_alloc(&mut self)
        requires
            old(self).wf(),
        ensures
            final(self).wf(),
            final(self)@ == old(self)@,
            final(self).inner_fast_alloc is Some,
            final(self).inner_buddy_alloc == old(self).inner_buddy_alloc,
            old(self).inner_fast_alloc is Some ==> final(self).inner_fast_alloc
                == old(self).inner_fast_alloc,
    {
        if self.inner_fast_alloc.is_none() {
            match self.fast_region.take() {
                Some(region) => {
                    self.inner_fast_alloc = Some(FastAlloc::new(self.fast_alloc_param, region));
                },
                None => {},
            }
        }
    }

    /// Builds the engine if it is not built yet.
    fn fetch_buddy_alloc(&mut self)
        requires
            old(self).wf(),
        ensures
            final(self).wf(),
            final(self)@ == old(self)@,
            final(self).inner_buddy_alloc is Some,
            final(self).inner_fast_alloc == old(self).inner_fast_alloc,
            old(self).inner_buddy_alloc is Some ==> final(self).inner_buddy_alloc
                == old(self).inner_buddy_alloc,
    {
        if self.inner_buddy_alloc.is_none() {
            match self.buddy_region.take() {
                Some(region) => {
                    self.inner_buddy_alloc = Some(BuddyAlloc::new(self.buddy_alloc_param, region));
                },
                None => {},
            }
        }
    }

    /// Serves the request with the engine.
    fn buddy_malloc(&mut self, nbytes: usize) -> (p: usize)
        requires
            old(self).wf(),
        ensures
            final(self).wf(),
            p == old(self)@.buddy.malloc_ptr(nbytes as nat),
            final(self)@
                == (AllocView { buddy: old(self)@.buddy.malloc(nbytes as nat), ..old(self)@ }),
            p != 0 ==> !final(self)@.pool.contains(p as int)
                && final(self)@.buddy.live.contains_key(p as int)
                && !old(self)@.buddy.live.contains_key(p as int),
            final(self).keeps(old(self), 0),
    {
        self.fetch_buddy_alloc();
        let ghost mid = *self;
        let p: usize = match &mut self.inner_buddy_alloc {
            Some(alloc) => {
                let p: usize = alloc.malloc(nbytes);
                proof {
                    if p != 0 {
                        alloc.lemma_live_in_span(p as int);
                    }
                }
                p
            },
            None => 0,
        };
        proof {
            assert forall|q: int, a: int| #[trigger] old(self).in_live(q, a) && q != 0
                implies self.byte(a) == old(self).byte(a) by {
                old(self).lemma_not_both(q);
                old(self).lemma_in_part(q, a);
                if old(self)@.buddy.live.contains_key(q) {
                    assert(mid.inner_buddy_alloc->0.in_live(q, a));
                }
            }
        }
        p
    }

    /// Serves a request of `size` bytes aligned to `align` with a block or
    /// slot of at least the larger of the two. Returns its address, or 0 if
    /// neither part can serve the request.
    pub fn allocate(&mut self, size: usize, align: usize) -> (p: usize)
        requires
            old(self).wf(),
        ensures
            final(self).wf(),
            p == old(self)@.allocate_ptr(size, align),
            final(self)@ == old(self)@.allocate(size, align),
            p != 0 ==> final(self)@.is_live(p as int) && !old(self)@.is_live(p as int),
            p != 0 ==> final(self)@.pool.contains(p as int) == old(self)@.uses_pool(size, align),
            final(self).keeps(old(self), 0),
    {
        let bytes: usize = if size >= align {
            size
        } else {
            align
        };
        let ghost before = *self;
        if bytes > MAX_FAST_ALLOC_SIZE {
            let p: usize = self.buddy_malloc(bytes);
            proof {
                before.lemma_not_both(p as int);
            }
            p
        } else {
            self.fetch_fast_alloc();
            let ghost mid = *self;
            let mut p: usize = match &mut self.inner_fast_alloc {
                Some(alloc) => {
                    let p: usize = alloc.malloc(bytes);
                    proof {
                        alloc.lemma_slots();
                    }
                    p
                },
                None => 0,
            };
            proof {
                assert forall|q: int, a: int| #[trigger] before.in_live(q, a) && q != 0
                    implies self.byte(a) == before.byte(a) by {
                    before.lemma_not_both(q);
                    before.lemma_in_part(q, a);
                    if before@.pool.live.contains(q) {
                        assert(mid.inner_fast_alloc->0.in_live(q, a));
                    }
                }
            }
            let ghost served = *self;
            if p == 0 {
                p = self.buddy_malloc(bytes);
                proof {
                    assert forall|q: int, a: int| #[trigger] before.in_live(q, a) && q != 0
                        implies self.byte(a) == before.byte(a) by {
                        assert(served.in_live(q, a));
                    }
                }
            }
            proof {
                self.lemma_not_both(p as int);
                before.lemma_not_both(p as int);
            }
            p
        }
    }

    /// What is handed out by one part is not handed out by the other, and
    /// lies in the pool's region exactly if the pool handed it out.
    pub proof fn lemma_not_both(&self, p: int)
        requires
            self.wf(),
        ensures
            !(self@.pool.live.contains(p) && self@.buddy.live.contains_key(p)),
            self@.pool.live.contains(p) ==> self@.pool.contains(p),
            self@.buddy.live.contains_key(p) ==> !self@.pool.contains(p),
    {
        match self.inner_fast_alloc {
            Some(a) => {
                a.lemma_slots();
            },
            None => {},
        }
        match self.inner_buddy_alloc {
            Some(a) => {
                if a@.live.contains_key(p) {
                    a.lemma_live_in_span(p);
                }
            },
            None => {},
        }
    }

    /// A byte of what a part has handed out lies in the region of that
    /// part, which is built.
    proof fn lemma_in_part(&self, q: int, a: int)
        requires
            self.wf(),
            self.in_live(q, a),
        ensures
            self@.pool.live.contains(q) ==> self@.pool.contains(a) && self.inner_fast_alloc is Some,
            self@.buddy.live.contains_key(q) ==> !self@.pool.contains(a)
                && self.inner_buddy_alloc is Some,
    {
        self.lemma_not_both(q);
        match self.inner_fast_alloc {
            Some(x) => {
                x.lemma_slots();
            },
            None => {},
        }
        match self.inner_buddy_alloc {
            Some(x) => {
                if x@.live.contains_key(q) {
                    x.lemma_live_in_span(q);
                }
            },
            None => {},
        }
    }

    /// Two that are handed out, whether slots or blocks, do not overlap.
    pub proof fn lemma_live_disjoint(&self, p: int, q: int)
        requires
            self.wf(),
            self@.is_live(p),
            self@.is_live(q),
            p != q,
        ensures
            p + self@.live_bytes(p) <= q || q + self@.live_bytes(q) <= p,
    {
        self.lemma_not_both(p);
        self.lemma_not_both(q);
        match self.inner_fast_alloc {
            Some(a) => {
                a.lemma_slots();
                if a@.live.contains(p) && a@.live.contains(q) {
                    a.lemma_live_disjoint(p, q);
                }
            },
            None => {},
        }
        match self.inner_buddy_alloc {
            Some(b) => {
                if b@.live.contains_key(p) {
                    b.lemma_live_in_span(p);
                }
                if b@.live.contains_key(q) {
                    b.lemma_live_in_span(q);
                }
                if b@.live.contains_key(p) && b@.live.contains_key(q) {
                    b.lemma_live_disjoint(p, q);
                }
            },
            None => {},
        }
    }

    /// Gives the block or slot at `ptr` back to the part whose region it
    /// lies in. The size and alignment of the request are not needed.
    pub fn deallocate(&mut self, ptr: usize, size: usize, align: usize)
        requires
            old(self).wf(),
            old(self)@.is_live(ptr as int),
        ensures
            final(self).wf(),
            final(self)@ == old(self)@.deallocate(ptr as int),
            final(self).keeps(old(self), ptr as int),
    {
        proof {
            self.lemma_not_both(ptr as int);
        }
        self.fetch_fast_alloc();
        let ghost mid = *self;
        let freed: bool = match &mut self.inner_fast_alloc {
            Some(alloc) => {
                if alloc.contains_ptr(ptr) {
                    alloc.free(ptr);
                    true
                } else {
                    false
                }
            },
            None => false,
        };
        let ghost mid2 = *self;
        if !freed {
            self.fetch_buddy_alloc();
            match &mut self.inner_buddy_alloc {
                Some(alloc) => {
                    alloc.free(ptr);
                },
                None => {},
            }
        }
        proof {
            assert forall|q: int, a: int| #[trigger] old(self).in_live(q, a) && q != ptr
                implies self.byte(a) == old(self).byte(a) by {
                old(self).lemma_not_both(q);
                old(self).lemma_in_part(q, a);
                if old(self)@.pool.live.contains(q) {
                    assert(mid.inner_fast_alloc->0.in_live(q, a));
                } else {
                    assert(old(self).inner_buddy_alloc->0.in_live(q, a));
                }
            }
        }
    }

    /// Reads the byte at address `addr` of what is handed out.
    pub fn read(&self, addr: usize) -> (b: u8)
        requires
            self.wf(),
            exists|q: int| self.in_live(q, addr as int),
        ensures
            b == self.byte(addr as int),
    {
        proof {
            let q = choose|q: int| self.in_live(q, addr as int);
            self.lemma_not_both(q);
            self.lemma_in_part(q, addr as int);
            if self@.buddy.live.contains_key(q) {
                self.inner_buddy_alloc->0.lemma_live_in_span(q);
                self.inner_buddy_alloc->0.lemma_in_region(q, addr as int);
            }
        }
        if self.contains_ptr(addr) {
            match &self.inner_fast_alloc {
                Some(alloc) => alloc.read(addr),
                None => 0,
            }
        } else {
            match &self.inner_buddy_alloc {
                Some(alloc) => alloc.read(addr),
                None => 0,
            }
        }
    }

    /// Whether `p` lies in the region of the pool.
    pub fn contains_ptr(&self, p: usize) -> (r: bool)
        requires
            self.wf(),
        ensures
            r == self@.pool.contains(p as int),
    {
        let (base, len) = self.fast_alloc_param.region();
        p >= base && p - base < len
    }

    /// Writes the byte at address `addr` of what is handed out. The
    /// composite stays as it is.
    pub fn write(&mut self, addr: usize, b: u8)
        requires
            old(self).wf(),
            exists|q: int| old(self).in_live(q, addr as int),
        ensures
            final(self).wf(),
            final(self)@ == old(self)@,
            final(self).byte(addr as int) == b,
            forall|q: int, a: int| #[trigger]
                old(self).in_live(q, a) && a != addr ==> final(self).byte(a) == old(self).byte(a),
    {
        let ghost q0 = choose|q: int| self.in_live(q, addr as int);
        proof {
            self.lemma_not_both(q0);
            self.lemma_in_part(q0, addr as int);
        }
        if self.contains_ptr(addr) {
            match &mut self.inner_fast_alloc {
                Some(alloc) => {
                    proof {
                        assert(alloc.in_live(q0, addr as int));
                    }
                    alloc.write(addr, b);
                },
                None => {},
            }
        } else {
            match &mut self.inner_buddy_alloc {
                Some(alloc) => {
                    proof {
                        assert(alloc.in_live(q0, addr as int));
                    }
                    alloc.write(addr, b);
                },
                None => {},
            }
        }
        proof {
            assert forall|q: int, a: int| #[trigger] old(self).in_live(q, a) && a != addr
                implies self.byte(a) == old(self).byte(a) by {
                old(self).lemma_not_both(q);
                old(self).lemma_in_part(q, a);
                if old(self)@.buddy.live.contains_key(q) {
                    old(self).inner_buddy_alloc->0.lemma_live_in_span(q);
                    old(self).inner_buddy_alloc->0.lemma_in_region(q, a);
                }
            }
        }
    }
}

} // verus!
