//! Small-object pool.
//!
//! A region is cut into slots of 64 bytes. Free slots are kept on a list
//! that is threaded through the slots themselves: a free slot starts with
//! the addresses of the slots after and before it on a ring. Only the first
//! few slots are put on the list when the pool is built; the others are
//! handed out one after another when the list runs empty.
use crate::region::{lemma_linked, lemma_unlinked, span, Region};
use vstd::prelude::*;

verus! {

/// The bytes of a slot: the most that one request can ask for.
pub const BLOCK_SIZE: usize = 64;

/// The number of slots that are put on the free list when a pool is built,
/// unless the parameters say otherwise.
pub const DEFAULT_INITIALIZED_NODES: usize = 4;

/// What a pool is built from.
#[derive(Clone, Copy)]
pub struct FastAllocParam {
    base_addr: usize,
    len: usize,
    initialized_nodes: usize,
}

/// What a pool stands for.
pub struct PoolView {
    /// The address of the first slot.
    pub base: int,
    /// The address just past the last slot.
    pub end: int,
    /// The address of the first slot that has never been on the free list
    /// nor handed out.
    pub next: int,
    /// The addresses of the free slots, in the order in which they will be
    /// handed out.
    pub free: Seq<int>,
    /// The addresses of the slots that are handed out.
    pub live: Set<int>,
}

impl PoolView {
    /// Whether `p` lies in the region of the pool.
    pub open spec fn contains(self, p: int) -> bool {
        self.base <= p < self.end
    }

    /// The address that a request for `n` bytes is answered with: the head
    /// of the free list, else the next fresh slot, else 0; and 0 for more
    /// bytes than a slot has.
    pub open spec fn malloc_ptr(self, n: nat) -> int {
        if n > BLOCK_SIZE {
            0
        } else if self.free.len() > 0 {
            self.free[0]
        } else if self.next < self.end {
            self.next
        } else {
            0
        }
    }

    /// The pool after a request for `n` bytes.
    pub open spec fn malloc(self, n: nat) -> PoolView {
        if n > BLOCK_SIZE {
            self
        } else if self.free.len() > 0 {
            PoolView { free: self.free.drop_first(), live: self.live.insert(self.free[0]), ..self }
        } else if self.next < self.end {
            PoolView { next: self.next + BLOCK_SIZE, live: self.live.insert(self.next), ..self }
        } else {
            self
        }
    }

    /// The pool after the slot at `p` has been given back.
    pub open spec fn free(self, p: int) -> PoolView {
        PoolView { free: seq![p] + self.free, live: self.live.remove(p), ..self }
    }

    /// The number of slots in the pool.
    pub open spec fn total_slots(self) -> int {
        (self.end - self.base) / (BLOCK_SIZE as int)
    }

    /// The number of slots that have never been on the free list nor handed
    /// out.
    pub open spec fn fresh_slots(self) -> int {
        (self.end - self.next) / (BLOCK_SIZE as int)
    }
}

impl FastAllocParam {
    /// The address at which the region starts.
    pub closed spec fn base_addr(self) -> usize {
        self.base_addr
    }

    /// The bytes of the region.
    pub closed spec fn len(self) -> usize {
        self.len
    }

    /// The number of slots to put on the free list at once.
    pub closed spec fn initialized_nodes(self) -> usize {
        self.initialized_nodes
    }

    /// The parameters that a pool can be built from: a region of one or
    /// more whole slots, starting above address 0 and ending within the
    /// address space.
    pub open spec fn valid(self) -> bool {
        &&& self.base_addr() > 0
        &&& self.len() > 0
        &&& self.len() % BLOCK_SIZE == 0
        &&& self.base_addr() + self.len() <= usize::MAX
    }

    /// The number of slots that are on the free list of a fresh pool.
    pub open spec fn linked(self) -> int {
        if self.len() / BLOCK_SIZE <= self.initialized_nodes() {
            (self.len() / BLOCK_SIZE) as int
        } else {
            self.initialized_nodes() as int
        }
    }

    /// What a fresh pool over these parameters stands for: the first
    /// `linked()` slots are on the free list, the last of them at its head.
    pub open spec fn initial_view(self) -> PoolView {
        PoolView {
            base: self.base_addr() as int,
            end: self.base_addr() + self.len(),
            next: self.base_addr() + self.linked() * BLOCK_SIZE,
            free: Seq::new(
                self.linked() as nat,
                |j: int| self.base_addr() + (self.linked() - 1 - j) * BLOCK_SIZE,
            ),
            live: Set::empty(),
        }
    }

    /// The start and the bytes of the region.
    pub fn region(&self) -> (r: (usize, usize))
        ensures
            r.0 == self.base_addr(),
            r.1 == self.len(),
    {
        (self.base_addr, self.len)
    }

    /// Parameters for a region of `len` bytes at `base_addr`.
    pub fn new(base_addr: usize, len: usize) -> (param: Self)
        ensures
            param.base_addr() == base_addr,
            param.len() == len,
            param.initialized_nodes() == DEFAULT_INITIALIZED_NODES,
    {
        FastAllocParam { base_addr, len, initialized_nodes: DEFAULT_INITIALIZED_NODES }
    }

    /// Parameters for a region of `len` bytes at `base_addr`, of which
    /// `initialized_nodes` slots are put on the free list at once.
    pub fn new_with_initialized_nodes(
        base_addr: usize,
        len: usize,
        initialized_nodes: usize,
    ) -> (param: Self)
        ensures
            param.base_addr() == base_addr,
            param.len() == len,
            param.initialized_nodes() == initialized_nodes,
    {
        FastAllocParam { base_addr, len, initialized_nodes }
    }
}

/// A pool of slots of 64 bytes.
pub struct FastAlloc {
    region: Region,
    base_addr: usize,
    end_addr: usize,
    next_addr: usize,
    free: usize,
    list: Ghost<Seq<int>>,
    live: Ghost<Set<int>>,
}

impl FastAlloc {
    /// What the pool stands for.
    pub closed spec fn view(&self) -> PoolView {
        PoolView {
            base: self.base_addr as int,
            end: self.end_addr as int,
            next: self.next_addr as int,
            free: self.list@,
            live: self.live@,
        }
    }

    /// The byte of the region at address `addr`.
    pub closed spec fn byte(&self, addr: int) -> u8 {
        self.region.byte_at(addr)
    }

    /// Whether `a` is the address of a byte of the slot that is handed out
    /// at `q`.
    pub open spec fn in_live(&self, q: int, a: int) -> bool {
        self@.live.contains(q) && q <= a < q + BLOCK_SIZE
    }

    /// This pool holds what `o` holds in every slot that `o` has handed
    /// out, but perhaps the slot at `but`.
    pub open spec fn keeps(&self, o: &FastAlloc, but: int) -> bool {
        forall|q: int, a: int| #[trigger] o.in_live(q, a) && q != but ==> self.byte(a) == o.byte(a)
    }

    /// Whether a slot starts at the address `a`, among the slots that have
    /// been on the free list or handed out.
    spec fn slot_ok(&self, a: int) -> bool {
        &&& self.base_addr <= a
        &&& a + 64 <= self.next_addr
        &&& (a - self.base_addr) % 64 == 0
    }

    /// The address of the node that stands `j` steps after the head on the
    /// ring: the head is the slot that will be handed out last, and stands
    /// at both ends.
    spec fn node(&self, j: int) -> int {
        if 1 <= j < self.list@.len() {
            self.list@[j - 1]
        } else {
            self.list@[self.list@.len() - 1]
        }
    }

    /// The forward link of the node at ring position `j` and the backward
    /// link of the node after it agree.
    spec fn links_ok(&self, j: int) -> bool {
        &&& self.region.word_at(self.node(j)) == self.node(j + 1)
        &&& self.region.word_at(self.node(j + 1) + 8) == self.node(j)
    }

    /// The sizes are in order, and the free slots are linked into a ring.
    spec fn shape(&self) -> bool {
        &&& self.region.wf()
        &&& self.region.origin() == self.base_addr
        &&& self.region.end() == self.end_addr
        &&& 0 < self.base_addr <= self.next_addr <= self.end_addr
        &&& (self.next_addr - self.base_addr) % 64 == 0
        &&& (self.end_addr - self.base_addr) % 64 == 0
        &&& self.list@.no_duplicates()
        &&& forall|j: int| 0 <= j < self.list@.len() ==> self.slot_ok(#[trigger] self.list@[j])
        &&& self.free == if self.list@.len() == 0 {
            0
        } else {
            self.list@[self.list@.len() - 1]
        }
        &&& forall|j: int| 0 <= j < self.list@.len() ==> #[trigger] self.links_ok(j)
    }

    /// The bookkeeping is consistent: every slot that was ever linked or
    /// handed out is either on the free list or handed out, and not both.
    pub closed spec fn wf(&self) -> bool {
        &&& self.shape()
        &&& forall|p: int| #[trigger] self.live@.contains(p) ==> self.slot_ok(p)
            && !self.list@.contains(p)
        &&& self.live@.finite()
        &&& self.live@.len() + self.list@.len() == (self.next_addr - self.base_addr) / 64
    }

    /// Every slot is on the free list, handed out or fresh; what is handed
    /// out lies in the pool on a slot boundary and is not on the free list.
    pub proof fn lemma_slots(&self)
        requires
            self.wf(),
        ensures
            self@.free.len() + self@.live.len() + self@.fresh_slots() == self@.total_slots(),
            self@.base > 0,
            self@.base <= self@.next <= self@.end,
            forall|p: int| #[trigger]
                self@.live.contains(p) ==> self@.contains(p) && p + BLOCK_SIZE <= self@.next && (p
                    - self@.base) % (BLOCK_SIZE as int) == 0 && !self@.free.contains(p),
            forall|j: int|
                0 <= j < self@.free.len() ==> self@.contains(#[trigger] self@.free[j])
                    && self@.free[j] < self@.next && (self@.free[j] - self@.base) % (
                BLOCK_SIZE as int) == 0,
            self@.free.no_duplicates(),
    {
        assert forall|j: int| 0 <= j < self@.free.len() implies self@.contains(
            #[trigger] self@.free[j],
        ) && self@.free[j] < self@.next && (self@.free[j] - self@.base) % (BLOCK_SIZE as int)
            == 0 by {
            assert(self.slot_ok(self.list@[j]));
        }
    }

    /// Two slots that are handed out do not overlap, and each lies within
    /// the pool.
    pub proof fn lemma_live_disjoint(&self, p: int, q: int)
        requires
            self.wf(),
            self@.live.contains(p),
            self@.live.contains(q),
            p != q,
        ensures
            p + BLOCK_SIZE <= q || q + BLOCK_SIZE <= p,
            self@.base <= p,
            p + BLOCK_SIZE <= self@.next <= self@.end,
    {
    }

    /// Where the nodes of the ring lie, and that different places of the
    /// ring, the last aside, hold different nodes.
    proof fn lemma_ring(&self, j1: int, j2: int)
        requires
            self.shape(),
            self.list@.len() > 0,
        ensures
            self.slot_ok(self.node(j1)),
            self.region.holds(self.node(j1), 16),
            self.node(j1) == self.node(j2) || self.node(j1) + 64 <= self.node(j2) || self.node(j2)
                + 64 <= self.node(j1),
            (0 <= j1 < self.list@.len() && 0 <= j2 < self.list@.len() && self.node(j1) == self.node(
                j2,
            )) ==> j1 == j2,
            self.node(self.list@.len() as int) == self.node(0),
            self.node(0) == self.free,
    {
        let m = self.list@.len() as int;
        let a1 = if 1 <= j1 < m {
            j1 - 1
        } else {
            m - 1
        };
        let a2 = if 1 <= j2 < m {
            j2 - 1
        } else {
            m - 1
        };
        assert(self.slot_ok(self.list@[a1]));
        assert(self.slot_ok(self.list@[a2]));
        if a1 != a2 {
            assert(self.list@[a1] != self.list@[a2]);
        }
    }

    /// Whether a pool can be built from `param`.
    pub fn can_build(param: &FastAllocParam) -> (ok: bool)
        ensures
            ok == param.valid(),
    {
        param.base_addr > 0 && param.len > 0 && param.len % BLOCK_SIZE == 0 && param.len
            <= usize::MAX - param.base_addr
    }

    /// A pool over the region of `param`, whose bytes are `region`, with
    /// the first slots on the free list.
    pub fn new(param: FastAllocParam, region: Vec<u8>) -> (alloc: FastAlloc)
        requires
            param.valid(),
            region@.len() == param.len(),
        ensures
            alloc.wf(),
            alloc@ == param.initial_view(),
    {
        let nblocks: usize = param.len / BLOCK_SIZE;
        let base_addr: usize = param.base_addr;
        let end_addr: usize = base_addr + nblocks * BLOCK_SIZE;
        let cblocks: usize = if nblocks <= param.initialized_nodes {
            nblocks
        } else {
            param.initialized_nodes
        };
        let mut alloc = FastAlloc {
            region: Region::new(base_addr, region),
            base_addr,
            end_addr,
            next_addr: base_addr,
            free: 0,
            list: Ghost(Seq::empty()),
            live: Ghost(Set::empty()),
        };
        let mut i: usize = 0;
        while i < cblocks
            invariant
                i <= cblocks <= nblocks,
                alloc.wf(),
                alloc.base_addr == base_addr,
                alloc.end_addr == base_addr + nblocks * 64,
                alloc.next_addr == base_addr + i * 64,
                alloc.live@ == Set::<int>::empty(),
                alloc.list@.len() == i,
                forall|j: int| 0 <= j < i ==> #[trigger] alloc.list@[j]
                    == base_addr + (i - 1 - j) * 64,
            decreases cblocks - i,
        {
            let p: usize = alloc.next_addr;
            let ghost before = alloc.list@;
            let ghost was = alloc;
            alloc.next_addr = alloc.next_addr + BLOCK_SIZE;
            proof {
                alloc.live@ = alloc.live@.insert(p as int);
                assert(alloc.live@.len() == 1);
                assert(alloc.shape()) by {
                    assert forall|j: int| 0 <= j < alloc.list@.len() implies alloc.slot_ok(
                        #[trigger] alloc.list@[j],
                    ) by {
                        assert(was.slot_ok(was.list@[j]));
                    }
                    assert forall|j: int| 0 <= j < alloc.list@.len()
                        implies #[trigger] alloc.links_ok(j) by {
                        assert(was.links_ok(j));
                    }
                }
                assert(!alloc.list@.contains(p as int)) by {
                    if alloc.list@.contains(p as int) {
                        let j = alloc.list@.index_of(p as int);
                        assert(alloc.list@[j] == base_addr + (i - 1 - j) * 64);
                    }
                }
            }
            alloc.free(p);
            proof {
                assert(alloc.live@ =~= Set::<int>::empty());
                assert forall|j: int| 0 <= j < i + 1 implies #[trigger] alloc.list@[j] == base_addr
                    + (i - j) * 64 by {
                    if j >= 1 {
                        assert(alloc.list@[j] == before[j - 1]);
                    }
                }
            }
            i += 1;
        }
        proof {
            assert(alloc@.free =~= param.initial_view().free);
        }
        alloc
    }

    /// Whether `p` lies in the region of the pool.
    pub fn contains_ptr(&self, p: usize) -> (r: bool)
        ensures
            r == self@.contains(p as int),
    {
        p >= self.base_addr && p < self.end_addr
    }

    /// Serves a request for `nbytes` bytes with a slot: the head of the
    /// free list, or the next fresh slot when the list is empty. Returns the
    /// address of the slot, or 0 if `nbytes` is more than a slot has or no
    /// slot is left.
    pub fn malloc(&mut self, nbytes: usize) -> (p: usize)
        requires
            old(self).wf(),
        ensures
            final(self).wf(),
            p == old(self)@.malloc_ptr(nbytes as nat),
            final(self)@ == old(self)@.malloc(nbytes as nat),
            p == 0 <==> nbytes > BLOCK_SIZE || (old(self)@.free.len() == 0 && old(self)@.next
                >= old(self)@.end),
            p != 0 ==> final(self)@.live.contains(p as int) && !old(self)@.live.contains(p as int),
            final(self).keeps(old(self), 0),
    {
        if nbytes > BLOCK_SIZE {
            return 0;
        }
        if self.free == 0 {
            if self.next_addr < self.end_addr {
                let result: usize = self.next_addr;
                self.next_addr += BLOCK_SIZE;
                proof {
                    self.live@ = self.live@.insert(result as int);
                    assert forall|j: int| 0 <= j < self.list@.len() implies self.slot_ok(
                        #[trigger] self.list@[j],
                    ) by {
                        assert(old(self).slot_ok(self.list@[j]));
                    }
                }
                return result;
            } else {
                return 0;
            }
        }
        let ghost pre = *self;
        let ghost m = self.list@.len() as int;
        proof {
            pre.lemma_ring(0, 1);
            pre.lemma_ring(1, 2);
            pre.lemma_ring(2, 0);
            assert(pre.links_ok(0));
            if m >= 2 {
                assert(pre.links_ok(1));
            }
        }
        let is_last: bool = self.region.read_word(self.free) == self.free;
        let p: usize = self.region.read_word(self.free);
        let prev: usize = self.region.read_word(p + 8);
        let next: usize = self.region.read_word(p);
        let ghost r0 = self.region;
        self.region.write_word(prev, next);
        let ghost r1 = self.region;
        self.region.write_word(next + 8, prev);
        if is_last {
            self.free = 0;
        }
        proof {
            self.list@ = self.list@.drop_first();
            self.live@ = self.live@.insert(p as int);
            lemma_unlinked(&r0, &r1, &self.region, prev as int, next as int);
            Self::lemma_popped(&pre, self);
        }
        p
    }

    /// The ring after the node behind the head has been taken out.
    proof fn lemma_popped(pre: &FastAlloc, post: &FastAlloc)
        requires
            pre.wf(),
            pre.list@.len() > 0,
            post.base_addr == pre.base_addr,
            post.end_addr == pre.end_addr,
            post.next_addr == pre.next_addr,
            post.list@ == pre.list@.drop_first(),
            post.live@ == pre.live@.insert(pre.list@[0]),
            post.free == if pre.list@.len() == 1 {
                0
            } else {
                pre.free as int
            },
            post.region.wf(),
            post.region.same_except(
                &pre.region,
                span(pre.node(0), 8).union(span(pre.node(2) + 8, 8)),
            ),
            pre.list@.len() >= 2 ==> post.region.word_at(pre.node(0)) == pre.node(2)
                && post.region.word_at(pre.node(2) + 8) == pre.node(0),
        ensures
            post.wf(),
            post.keeps(pre, 0),
    {
        let m = pre.list@.len() as int;
        let t = span(pre.node(0), 8).union(span(pre.node(2) + 8, 8));
        pre.lemma_ring(0, 2);
        assert(pre.list@.contains(pre.list@[0]));
        assert forall|j: int| 0 <= j < post.list@.len() implies post.slot_ok(
            #[trigger] post.list@[j],
        ) by {
            assert(pre.slot_ok(pre.list@[j + 1]));
        }
        assert forall|a: int, b: int|
            0 <= a < post.list@.len() && 0 <= b < post.list@.len() && a != b implies post.list@[a]
            != post.list@[b] by {
            assert(pre.list@[a + 1] != pre.list@[b + 1]);
        }
        assert forall|j: int| 0 <= j < post.list@.len() implies #[trigger] post.links_ok(j) by {
            assert(post.node(j) == if j == 0 {
                pre.node(0)
            } else {
                pre.node(j + 1)
            });
            assert(post.node(j + 1) == pre.node(j + 2));
            if j >= 1 {
                assert(pre.links_ok(j + 1));
                pre.lemma_ring(j + 1, 0);
                pre.lemma_ring(j + 1, 2);
                pre.lemma_ring(j + 2, 0);
                pre.lemma_ring(j + 2, 2);
                post.region.lemma_word_same_except(&pre.region, t, pre.node(j + 1));
                post.region.lemma_word_same_except(&pre.region, t, pre.node(j + 2) + 8);
            }
        }
        assert forall|p: int| #[trigger] post.live@.contains(p) implies post.slot_ok(p)
            && !post.list@.contains(p) by {
            if post.list@.contains(p) {
                let j = post.list@.index_of(p);
                assert(pre.list@[j + 1] == p);
                assert(pre.list@.contains(p));
                assert(pre.list@[j + 1] != pre.list@[0]);
            }
            if p == pre.list@[0] {
                assert(pre.slot_ok(pre.list@[0]));
            }
        }
        assert forall|q: int, a: int| #[trigger] pre.in_live(q, a) implies post.byte(a) == pre.byte(
            a,
        ) by {
            assert(pre.slot_ok(q));
            pre.lemma_ring(0, 2);
            assert(pre.list@.contains(pre.node(0)));
            assert(pre.list@.contains(pre.node(2)));
            post.region.lemma_byte_same_except(&pre.region, t, a);
        }
    }

    /// Gives the slot at `p` back: it becomes the head of the free list.
    pub fn free(&mut self, p: usize)
        requires
            old(self).wf(),
            old(self)@.live.contains(p as int),
        ensures
            final(self).wf(),
            final(self)@ == old(self)@.free(p as int),
            final(self).keeps(old(self), p as int),
    {
        let ghost pre = *self;
        proof {
            assert(pre.slot_ok(p as int));
        }
        if self.free == 0 {
            let ghost r0 = self.region;
            self.region.write_word(p, p);
            let ghost r1 = self.region;
            self.region.write_word(p + 8, p);
            self.free = p;
            proof {
                self.list@ = seq![p as int];
                self.live@ = self.live@.remove(p as int);
                self.region.lemma_word_kept(&r1, p as int, p + 8, 8);
                assert(self.list@ =~= seq![p as int] + pre.list@);
                assert(self.links_ok(0));
                assert forall|q: int, a: int| #[trigger] pre.in_live(q, a) && q != p
                    implies self.byte(a) == pre.byte(a) by {
                    assert(pre.slot_ok(q));
                    assert(self.region@[a - self.region.origin()] == r1@[a - r1.origin()]);
                    assert(r1@[a - r1.origin()] == r0@[a - r0.origin()]);
                }
            }
        } else {
            proof {
                pre.lemma_ring(0, 1);
                assert(pre.links_ok(0));
                assert(!pre.list@.contains(p as int));
                assert(pre.list@.contains(pre.node(0)));
                assert(pre.list@.contains(pre.node(1)));
            }
            let list: usize = self.free;
            let first: usize = self.region.read_word(list);
            let ghost r0 = self.region;
            self.region.write_word(p + 8, list);
            let ghost r1 = self.region;
            self.region.write_word(p, first);
            let ghost r2 = self.region;
            self.region.write_word(first + 8, p);
            let ghost r3 = self.region;
            self.region.write_word(list, p);
            proof {
                self.list@ = seq![p as int] + self.list@;
                self.live@ = self.live@.remove(p as int);
                lemma_linked(&r0, &r1, &r2, &r3, &self.region, list as int, p as int, first as int);
                Self::lemma_pushed(&pre, self, p as int);
            }
        }
    }

    /// The ring after the slot at `p` has been linked in behind the head.
    proof fn lemma_pushed(pre: &FastAlloc, post: &FastAlloc, p: int)
        requires
            pre.wf(),
            pre.list@.len() > 0,
            pre.live@.contains(p),
            post.base_addr == pre.base_addr,
            post.end_addr == pre.end_addr,
            post.next_addr == pre.next_addr,
            post.free == pre.free,
            post.list@ == seq![p] + pre.list@,
            post.live@ == pre.live@.remove(p),
            post.region.wf(),
            post.region.same_except(
                &pre.region,
                span(p, 16).union(span(pre.node(1) + 8, 8)).union(span(pre.node(0), 8)),
            ),
            post.region.word_at(pre.node(0)) == p,
            post.region.word_at(pre.node(1) + 8) == p,
            post.region.word_at(p) == pre.node(1),
            post.region.word_at(p + 8) == pre.node(0),
        ensures
            post.wf(),
            post.keeps(pre, p),
    {
        let m = pre.list@.len() as int;
        let h = pre.node(0);
        let first = pre.node(1);
        let t = span(p, 16).union(span(first + 8, 8)).union(span(h, 8));
        pre.lemma_ring(0, 1);
        assert(pre.slot_ok(p));
        assert(!pre.list@.contains(p));
        assert forall|j: int| 0 <= j < post.list@.len() implies post.slot_ok(
            #[trigger] post.list@[j],
        ) by {
            if j >= 1 {
                assert(pre.slot_ok(pre.list@[j - 1]));
            }
        }
        assert forall|a: int, b: int|
            0 <= a < post.list@.len() && 0 <= b < post.list@.len() && a != b implies post.list@[a]
            != post.list@[b] by {
            if a >= 1 && b >= 1 {
                assert(pre.list@[a - 1] != pre.list@[b - 1]);
            } else if a == 0 {
                assert(pre.list@.contains(pre.list@[b - 1]));
            } else {
                assert(pre.list@.contains(pre.list@[a - 1]));
            }
        }
        assert forall|j: int| 0 <= j < post.list@.len() implies #[trigger] post.links_ok(j) by {
            assert(post.node(0) == h);
            assert(post.node(1) == p);
            assert(post.node(j + 1) == if j == 0 {
                p
            } else {
                pre.node(j)
            });
            if j >= 2 {
                assert(post.node(j) == pre.node(j - 1));
                assert(pre.links_ok(j - 1));
                pre.lemma_ring(j - 1, 0);
                pre.lemma_ring(j - 1, 1);
                pre.lemma_ring(j, 0);
                pre.lemma_ring(j, 1);
                assert(pre.list@.contains(pre.node(j - 1)));
                assert(pre.list@.contains(pre.node(j)));
                post.region.lemma_word_same_except(&pre.region, t, pre.node(j - 1));
                post.region.lemma_word_same_except(&pre.region, t, pre.node(j) + 8);
            }
        }
        assert forall|q: int| #[trigger] post.live@.contains(q) implies post.slot_ok(q)
            && !post.list@.contains(q) by {
            assert(pre.live@.contains(q));
            if post.list@.contains(q) {
                let j = post.list@.index_of(q);
                if j >= 1 {
                    assert(pre.list@[j - 1] == q);
                    assert(pre.list@.contains(q));
                }
            }
        }
        assert forall|q: int, a: int| #[trigger] pre.in_live(q, a) && q != p implies post.byte(a)
            == pre.byte(a) by {
            assert(pre.slot_ok(q));
            assert(pre.list@.contains(h));
            assert(pre.list@.contains(first));
            post.region.lemma_byte_same_except(&pre.region, t, a);
        }
    }

    /// Reads the byte at address `addr` of the pool's region.
    pub fn read(&self, addr: usize) -> (b: u8)
        requires
            self.wf(),
            self@.contains(addr as int),
        ensures
            b == self.byte(addr as int),
    {
        self.region.read(addr)
    }

    /// Writes the byte at address `addr`, which lies in a slot that is
    /// handed out. The pool stays as it is.
    pub fn write(&mut self, addr: usize, b: u8)
        requires
            old(self).wf(),
            exists|q: int| old(self).in_live(q, addr as int),
        ensures
            final(self).wf(),
            final(self)@ == old(self)@,
            final(self).byte(addr as int) == b,
            forall|a: int|
                a != addr && old(self)@.contains(a) ==> #[trigger] final(self).byte(a)
                    == old(self).byte(a),
    {
        let ghost q = choose|q: int| self.in_live(q, addr as int);
        let ghost pre = *self;
        proof {
            assert(pre.slot_ok(q));
        }
        self.region.write(addr, b);
        proof {
            assert forall|j: int| 0 <= j < self.list@.len() implies self.slot_ok(
                #[trigger] self.list@[j],
            ) by {
                assert(pre.slot_ok(pre.list@[j]));
            }
            assert forall|j: int| 0 <= j < self.list@.len() implies #[trigger] self.links_ok(j) by {
                assert(pre.links_ok(j));
                pre.lemma_ring(j, j + 1);
                pre.lemma_ring(j + 1, j);
                assert(pre.list@.contains(pre.node(j)));
                assert(pre.list@.contains(pre.node(j + 1)));
                self.region.lemma_word_kept(&pre.region, pre.node(j), addr as int, 1);
                self.region.lemma_word_kept(&pre.region, pre.node(j + 1) + 8, addr as int, 1);
            }
        }
    }
}

} // verus!
