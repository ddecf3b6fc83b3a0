//! What the region holds in the blocks that are handed out: the engine
//! writes its list nodes into free blocks only.
use super::BuddyAlloc;
use vstd::arithmetic::power2::lemma2_to64;
use vstd::prelude::*;

verus! {

impl BuddyAlloc {
    /// No byte of a block that is handed out lies in the node of a free
    /// block.
    pub(super) proof fn lemma_not_at_head(&self, k: int, q: int, a: int)
        requires
            self.wf(),
            self.in_live(q, a),
            0 <= k < self.entries_size,
        ensures
            !self.at_head(k, a),
            self.base_addr <= a < self.end_addr,
    {
        self.lemma_live_in_span(q);
        if self.at_head(k, a) {
            let j = choose|j: int|
                self.on_list(k, j) && #[trigger] self.member(k, j) <= a < self.member(k, j) + 16;
            let m = self.member(k, j);
            self.lemma_view();
            assert(self.free_addrs(k)[j] == m);
            assert(self@.holds(k as nat, m));
            let kq = self@.live[q];
            assert(self@.holds(kq, q));
            self.lemma_free_not_live(k, j);
            self.lemma_held_apart(k as nat, m, kq, q);
            lemma2_to64();
            crate::arith::lemma_pow2_monotonic(4, (k + self.leaf2base) as nat);
            assert(k as nat + self.leaf2base as nat == (k + self.leaf2base) as nat);
        }
    }

    /// The node of a free block lies where it lies in any engine with the
    /// same lists over the same span.
    pub(super) proof fn lemma_at_head_same(x: &BuddyAlloc, y: &BuddyAlloc, k: int, a: int)
        requires
            y.same_scalars(x),
            y.lists@ == x.lists@,
        ensures
            y.at_head(k, a) == x.at_head(k, a),
    {
        if x.at_head(k, a) {
            let j = choose|j: int|
                x.on_list(k, j) && #[trigger] x.member(k, j) <= a < x.member(k, j) + 16;
            assert(y.on_list(k, j) && y.member(k, j) <= a < y.member(k, j) + 16);
        }
        if y.at_head(k, a) {
            let j = choose|j: int|
                y.on_list(k, j) && #[trigger] y.member(k, j) <= a < y.member(k, j) + 16;
            assert(x.on_list(k, j) && x.member(k, j) <= a < x.member(k, j) + 16);
        }
    }

    /// A change of the free list of order `k`, between two consistent
    /// engines, leaves the bytes of the blocks that are handed out in both.
    pub(super) proof fn lemma_kept_over(
        x: &BuddyAlloc,
        u: &BuddyAlloc,
        v: &BuddyAlloc,
        y: &BuddyAlloc,
        k: int,
        q: int,
        a: int,
    )
        requires
            x.wf(),
            y.wf(),
            x.in_live(q, a),
            y.in_live(q, a),
            0 <= k < x.entries_size,
            u.same_scalars(x),
            u.lists@ == x.lists@,
            v.same_scalars(x),
            y.same_scalars(x),
            v.lists@ == y.lists@,
            v.same_data_but_heads(u, k),
        ensures
            v.region.byte_at(a) == u.region.byte_at(a),
    {
        x.lemma_not_at_head(k, q, a);
        y.lemma_not_at_head(k, q, a);
        Self::lemma_at_head_same(x, u, k, a);
        Self::lemma_at_head_same(y, v, k, a);
    }

    /// A step that changes the free list of order `k` alone, from one
    /// consistent engine to another, keeps what the blocks hold that are
    /// handed out throughout.
    pub(super) proof fn lemma_keeps_step(
        o: &BuddyAlloc,
        x: &BuddyAlloc,
        u: &BuddyAlloc,
        v: &BuddyAlloc,
        y: &BuddyAlloc,
        k: int,
        but: int,
    )
        requires
            x.wf(),
            y.wf(),
            0 <= k < x.entries_size,
            u.same_scalars(x),
            v.same_scalars(x),
            y.same_scalars(x),
            u.lists@ == x.lists@,
            v.lists@ == y.lists@,
            u.same_data(x),
            v.same_data_but_heads(u, k),
            y.same_data(v),
            x.keeps(o, but),
            forall|q: int, a: int| #[trigger]
                o.in_live(q, a) && q != but ==> x.in_live(q, a) && y.in_live(q, a),
        ensures
            y.keeps(o, but),
    {
        assert forall|q: int, a: int| #[trigger] o.in_live(q, a) && q != but implies y.byte(a)
            == o.byte(a) by {
            assert(x.in_live(q, a) && y.in_live(q, a));
            x.lemma_not_at_head(k, q, a);
            Self::lemma_kept_over(x, u, v, y, k, q, a);
            assert(u.region.byte_at(a) == x.region.byte_at(a));
            assert(y.region.byte_at(a) == v.region.byte_at(a));
            assert(x.byte(a) == o.byte(a));
        }
    }

    /// A byte of a block that is handed out lies in the region.
    pub proof fn lemma_in_region(&self, q: int, a: int)
        requires
            self.wf(),
            self.in_live(q, a),
        ensures
            self.in_region(a),
    {
        self.lemma_live_in_span(q);
    }

    /// Reads the byte at address `addr` of the region.
    pub fn read(&self, addr: usize) -> (b: u8)
        requires
            self.wf(),
            self.in_region(addr as int),
        ensures
            b == self.byte(addr as int),
    {
        self.region.read(addr)
    }

    /// Writes the byte at address `addr`, which lies in a block that is
    /// handed out. The engine stays as it is.
    pub fn write(&mut self, addr: usize, b: u8)
        requires
            old(self).wf(),
            exists|q: int| old(self).in_live(q, addr as int),
        ensures
            final(self).wf(),
            final(self)@ == old(self)@,
            final(self).byte(addr as int) == b,
            forall|a: int|
                a != addr && old(self).in_region(a) ==> #[trigger] final(self).byte(a)
                    == old(self).byte(a),
            forall|a: int| final(self).in_region(a) == old(self).in_region(a),
    {
        let ghost q = choose|q: int| self.in_live(q, addr as int);
        let ghost pre = *self;
        proof {
            self.lemma_not_at_head(0, q, addr as int);
        }
        self.region.write(addr, b);
        proof {
            Self::lemma_data_written(&pre, self, q, addr as int);
        }
    }

    /// A write into a block that is handed out leaves the books as they
    /// are.
    proof fn lemma_data_written(pre: &BuddyAlloc, post: &BuddyAlloc, q: int, w: int)
        requires
            pre.wf(),
            pre.in_live(q, w),
            post.same_frame(pre),
            post.lists@ == pre.lists@,
            post.region.wf(),
            post.region.same_but(&pre.region, w, 1),
        ensures
            post.wf(),
            post@ == pre@,
    {
        let orders = pre.entries_size as nat;
        pre.lemma_not_at_head(0, q, w);
        super::memory::lemma_bitmaps_prefix(0, orders, orders);
        assert forall|k: int| 0 <= k < post.entries_size implies #[trigger] post.record_ok(k) by {
            assert(pre.record_ok(k));
            let at = pre.entries + 24 * k;
            post.region.lemma_word_kept(&pre.region, at, w, 1);
            post.region.lemma_word_kept(&pre.region, at + 8, w, 1);
            post.region.lemma_word_kept(&pre.region, at + 16, w, 1);
        }
        assert forall|k: int, j: int| post.on_list(k, j)
            implies #[trigger] post.member_ok(k, j) by {
            assert(pre.member_ok(k, j));
        }
        assert forall|k1: int, j1: int, k2: int, j2: int|
            post.on_list(k1, j1) && post.on_list(k2, j2) && !(k1 == k2 && j1 == j2)
            implies #[trigger] post.member(k1, j1) != #[trigger] post.member(k2, j2) by {
            assert(pre.member(k1, j1) != pre.member(k2, j2));
        }
        assert forall|k: int, j: int| post.on_ring(k, j) implies #[trigger] post.links_ok(k, j) by {
            assert(pre.links_ok(k, j));
            pre.lemma_node_place(k, j);
            pre.lemma_node_place(k, j + 1);
            pre.lemma_not_at_head(k, q, w);
            if 1 <= j <= pre.list_of(k).len() {
                assert(pre.on_list(k, j - 1));
                assert(!(pre.member(k, j - 1) <= w < pre.member(k, j - 1) + 16));
            }
            if 1 <= j + 1 <= pre.list_of(k).len() {
                assert(pre.on_list(k, j));
                assert(!(pre.member(k, j) <= w < pre.member(k, j) + 16));
            }
            post.region.lemma_word_kept(&pre.region, pre.node(k, j), w, 1);
            post.region.lemma_word_kept(&pre.region, pre.node(k, j + 1) + 8, w, 1);
        }
        assert(post.shape());
        Self::lemma_bits_kept(pre, post, w);
        assert forall|k: int, i: int| post.in_table(k, i) implies #[trigger] post.alloc_bit(k, i)
            == pre.alloc_bit(k, i) by {
            pre.lemma_alloc_place(k, i);
        }
        assert forall|k: int, i: int| post.in_table(k, i) implies #[trigger] post.split_bit(k, i)
            == pre.split_bit(k, i) by {
            if k >= 1 {
                pre.lemma_split_place(k, i);
            }
        }
        Self::lemma_wf_same(pre, post);
    }

    /// An engine with the same bits, lists and blocks handed out as a
    /// consistent engine, over the same span, is consistent, and stands for
    /// the same.
    pub(super) proof fn lemma_wf_same(pre: &BuddyAlloc, post: &BuddyAlloc)
        requires
            pre.wf(),
            post.shape(),
            post.same_frame(pre),
            post.lists@ == pre.lists@,
            post.same_alloc(pre, -1, 0),
            post.same_split(pre, -1, 0),
        ensures
            post.wf(),
            post@ == pre@,
    {
        assert forall|k: int, i: int| post.in_table(k, i)
            implies #[trigger] post.block_ok(k, i) by {
            assert(pre.block_ok(k, i));
            pre.lemma_reach(k, i);
        }
        assert forall|k: int, j: int| post.on_list(k, j) implies #[trigger] post.free_ok(k, j) by {
            assert(pre.free_ok(k, j));
            pre.lemma_list(k);
            pre.lemma_reach(k, pre.list_of(k)[j] as int);
        }
        assert forall|p: int| post.live@.contains_key(p) implies #[trigger] post.live_ok(p) by {
            assert(pre.live_ok(p));
            pre.lemma_live_block(p);
        }
        assert forall|k: int| 0 <= k < post.entries_size implies #[trigger] post.free_addrs(k)
            == pre.free_addrs(k) by {
            assert(post.free_addrs(k) =~= pre.free_addrs(k));
        }
        assert(post@.free =~= pre@.free);
    }
}

} // verus!
