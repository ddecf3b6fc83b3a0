//! Where the books of an engine lie in its region, and what a write to one
//! part leaves of the others.
use crate::arith::nblocks;
use super::{bitmap_bytes, bitmaps_bytes, metadata_bytes, BuddyAlloc};
use vstd::arithmetic::power2::{lemma_pow2_pos, pow2};
use vstd::prelude::*;

verus! {

/// The bitmaps of the orders below `b` end where that of order `b` starts,
/// and that of order `a < b` ends no later.
pub(super) proof fn lemma_bitmaps_prefix(a: nat, b: nat, orders: nat)
    requires
        a < b,
    ensures
        bitmaps_bytes(a, orders) + bitmap_bytes(a, orders) <= bitmaps_bytes(b, orders),
        bitmaps_bytes(a, orders) <= bitmaps_bytes(b, orders),
    decreases b,
{
    if a + 1 < b {
        lemma_bitmaps_prefix(a, (b - 1) as nat, orders);
    }
}

impl BuddyAlloc {
    /// Where the byte of a bit of an `alloc` bitmap lies: in the bitmap,
    /// which lies between the sentinels and the `split` bitmaps.
    pub(super) proof fn lemma_alloc_place(&self, k: int, i: int)
        requires
            self.sized(),
            self.in_table(k, i),
        ensures
            self.entries + 40 * self.entries_size <= self.alloc_base(k),
            self.alloc_base(k) <= self.alloc_base(k) + i / 8 < self.alloc_base(k) + bitmap_bytes(
                k as nat,
                self.entries_size as nat,
            ),
            self.alloc_base(k) + bitmap_bytes(k as nat, self.entries_size as nat)
                <= self.entries + 40 * self.entries_size + bitmaps_bytes(
                self.entries_size as nat,
                self.entries_size as nat,
            ),
            self.entries + 40 * self.entries_size + bitmaps_bytes(
                self.entries_size as nat,
                self.entries_size as nat,
            ) <= self.entries + metadata_bytes(self.entries_size as nat),
            self.region.holds(self.alloc_base(k) + i / 8, 1),
    {
        let orders = self.entries_size as nat;
        reveal(nblocks);
        lemma_pow2_pos((orders - 1 - k) as nat);
        lemma_bitmaps_prefix(k as nat, orders, orders);
        lemma_bitmaps_prefix(0, orders, orders);
    }

    /// Where the byte of a bit of a `split` bitmap lies: in the bitmap,
    /// which lies between the `alloc` bitmaps and the span.
    pub(super) proof fn lemma_split_place(&self, k: int, i: int)
        requires
            self.sized(),
            self.in_table(k, i),
            k >= 1,
        ensures
            self.entries + 40 * self.entries_size + bitmaps_bytes(
                self.entries_size as nat,
                self.entries_size as nat,
            ) <= self.split_base(k),
            self.split_base(k) <= self.split_base(k) + i / 8 < self.split_base(k) + bitmap_bytes(
                k as nat,
                self.entries_size as nat,
            ),
            self.split_base(k) + bitmap_bytes(k as nat, self.entries_size as nat)
                <= self.entries + metadata_bytes(self.entries_size as nat),
            self.region.holds(self.split_base(k) + i / 8, 1),
    {
        let orders = self.entries_size as nat;
        reveal(nblocks);
        lemma_pow2_pos((orders - 1 - k) as nat);
        lemma_bitmaps_prefix(k as nat, orders, orders);
        lemma_bitmaps_prefix(0, k as nat, orders);
        lemma_bitmaps_prefix(0, orders, orders);
    }

    /// Bits of different blocks of the `alloc` bitmaps lie in different
    /// bytes, unless the blocks are of one order.
    pub(super) proof fn lemma_alloc_places_differ(&self, k1: int, i1: int, k2: int, i2: int)
        requires
            self.sized(),
            self.in_table(k1, i1),
            self.in_table(k2, i2),
            k1 != k2,
        ensures
            self.alloc_base(k1) + i1 / 8 != self.alloc_base(k2) + i2 / 8,
    {
        let orders = self.entries_size as nat;
        self.lemma_alloc_place(k1, i1);
        self.lemma_alloc_place(k2, i2);
        if k1 < k2 {
            lemma_bitmaps_prefix(k1 as nat, k2 as nat, orders);
        } else {
            lemma_bitmaps_prefix(k2 as nat, k1 as nat, orders);
        }
    }

    /// Bits of different blocks of the `split` bitmaps lie in different
    /// bytes, unless the blocks are of one order.
    pub(super) proof fn lemma_split_places_differ(&self, k1: int, i1: int, k2: int, i2: int)
        requires
            self.sized(),
            self.in_table(k1, i1),
            self.in_table(k2, i2),
            k1 >= 1,
            k2 >= 1,
            k1 != k2,
        ensures
            self.split_base(k1) + i1 / 8 != self.split_base(k2) + i2 / 8,
    {
        let orders = self.entries_size as nat;
        self.lemma_split_place(k1, i1);
        self.lemma_split_place(k2, i2);
        if k1 < k2 {
            lemma_bitmaps_prefix(k1 as nat, k2 as nat, orders);
        } else {
            lemma_bitmaps_prefix(k2 as nat, k1 as nat, orders);
        }
    }

    /// Where the nodes of the rings lie: the sentinels between the records
    /// and the bitmaps, the others in the span, each on a multiple of 8.
    pub(super) proof fn lemma_node_place(&self, k: int, j: int)
        requires
            self.shape(),
            0 <= k < self.entries_size,
        ensures
            self.region.holds(self.node(k, j), 16),
            self.entries + 24 * self.entries_size <= self.node(k, j),
            self.node(k, j) + 16 <= self.entries + 40 * self.entries_size || self.base_addr
                <= self.node(k, j),
            self.node(k, j) == self.sentinel(k) <==> !(1 <= j <= self.list_of(k).len()),
            self.entries + 40 * self.entries_size <= self.base_addr,
            self.sentinel(k) == self.entries + 24 * self.entries_size + 16 * k,
            (1 <= j <= self.list_of(k).len()) ==> self.base_addr <= self.node(k, j),
            self.node(k, j) % 8 == 0,
            self.base_addr <= self.node(k, j) ==> (self.node(k, j) - self.base_addr) % 16 == 0,
    {
        let orders = self.entries_size as nat;
        lemma_bitmaps_prefix(0, orders, orders);
        self.lemma_base_aligned();
        if 1 <= j <= self.list_of(k).len() {
            assert(self.on_list(k, j - 1));
            assert(self.member_ok(k, j - 1));
        }
    }

    /// The span starts on a multiple of 16.
    pub(super) proof fn lemma_base_aligned(&self)
        requires
            self.sized(),
        ensures
            self.base_addr % 16 == 0,
    {
        let l = self.leaf2base as nat;
        let d = pow2(l) as int;
        vstd::arithmetic::power2::lemma2_to64();
        vstd::arithmetic::power2::lemma_pow2_adds(4, (l - 4) as nat);
        let r = pow2((l - 4) as nat) as int;
        lemma_pow2_pos((l - 4) as nat);
        vstd::arithmetic::div_mod::lemma_fundamental_div_mod(self.base_addr as int, d);
        let q = self.base_addr as int / d;
        assert(self.base_addr == 16 * (r * q)) by (nonlinear_arith)
            requires
                self.base_addr == d * q,
                d == 16 * r,
        ;
    }

    /// Two ring positions hold one node, or nodes 16 bytes or more apart;
    /// one node belongs to one ring, and stands at one place in its list.
    pub(super) proof fn lemma_nodes_apart(&self, k1: int, j1: int, k2: int, j2: int)
        requires
            self.shape(),
            0 <= k1 < self.entries_size,
            0 <= k2 < self.entries_size,
        ensures
            self.node(k1, j1) == self.node(k2, j2) || self.node(k1, j1) + 16 <= self.node(k2, j2)
                || self.node(k2, j2) + 16 <= self.node(k1, j1),
            self.node(k1, j1) == self.node(k2, j2) ==> k1 == k2,
            (self.node(k1, j1) == self.node(k2, j2) && 1 <= j1 <= self.list_of(k1).len())
                ==> j1 == j2,
    {
        self.lemma_node_place(k1, j1);
        self.lemma_node_place(k2, j2);
        let m1 = 1 <= j1 <= self.list_of(k1).len();
        let m2 = 1 <= j2 <= self.list_of(k2).len();
        if m1 && m2 {
            assert(self.on_list(k1, j1 - 1));
            assert(self.on_list(k2, j2 - 1));
            assert(self.member_ok(k1, j1 - 1));
            assert(self.member_ok(k2, j2 - 1));
            if !(k1 == k2 && j1 == j2) {
                assert(self.member(k1, j1 - 1) != self.member(k2, j2 - 1));
            }
            let a = self.node(k1, j1) - self.base_addr;
            let b = self.node(k2, j2) - self.base_addr;
            assert(a % 16 == 0 && b % 16 == 0);
            assert(a == b || a + 16 <= b || b + 16 <= a);
        }
    }

    /// A write to the bitmaps leaves the records and the rings as they are.
    pub(super) proof fn lemma_bitmap_write(pre: &BuddyAlloc, post: &BuddyAlloc, w: int)
        requires
            pre.shape(),
            post.same_scalars(pre),
            post.lists@ == pre.lists@,
            post.region.wf(),
            post.region.same_but(&pre.region, w, 1),
            pre.entries + 40 * pre.entries_size <= w < pre.entries + metadata_bytes(
                pre.entries_size as nat,
            ),
        ensures
            post.shape(),
    {
        let orders = pre.entries_size as nat;
        lemma_bitmaps_prefix(0, orders, orders);
        assert forall|k: int| 0 <= k < post.entries_size implies #[trigger] post.record_ok(k) by {
            assert(pre.record_ok(k));
            let at = pre.entries + 24 * k;
            post.region.lemma_word_kept(&pre.region, at, w, 1);
            post.region.lemma_word_kept(&pre.region, at + 8, w, 1);
            post.region.lemma_word_kept(&pre.region, at + 16, w, 1);
        }
        assert forall|k: int, j: int| post.on_list(k, j)
            implies #[trigger] post.member_ok(k, j) by {
            assert(pre.member_ok(k, j));
        }
        assert forall|k1: int, j1: int, k2: int, j2: int|
            post.on_list(k1, j1) && post.on_list(k2, j2) && !(k1 == k2 && j1 == j2)
            implies #[trigger] post.member(k1, j1) != #[trigger] post.member(k2, j2) by {
            assert(pre.member(k1, j1) != pre.member(k2, j2));
        }
        assert forall|k: int, j: int| post.on_ring(k, j) implies #[trigger] post.links_ok(k, j) by {
            assert(pre.on_ring(k, j));
            assert(pre.links_ok(k, j));
            pre.lemma_node_place(k, j);
            pre.lemma_node_place(k, j + 1);
            post.region.lemma_word_kept(&pre.region, pre.node(k, j), w, 1);
            post.region.lemma_word_kept(&pre.region, pre.node(k, j + 1) + 8, w, 1);
        }
    }
}

} // verus!
