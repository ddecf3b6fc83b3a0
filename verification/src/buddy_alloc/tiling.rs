//! The state of an engine while its span is tiled, and why a fully tiled
//! span is a consistent engine.
use crate::bits::lemma_bit_at_zero;
use crate::arith::{
    count_at, lemma_count_below, lemma_div_pow2_bound, lemma_levels, lemma_tile_step, nblocks,
};
use super::{block_at, metadata_bytes, tile_list, BuddyAlloc, BuddyAllocParam};
use vstd::arithmetic::power2::{lemma2_to64, lemma_pow2_adds, lemma_pow2_pos, pow2};
use vstd::bits::lemma_usize_pow2_no_overflow;
use vstd::prelude::*;

verus! {

impl BuddyAlloc {
    /// An engine with empty lists and blank bitmaps is at the start of its
    /// tiling.
    pub(super) proof fn lemma_blank_tiled(&self)
        requires
            self.sized(),
            forall|a: int|
                self.entries + 40 * self.entries_size <= a < self.entries + metadata_bytes(
                    self.entries_size as nat,
                ) ==> #[trigger] self.region.byte_at(a) == 0u8,
            forall|k: int| 0 <= k < self.entries_size ==> (#[trigger] self.list_of(k)).len() == 0,
            self.live@ == Map::<int, nat>::empty(),
        ensures
            self.tiled(self.entries_size - 1, 0),
    {
        lemma2_to64();
        reveal(count_at);
        assert forall|j: int, i: int|
            self.in_table(j, i) implies !(#[trigger] self.alloc_bit(j, i)) by {
            self.lemma_alloc_place(j, i);
            lemma_bit_at_zero(&self.region, self.alloc_base(j), i);
        }
        assert forall|j: int, i: int|
            self.in_table(j, i) implies !(#[trigger] self.split_bit(j, i)) by {
            if j >= 1 {
                self.lemma_split_place(j, i);
                lemma_bit_at_zero(&self.region, self.split_base(j), i);
            }
        }
        assert forall|j: int| 0 <= j implies #[trigger] count_at(0, j) == 0 by {
            lemma_pow2_pos(j as nat);
        }
        assert forall|j: int| 0 <= j < self.entries_size implies #[trigger] self.list_of(j)
            == tile_list(0, j) by {
            assert(self.list_of(j).len() == 0);
            assert(count_at(0, j) == 0);
            assert(self.list_of(j) =~= tile_list(0, j));
        }
        assert forall|j: int, i: int|
            self.in_table(j, i) implies #[trigger] self.alloc_bit(j, i)
            == (i == count_at(0, j) && ((self.entries_size - 1 <= j && j + 2
            <= self.entries_size) || (j >= 1 && count_at(0, j - 1) % 2 == 1))) by {
            assert(!self.alloc_bit(j, i));
            if j >= 1 {
                assert(count_at(0, j - 1) == 0);
            }
        }
        assert forall|j: int, i: int|
            self.in_table(j, i) implies #[trigger] self.split_bit(j, i)
            == (j >= 1 && i == count_at(0, j) && count_at(0, j - 1) % 2 == 1) by {
            assert(!self.split_bit(j, i));
            if j >= 1 {
                assert(count_at(0, j - 1) == 0);
            }
        }
    }

    /// The next block of the tiling can join the free list of its order:
    /// the blocks before it lie before it.
    pub(super) proof fn lemma_tiled_join(&self, k: int, x: int)
        requires
            self.shape(),
            0 <= k,
            k + 1 < self.entries_size,
            0 <= x < pow2((self.entries_size - 1) as nat),
            x % (pow2(k as nat) as int) == 0,
            self.tiled(k + 1, x),
            self.base_addr + (x + pow2(k as nat)) * pow2(self.leaf2base as nat) <= self.end_addr,
        ensures
            self.can_join(k, count_at(x, k)),
            self.addr(k, count_at(x, k)) == self.base_addr + x * pow2(self.leaf2base as nat),
    {
        let l = self.leaf2base as nat;
        let orders = self.entries_size as nat;
        let c = count_at(x, k);
        let e = pow2(k as nat) as int;
        let d = pow2(l) as int;
        lemma_levels(orders, x);
        lemma_pow2_pos(k as nat);
        lemma_pow2_pos(l);
        lemma_pow2_adds(k as nat, l);
        assert(k as nat + l == (k + self.leaf2base) as nat);
        vstd::arithmetic::div_mod::lemma_fundamental_div_mod(x, e);
        assert(x == e * c) by {
            reveal(count_at);
        }
        assert(self.addr(k, c) == self.base_addr + x * d) by {
            reveal(block_at);
            assert(c * (e * d) == (e * c) * d) by (nonlinear_arith);
        }
        assert(e * d >= 16) by {
            lemma2_to64();
            crate::arith::lemma_pow2_monotonic(4, (k + self.leaf2base) as nat);
        }
        assert((x + e) * d == x * d + e * d) by (nonlinear_arith);
        assert forall|k2: int, j2: int| self.on_list(k2, j2) implies #[trigger] self.member(k2, j2)
            != self.addr(k, c) by {
            assert(self.list_of(k2) == tile_list(x, k2));
            let c2 = count_at(x, k2);
            lemma_usize_pow2_no_overflow((orders - 1 - k2) as nat);
            assert(c2 < nblocks(orders, k2));
            reveal(nblocks);
            assert(self.list_of(k2)[j2] as int == c2 - 1);
            crate::arith::lemma_block_within(c2 - 1, k2 as nat, l, x);
            reveal(block_at);
            assert(k2 as nat + l == (k2 + self.leaf2base) as nat);
            lemma_pow2_pos((k2 + self.leaf2base) as nat);
            assert((c2 - 1 + 1) * pow2((k2 + self.leaf2base) as nat) == (c2 - 1) * pow2(
                (k2 + self.leaf2base) as nat,
            ) + pow2((k2 + self.leaf2base) as nat)) by (nonlinear_arith);
        }
    }

    /// A fully tiled span is a consistent engine.
    pub(super) proof fn lemma_tiled_wf(&self)
        requires
            self.shape(),
            self.spans_leaves(),
            self.tiled(0, self.leaves()),
        ensures
            self.wf(),
    {
        let m = self.leaves();
        let l = self.leaf2base as nat;
        let orders = self.entries_size as nat;
        reveal(nblocks);
        lemma_pow2_pos(l);
        lemma_pow2_adds((orders - 1) as nat, l);
        lemma_div_pow2_bound(
            self.end_addr - self.unavailable - self.base_addr,
            (orders - 1) as nat,
            l,
        );
        lemma_levels(orders, m);
        assert forall|k: int, i: int|
            self.in_table(k, i) implies #[trigger] self.block_ok(k, i) by {
            assert(self.list_of(k) == tile_list(m, k));
            if k >= 1 {
                assert(self.nbits(k - 1) == 2 * self.nbits(k));
                assert(count_at(m, k - 1) / 2 == count_at(m, k));
            }
            if k + 1 < self.entries_size {
                assert(self.nbits(k) == 2 * self.nbits(k + 1));
                assert(count_at(m, k) / 2 == count_at(m, k + 1));
                assert(0 <= count_at(m, k + 1) < nblocks(orders, k + 1));
            }
            assert(0 <= count_at(m, k) < nblocks(orders, k));
            if self.parent_split(k, i) && !self.alloc_bit(k, i) {
                assert(self.list_of(k)[0] == i as usize);
            }
        }
        assert forall|k: int, j: int| self.on_list(k, j) implies #[trigger] self.free_ok(k, j) by {
            assert(self.list_of(k) == tile_list(m, k));
            assert(0 <= count_at(m, k) < nblocks(orders, k));
            lemma_usize_pow2_no_overflow((orders - 1 - k) as nat);
            assert(self.list_of(k)[j] == (count_at(m, k) - 1) as usize);
            assert(self.list_of(k)[j] as int == count_at(m, k) - 1);
            assert(k + 1 < self.entries_size);
            assert(self.nbits(k) == 2 * self.nbits(k + 1));
            assert(count_at(m, k) / 2 == count_at(m, k + 1));
            assert(0 <= count_at(m, k + 1) < nblocks(orders, k + 1));
        }
    }

    /// Tiling one more block of order `k` keeps the state a tiling.
    pub(super) proof fn lemma_tiled_push(pre: &BuddyAlloc, post: &BuddyAlloc, k: int, x: int)
        requires
            0 <= k,
            k + 1 < pre.entries_size,
            post.entries_size == pre.entries_size,
            post.live@ == pre.live@,
            0 <= x,
            x % (pow2((k + 1) as nat) as int) == 0,
            pre.tiled(k + 1, x),
            forall|j: int, i: int| pre.in_table(j, i) ==> #[trigger] post.alloc_bit(j, i) == (
                pre.alloc_bit(j, i) || (j == k + 1 && i == count_at(x, k + 1))),
            forall|j: int, i: int| pre.in_table(j, i) ==> #[trigger] post.split_bit(j, i) == (
                pre.split_bit(j, i) || (j == k + 1 && i == count_at(x, k + 1))),
            forall|j: int| 0 <= j < pre.entries_size && j != k ==> #[trigger] post.list_of(j)
                == pre.list_of(j),
            post.list_of(k) == seq![count_at(x, k) as usize] + pre.list_of(k),
        ensures
            post.tiled(k + 1, x + pow2(k as nat)),
    {
        let x2 = x + pow2(k as nat);
        lemma_tile_step(x, k as nat);
        assert(count_at(x2, k + 1) == count_at(x, k + 1));
        assert(count_at(x2, k) == count_at(x, k) + 1);
        assert(count_at(x, k) % 2 == 0);
        assert forall|j: int, i: int|
            post.in_table(j, i) implies #[trigger] post.alloc_bit(j, i) == (i
            == count_at(x2, j) && ((k + 1 <= j && j + 2 <= post.entries_size) || (j >= 1
            && count_at(x2, j - 1) % 2 == 1))) by {
            assert(pre.alloc_bit(j, i) == (i == count_at(x, j) && ((k + 1 <= j && j + 2
                <= post.entries_size) || (j >= 1 && count_at(x, j - 1) % 2 == 1))));
            if j > k {
                assert(count_at(x2, j) == count_at(x, j));
            }
            if j - 1 > k {
                assert(count_at(x2, j - 1) == count_at(x, j - 1));
            }
            if 1 <= j <= k {
                assert(count_at(x2, j - 1) % 2 == 0);
                assert(count_at(x, j - 1) % 2 == 0);
            }
        }
        assert forall|j: int, i: int|
            post.in_table(j, i) implies #[trigger] post.split_bit(j, i) == (j
            >= 1 && i == count_at(x2, j) && count_at(x2, j - 1) % 2 == 1) by {
            assert(pre.split_bit(j, i) == (j >= 1 && i == count_at(x, j)
                && count_at(x, j - 1) % 2 == 1));
            if j > k {
                assert(count_at(x2, j) == count_at(x, j));
            }
            if j - 1 > k {
                assert(count_at(x2, j - 1) == count_at(x, j - 1));
            }
            if 1 <= j <= k {
                assert(count_at(x2, j - 1) % 2 == 0);
                assert(count_at(x, j - 1) % 2 == 0);
            }
        }
        assert forall|j: int| 0 <= j < post.entries_size implies #[trigger] post.list_of(j)
            == tile_list(x2, j) by {
            assert(pre.list_of(j) == tile_list(x, j));
            if j > k {
                assert(count_at(x2, j) == count_at(x, j));
            } else if j < k {
                assert(count_at(x2, j) % 2 == 0);
                assert(count_at(x, j) % 2 == 0);
            } else {
                assert(post.list_of(j) =~= tile_list(x2, j));
            }
        }
    }

    /// The view of a fully tiled engine over the layout of `param`.
    pub(super) proof fn lemma_tiled_view(&self, param: &BuddyAllocParam)
        requires
            self.wf(),
            self.tiled(0, self.leaves()),
            self.base_addr == param.data_base(),
            self.end_addr == param.end(),
            self.leaf2base == param.leaf2base(),
            self.entries_size == param.orders(),
            self.unavailable
                == (self.end_addr - self.base_addr) % (pow2(self.leaf2base as nat) as int),
        ensures
            self@ == param.initial_view(),
    {
        let l = self.leaf2base as nat;
        let d = pow2(l) as int;
        let span = self.end_addr - self.base_addr;
        reveal(block_at);
        reveal(nblocks);
        lemma_pow2_pos(l);
        vstd::arithmetic::div_mod::lemma_fundamental_div_mod(span, d);
        let q = span / d;
        vstd::arithmetic::div_mod::lemma_fundamental_div_mod_converse(
            span - self.unavailable,
            d,
            q,
            0,
        );
        assert(self.leaves() == param.data_leaves());
        let m = self.leaves();
        assert forall|k: int| 0 <= k < self.entries_size implies #[trigger] self.free_addrs(k)
            == param.initial_free(k) by {
            assert(self.list_of(k) == tile_list(m, k));
            lemma_div_pow2_bound(span - self.unavailable, (self.entries_size - 1) as nat, l);
            lemma_count_below(self.entries_size as nat, m, k);
            lemma_usize_pow2_no_overflow((self.entries_size - 1 - k) as nat);
            assert(k as nat + l == (k + self.leaf2base) as nat);
            assert(self.free_addrs(k) =~= param.initial_free(k));
        }
        assert(self@.free =~= param.initial_view().free);
    }
}

} // verus!
