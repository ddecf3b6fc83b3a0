//! Reading and writing the books of an engine: a record, a bit or a list
//! node at a time.
use crate::arith::{lemma_div_pow2_bound, lemma_div_pow2_twice, nblocks};
use crate::bits::{bit_at, bit_clear, bit_isset, bit_set, lemma_bit_same};
use super::memory::lemma_bitmaps_prefix;
use super::{block_at, BuddyAlloc, ENTRY_BYTES};
use vstd::arithmetic::power2::{lemma_pow2_adds, lemma_pow2_pos, pow2};
use vstd::bits::{lemma_usize_shl_is_mul, lemma_usize_shr_is_div};
use vstd::prelude::*;

verus! {

impl BuddyAlloc {
    /// The address of the list sentinel of order `k`, as its record has it.
    pub(super) fn free_of(&self, k: usize) -> (a: usize)
        requires
            self.shape(),
            k < self.entries_size,
        ensures
            a == self.sentinel(k as int),
    {
        proof {
            assert(self.record_ok(k as int));
            lemma_bitmaps_prefix(0, self.entries_size as nat, self.entries_size as nat);
        }
        self.region.read_word(self.entries + ENTRY_BYTES * k)
    }

    /// The address of the `alloc` bitmap of order `k`, as its record has it.
    pub(super) fn alloc_of(&self, k: usize) -> (a: usize)
        requires
            self.shape(),
            k < self.entries_size,
        ensures
            a == self.alloc_base(k as int),
    {
        proof {
            assert(self.record_ok(k as int));
            lemma_bitmaps_prefix(0, self.entries_size as nat, self.entries_size as nat);
            lemma_bitmaps_prefix(k as nat, self.entries_size as nat, self.entries_size as nat);
        }
        self.region.read_word(self.entries + ENTRY_BYTES * k + 8)
    }

    /// The address of the `split` bitmap of order `k`, as its record has it.
    pub(super) fn split_of(&self, k: usize) -> (a: usize)
        requires
            self.shape(),
            1 <= k < self.entries_size,
        ensures
            a == self.split_base(k as int),
    {
        proof {
            assert(self.record_ok(k as int));
            lemma_bitmaps_prefix(0, self.entries_size as nat, self.entries_size as nat);
            lemma_bitmaps_prefix(k as nat, self.entries_size as nat, self.entries_size as nat);
            lemma_bitmaps_prefix(0, k as nat, self.entries_size as nat);
        }
        self.region.read_word(self.entries + ENTRY_BYTES * k + 16)
    }

    /// The bits of the two engines are the same but for those that lie in
    /// the byte at `w`, if the regions differ in that byte alone.
    pub(super) proof fn lemma_bits_kept(pre: &BuddyAlloc, post: &BuddyAlloc, w: int)
        requires
            pre.sized(),
            post.same_scalars(pre),
            post.region.same_but(&pre.region, w, 1),
        ensures
            forall|k: int, i: int|
                pre.in_table(k, i) && pre.alloc_base(k) + i / 8 != w ==> #[trigger] post.alloc_bit(
                    k,
                    i,
                ) == pre.alloc_bit(k, i),
            forall|k: int, i: int|
                pre.in_table(k, i) && (k >= 1 ==> pre.split_base(k) + i / 8 != w)
                    ==> #[trigger] post.split_bit(k, i) == pre.split_bit(k, i),
    {
        assert forall|k: int, i: int|
            pre.in_table(k, i) && pre.alloc_base(k) + i / 8 != w implies #[trigger] post.alloc_bit(
            k,
            i,
        ) == pre.alloc_bit(k, i) by {
            pre.lemma_alloc_place(k, i);
            lemma_bit_same(&post.region, &pre.region, pre.alloc_base(k), i);
        }
        assert forall|k: int, i: int|
            pre.in_table(k, i) && (k >= 1 ==> pre.split_base(k) + i / 8 != w)
            implies #[trigger] post.split_bit(k, i) == pre.split_bit(k, i) by {
            if k >= 1 {
                pre.lemma_split_place(k, i);
                lemma_bit_same(&post.region, &pre.region, pre.split_base(k), i);
            }
        }
    }

    /// Whether block `i` of order `k` is marked in the `alloc` bitmap.
    pub(super) fn alloc_isset(&self, k: usize, i: usize) -> (r: bool)
        requires
            self.shape(),
            self.in_table(k as int, i as int),
        ensures
            r == self.alloc_bit(k as int, i as int),
    {
        proof {
            self.lemma_alloc_place(k as int, i as int);
        }
        bit_isset(&self.region, self.alloc_of(k), i)
    }

    /// Whether block `i` of order `k` is marked in the `split` bitmap.
    pub(super) fn split_isset(&self, k: usize, i: usize) -> (r: bool)
        requires
            self.shape(),
            self.in_table(k as int, i as int),
            k >= 1,
        ensures
            r == self.split_bit(k as int, i as int),
    {
        proof {
            self.lemma_split_place(k as int, i as int);
        }
        bit_isset(&self.region, self.split_of(k), i)
    }

    /// Marks block `i` of order `k` in the `alloc` bitmap.
    pub(super) fn set_alloc(&mut self, k: usize, i: usize)
        requires
            old(self).shape(),
            old(self).in_table(k as int, i as int),
        ensures
            final(self).shape(),
            final(self).same_frame(old(self)),
            final(self).alloc_bit(k as int, i as int),
            final(self).same_alloc(old(self), k as int, i as int),
            final(self).same_split(old(self), -1, 0),
            final(self).same_lists(old(self), -1),
            final(self).lists@ == old(self).lists@,
            final(self).same_data(old(self)),
    {
        proof {
            self.lemma_alloc_place(k as int, i as int);
        }
        let bits: usize = self.alloc_of(k);
        bit_set(&mut self.region, bits, i);
        proof {
            Self::lemma_alloc_written(old(self), self, k as int, i as int);
        }
    }

    /// Takes the mark of block `i` of order `k` out of the `alloc` bitmap.
    pub(super) fn clear_alloc(&mut self, k: usize, i: usize)
        requires
            old(self).shape(),
            old(self).in_table(k as int, i as int),
            old(self).alloc_bit(k as int, i as int),
        ensures
            final(self).shape(),
            final(self).same_frame(old(self)),
            !final(self).alloc_bit(k as int, i as int),
            final(self).same_alloc(old(self), k as int, i as int),
            final(self).same_split(old(self), -1, 0),
            final(self).same_lists(old(self), -1),
            final(self).lists@ == old(self).lists@,
            final(self).same_data(old(self)),
    {
        proof {
            self.lemma_alloc_place(k as int, i as int);
        }
        let bits: usize = self.alloc_of(k);
        bit_clear(&mut self.region, bits, i);
        proof {
            Self::lemma_alloc_written(old(self), self, k as int, i as int);
        }
    }

    /// Marks block `i` of order `k` in the `split` bitmap.
    pub(super) fn set_split(&mut self, k: usize, i: usize)
        requires
            old(self).shape(),
            old(self).in_table(k as int, i as int),
            k >= 1,
        ensures
            final(self).shape(),
            final(self).same_frame(old(self)),
            final(self).split_bit(k as int, i as int),
            final(self).same_split(old(self), k as int, i as int),
            final(self).same_alloc(old(self), -1, 0),
            final(self).same_lists(old(self), -1),
            final(self).lists@ == old(self).lists@,
            final(self).same_data(old(self)),
    {
        proof {
            self.lemma_split_place(k as int, i as int);
        }
        let bits: usize = self.split_of(k);
        bit_set(&mut self.region, bits, i);
        proof {
            Self::lemma_split_written(old(self), self, k as int, i as int);
        }
    }

    /// Takes the mark of block `i` of order `k` out of the `split` bitmap.
    pub(super) fn clear_split(&mut self, k: usize, i: usize)
        requires
            old(self).shape(),
            old(self).in_table(k as int, i as int),
            k >= 1,
            old(self).split_bit(k as int, i as int),
        ensures
            final(self).shape(),
            final(self).same_frame(old(self)),
            !final(self).split_bit(k as int, i as int),
            final(self).same_split(old(self), k as int, i as int),
            final(self).same_alloc(old(self), -1, 0),
            final(self).same_lists(old(self), -1),
            final(self).lists@ == old(self).lists@,
            final(self).same_data(old(self)),
    {
        proof {
            self.lemma_split_place(k as int, i as int);
        }
        let bits: usize = self.split_of(k);
        bit_clear(&mut self.region, bits, i);
        proof {
            Self::lemma_split_written(old(self), self, k as int, i as int);
        }
    }

    /// What a write to the bit of block `i` of order `k` in the `alloc`
    /// bitmap leaves as it was: all but that bit.
    proof fn lemma_alloc_written(pre: &BuddyAlloc, post: &BuddyAlloc, k: int, i: int)
        requires
            pre.shape(),
            pre.in_table(k, i),
            post.same_scalars(pre),
            post.lists@ == pre.lists@,
            post.live@ == pre.live@,
            post.region.wf(),
            post.region.same_but(&pre.region, pre.alloc_base(k) + i / 8, 1),
            forall|j: int|
                0 <= j && j != i && pre.region.holds(pre.alloc_base(k) + j / 8, 1)
                    ==> #[trigger] bit_at(&post.region, pre.alloc_base(k), j) == bit_at(
                    &pre.region,
                    pre.alloc_base(k),
                    j,
                ),
        ensures
            post.shape(),
            post.same_frame(pre),
            post.same_alloc(pre, k, i),
            post.same_split(pre, -1, 0),
            post.same_lists(pre, -1),
            post.same_data(pre),
    {
        let w = pre.alloc_base(k) + i / 8;
        pre.lemma_alloc_place(k, i);
        Self::lemma_bitmap_write(pre, post, w);
        Self::lemma_bits_kept(pre, post, w);
        assert forall|k2: int, i2: int|
            post.in_table(k2, i2) && !(k2 == k && i2 == i) implies #[trigger] post.alloc_bit(k2, i2)
            == pre.alloc_bit(k2, i2) by {
            pre.lemma_alloc_place(k2, i2);
            if k2 != k {
                pre.lemma_alloc_places_differ(k, i, k2, i2);
            }
        }
        assert forall|k2: int, i2: int| post.in_table(k2, i2) implies #[trigger] post.split_bit(
            k2,
            i2,
        ) == pre.split_bit(k2, i2) by {
            if k2 >= 1 {
                pre.lemma_split_place(k2, i2);
            }
        }
    }

    /// What a write to the bit of block `i` of order `k` in the `split`
    /// bitmap leaves as it was: all but that bit.
    proof fn lemma_split_written(pre: &BuddyAlloc, post: &BuddyAlloc, k: int, i: int)
        requires
            pre.shape(),
            pre.in_table(k, i),
            k >= 1,
            post.same_scalars(pre),
            post.lists@ == pre.lists@,
            post.live@ == pre.live@,
            post.region.wf(),
            post.region.same_but(&pre.region, pre.split_base(k) + i / 8, 1),
            forall|j: int|
                0 <= j && j != i && pre.region.holds(pre.split_base(k) + j / 8, 1)
                    ==> #[trigger] bit_at(&post.region, pre.split_base(k), j) == bit_at(
                    &pre.region,
                    pre.split_base(k),
                    j,
                ),
        ensures
            post.shape(),
            post.same_frame(pre),
            post.same_split(pre, k, i),
            post.same_alloc(pre, -1, 0),
            post.same_lists(pre, -1),
            post.same_data(pre),
    {
        let w = pre.split_base(k) + i / 8;
        pre.lemma_split_place(k, i);
        Self::lemma_bitmap_write(pre, post, w);
        Self::lemma_bits_kept(pre, post, w);
        assert forall|k2: int, i2: int|
            post.in_table(k2, i2) && !(k2 == k && i2 == i) implies #[trigger] post.split_bit(k2, i2)
            == pre.split_bit(k2, i2) by {
            if k2 >= 1 {
                pre.lemma_split_place(k2, i2);
                if k2 != k {
                    pre.lemma_split_places_differ(k, i, k2, i2);
                }
            }
        }
        assert forall|k2: int, i2: int| post.in_table(k2, i2) implies #[trigger] post.alloc_bit(
            k2,
            i2,
        ) == pre.alloc_bit(k2, i2) by {
            pre.lemma_alloc_place(k2, i2);
        }
    }

    /// The index, among the blocks of order `k`, of the block that holds
    /// the address `p`.
    pub(super) fn block_index(&self, k: usize, p: usize) -> (index: usize)
        requires
            self.sized(),
            k < self@.orders,
            self@.base <= p <= self@.end,
        ensures
            index == (p - self@.base) / self@.block(k as nat),
            index < nblocks(self@.orders, k as int),
    {
        let n: usize = p - self.base_addr;
        proof {
            reveal(nblocks);
            lemma_usize_shr_is_div(n, k);
            lemma_usize_shr_is_div(n >> k, self.leaf2base);
            lemma_div_pow2_twice(n as int, k as nat, self.leaf2base as nat);
            assert((self.entries_size - 1 - k) + (k + self.leaf2base) == self.entries_size - 1
                + self.leaf2base);
            lemma_div_pow2_bound(
                n as int,
                (self.entries_size - 1 - k) as nat,
                (k + self.leaf2base) as nat,
            );
        }
        (n >> k) >> self.leaf2base
    }

    /// The address of block `i` of order `k`.
    pub(super) fn block_addr(&self, k: usize, i: usize) -> (addr: usize)
        requires
            self.sized(),
            k + 1 < self@.orders,
            block_at(self@.base, self@.leaf2base, k as int, i as int) <= self@.end,
        ensures
            addr == block_at(self@.base, self@.leaf2base, k as int, i as int),
    {
        proof {
            let l = self.leaf2base as nat;
            reveal(block_at);
            lemma_pow2_adds(k as nat, l);
            lemma_pow2_pos(l);
            lemma_pow2_pos(k as nat);
            assert(i * pow2(k as nat) <= i * (pow2(k as nat) * pow2(l))) by (nonlinear_arith)
                requires
                    pow2(l) >= 1,
                    pow2(k as nat) >= 1,
                    i >= 0,
            ;
            lemma_usize_shl_is_mul(i, k);
            assert((i * pow2(k as nat)) * pow2(l) == i * (pow2(k as nat) * pow2(l)))
                by (nonlinear_arith);
            lemma_usize_shl_is_mul((i << k), self.leaf2base);
        }
        let n: usize = (i << k) << self.leaf2base;
        self.base_addr + n
    }
}

} // verus!
