//! Blocks, their halves and their parents: where they lie and what the
//! bitmaps say of them in a consistent engine.
use crate::arith::{
    count_at, lemma_block_offsets, lemma_block_within, lemma_count_below, lemma_count_step,
    lemma_div_pow2_bound, lemma_div_pow2_twice, lemma_levels, lemma_nblocks_step, nblocks,
};
use super::{BuddyAlloc, block_at};
use vstd::arithmetic::power2::{lemma2_to64, lemma_pow2_adds, lemma_pow2_pos, pow2};
use vstd::bits::lemma_usize_pow2_no_overflow;
use vstd::prelude::*;

verus! {

impl BuddyAlloc {
    /// The span holds fewer leaves than the top order has room for.
    pub(super) proof fn lemma_leaves(&self)
        requires
            self.shape(),
            self.spans_leaves(),
        ensures
            0 <= self.leaves() < pow2((self.entries_size - 1) as nat),
    {
        let l = self.leaf2base as nat;
        lemma_pow2_pos(l);
        lemma_div_pow2_bound(
            self.end_addr - self.unavailable - self.base_addr,
            (self.entries_size - 1) as nat,
            l,
        );
    }

    /// Block `i` of order `k`, if it lies below the count of whole blocks,
    /// lies within the span, and its address gives back its index.
    pub(super) proof fn lemma_block_span(&self, k: int, i: int)
        requires
            self.shape(),
            self.spans_leaves(),
            0 <= k < self.entries_size,
            0 <= i < self.whole(k),
        ensures
            self.base_addr <= self.addr(k, i),
            self.addr(k, i) + pow2((k + self.leaf2base) as nat) <= self.end_addr
                - self.unavailable,
            (self.addr(k, i) - self.base_addr) / (pow2((k + self.leaf2base) as nat) as int) == i,
            (self.addr(k, i) - self.base_addr) % (pow2(self.leaf2base as nat) as int) == 0,
            k + 1 < self.entries_size,
            self.addr(k, i + 1) == self.addr(k, i) + pow2((k + self.leaf2base) as nat),
    {
        let l = self.leaf2base as nat;
        let m = self.leaves();
        let span = self.end_addr - self.unavailable - self.base_addr;
        reveal(block_at);
        lemma_pow2_pos(l);
        vstd::arithmetic::div_mod::lemma_fundamental_div_mod(span, pow2(l) as int);
        assert(pow2(l) * m == m * pow2(l)) by (nonlinear_arith);
        lemma_div_pow2_bound(span, (self.entries_size - 1) as nat, l);
        lemma_levels(self.entries_size as nat, m);
        assert(k as nat + l == (k + self.leaf2base) as nat);
        lemma_block_offsets(i, k as nat, l);
        lemma_block_within(i, k as nat, l, m);
    }

    /// The addresses of the two halves and of the parent of a block.
    pub(super) proof fn lemma_family(&self, k: int, i: int)
        requires
            0 <= k,
            0 <= i,
        ensures
            self.addr(k, 2 * i) == self.addr(k + 1, i),
            self.addr(k, 2 * i + 1) == self.addr(k + 1, i) + pow2((k + self.leaf2base) as nat),
            self.addr(k, i + 1) == self.addr(k, i) + pow2((k + self.leaf2base) as nat),
            self.addr(k + 1, i / 2) == if i % 2 == 0 {
                self.addr(k, i)
            } else {
                self.addr(k, i) - pow2((k + self.leaf2base) as nat)
            },
    {
        let l = self.leaf2base as nat;
        reveal(block_at);
        assert(k as nat + l == (k + self.leaf2base) as nat);
        assert(k as nat + 1 + l == (k + 1 + self.leaf2base) as nat);
        lemma_block_offsets(i, k as nat, l);
        lemma_block_offsets(i / 2, k as nat, l);
    }

    /// Below a whole block that is not split, every bit is clear.
    pub(super) proof fn lemma_descend(&self, k: int, i: int, j: int, x: int)
        requires
            self.shape(),
            self.spans_leaves(),
            self.all_blocks_ok(),
            0 <= j < k < self.entries_size,
            0 <= i < self.whole(k),
            !self.split_bit(k, i),
            0 <= x,
            count_at(x, k - j) == i,
        ensures
            0 <= x < self.whole(j),
            !self.alloc_bit(j, x),
            !self.split_bit(j, x),
        decreases k - j,
    {
        let m = self.leaves();
        let orders = self.entries_size as nat;
        lemma_pow2_pos(self.leaf2base as nat);
        lemma_div_pow2_bound(
            self.end_addr - self.unavailable - self.base_addr,
            (self.entries_size - 1) as nat,
            self.leaf2base as nat,
        );
        reveal(count_at);
        lemma_div_pow2_twice(x, 1, (k - j - 1) as nat);
        assert(pow2(1) == 2) by {
            lemma2_to64();
        }
        assert(1 + (k - j - 1) as nat == (k - j) as nat);
        assert(count_at(x / 2, k - j - 1) == i);
        lemma_count_step(m, j);
        lemma_count_below(orders, m, j + 1);
        let y = x / 2;
        if j + 1 == k {
            assert(pow2(0) == 1) by {
                lemma2_to64();
            }
            assert(y == i);
        } else {
            self.lemma_descend(k, i, j + 1, y);
        }
        assert(0 <= y < self.whole(j + 1));
        assert(!self.split_bit(j + 1, y));
        assert(self.block_ok(j + 1, y));
        assert(x == 2 * y || x == 2 * y + 1);
    }

    /// No block below a whole block that is not split has a split parent.
    pub(super) proof fn lemma_not_below(&self, k: int, i: int, j: int, x: int)
        requires
            self.shape(),
            self.spans_leaves(),
            self.all_blocks_ok(),
            0 <= j < k < self.entries_size,
            0 <= i < self.whole(k),
            !self.split_bit(k, i),
            0 <= x,
            count_at(x, k - j) == i,
        ensures
            !self.parent_split(j, x),
    {
        reveal(count_at);
        lemma_div_pow2_twice(x, 1, (k - j - 1) as nat);
        lemma2_to64();
        assert(1 + (k - j - 1) as nat == (k - j) as nat);
        assert(count_at(x / 2, k - j - 1) == i);
        if j + 1 == k {
            assert(pow2(0) == 1);
            assert(x / 2 == i);
        } else {
            self.lemma_descend(k, i, j + 1, x / 2);
        }
    }

    /// Two blocks of different orders at one address: the index of the
    /// smaller, divided down, is the index of the larger.
    pub(super) proof fn lemma_same_addr(&self, k: int, i: int, j: int, x: int)
        requires
            0 <= j < k,
            0 <= i,
            0 <= x,
            self.addr(k, i) == self.addr(j, x),
        ensures
            count_at(x, k - j) == i,
    {
        let l = self.leaf2base as nat;
        reveal(block_at);
        reveal(count_at);
        let bj = pow2((j + self.leaf2base) as nat) as int;
        let bk = pow2((k + self.leaf2base) as nat) as int;
        let r = pow2((k - j) as nat) as int;
        lemma_pow2_pos((j + self.leaf2base) as nat);
        lemma_pow2_pos((k - j) as nat);
        lemma_pow2_adds((k - j) as nat, (j + self.leaf2base) as nat);
        assert((k - j) as nat + (j + self.leaf2base) as nat == (k + self.leaf2base) as nat);
        assert(bk == r * bj);
        assert(i * bk == (i * r) * bj) by (nonlinear_arith)
            requires
                bk == r * bj,
        ;
        assert(x == i * r) by (nonlinear_arith)
            requires
                x * bj == (i * r) * bj,
                bj > 0,
        ;
        vstd::arithmetic::div_mod::lemma_fundamental_div_mod_converse(x, r, i, 0);
        assert(r * i == i * r) by (nonlinear_arith);
    }

    /// Bits in reach of block `(k, i)`: its own, its parent's and its
    /// halves' lie within the bitmaps.
    pub(super) proof fn lemma_reach(&self, k: int, i: int)
        requires
            self.shape(),
            0 <= k < self.entries_size,
            0 <= i < self.nbits(k),
        ensures
            k + 1 < self.entries_size ==> 0 <= i / 2 < self.nbits(k + 1),
            k >= 1 ==> 0 <= 2 * i + 1 < self.nbits(k - 1),
            k >= 1 ==> self.nbits(k - 1) <= usize::MAX,
            self.nbits(k) <= usize::MAX,
    {
        assert(self.nbits(k) <= usize::MAX && (k >= 1 ==> self.nbits(k - 1) <= usize::MAX)) by {
            reveal(nblocks);
            lemma_usize_pow2_no_overflow((self.entries_size - 1 - k) as nat);
            if k >= 1 {
                lemma_usize_pow2_no_overflow((self.entries_size - k) as nat);
            }
        }
        if k + 1 < self.entries_size {
            lemma_nblocks_step(self.entries_size as nat, k);
        }
        if k >= 1 {
            lemma_nblocks_step(self.entries_size as nat, k - 1);
        }
    }

    /// Blocks of one order at one address are one block.
    pub(super) proof fn lemma_addr_injective(&self, k: int, x: int, y: int)
        requires
            0 <= k,
            self.addr(k, x) == self.addr(k, y),
        ensures
            x == y,
    {
        reveal(block_at);
        let b = pow2((k + self.leaf2base) as nat) as int;
        lemma_pow2_pos((k + self.leaf2base) as nat);
        assert(x == y) by (nonlinear_arith)
            requires
                x * b == y * b,
                b > 0,
        ;
    }

    /// Where a block stands on the free list of its order, its address
    /// stands on the list of addresses.
    pub(super) proof fn lemma_free_addrs_index(&self, k: int, b: int)
        requires
            self.shape(),
            0 <= k < self.entries_size,
            0 <= b <= usize::MAX,
        ensures
            self.free_addrs(k).contains(self.addr(k, b)) == self.list_of(k).contains(b as usize),
            self.list_of(k).contains(b as usize) ==> self.free_addrs(k).index_of(self.addr(k, b))
                == self.list_of(k).index_of(b as usize),
            self.free_addrs(k).no_duplicates(),
    {
        let f = self.list_of(k);
        let fa = self.free_addrs(k);
        let q = self.addr(k, b);
        self.lemma_list(k);
        assert forall|x: int, y: int| 0 <= x < fa.len() && 0 <= y < fa.len() && x != y implies fa[x]
            != fa[y] by {
            if fa[x] == fa[y] {
                self.lemma_addr_injective(k, f[x] as int, f[y] as int);
            }
        }
        if fa.contains(q) {
            let j = fa.index_of(q);
            self.lemma_addr_injective(k, f[j] as int, b);
            assert(f[j] == b as usize);
        }
        if f.contains(b as usize) {
            let j = f.index_of(b as usize);
            assert(fa[j] == q);
            let j2 = fa.index_of(q);
            assert(fa[j2] == q);
            assert(j2 == j);
        }
    }

    /// The head of a free list is handed out to no one.
    pub(super) proof fn lemma_free_not_live(&self, k: int, j: int)
        requires
            self.wf(),
            0 <= k < self.entries_size,
            0 <= j < self.list_of(k).len(),
        ensures
            !self.live@.contains_key(self.addr(k, self.list_of(k)[j] as int)),
            k + 1 < self.entries_size,
            !self.split_bit(k, self.list_of(k)[j] as int),
    {
        let i = self.list_of(k)[j] as int;
        let p = self.addr(k, i);
        assert(self.free_ok(k, j));
        self.lemma_block_span(k, i);
        self.lemma_leaves();
        lemma_count_below(self.entries_size as nat, self.leaves(), k);
        assert(self.block_ok(k, i));
        if self.live@.contains_key(p) {
            let k2 = self.live@[p] as int;
            assert(self.live_ok(p));
            let i2 = (p - self.base_addr) / (pow2((k2 + self.leaf2base) as nat) as int);
            if k2 == k {
                assert(i2 == i);
            } else if k2 < k {
                self.lemma_same_addr(k, i, k2, i2);
                self.lemma_descend(k, i, k2, i2);
            } else {
                self.lemma_same_addr(k2, i2, k, i);
                self.lemma_not_below(k2, i2, k, i);
            }
        }
    }

    /// The order and index of a block that is handed out, and of its buddy.
    pub(super) proof fn lemma_live_block(&self, p: int)
        requires
            self.wf(),
            self.live@.contains_key(p),
        ensures
            ({
                let k = self.live@[p] as int;
                let i = (p - self.base_addr) / (pow2((k + self.leaf2base) as nat) as int);
                let b = if i % 2 == 0 {
                    i + 1
                } else {
                    i - 1
                };
                &&& 0 <= k
                &&& k + 1 < self.entries_size
                &&& p == self.addr(k, i)
                &&& 0 <= i < self.whole(k)
                &&& self.whole(k) < self.nbits(k)
                &&& self.nbits(k) <= usize::MAX
                &&& self.nbits(k) == 2 * self.nbits(k + 1)
                &&& 0 <= b < self.nbits(k)
                &&& self.alloc_bit(k, i)
                &&& !self.split_bit(k, i)
                &&& self.parent_split(k, i)
                &&& self.split_bit(k + 1, i / 2)
                &&& 0 <= i / 2 < self.nbits(k + 1)
                &&& !self.list_of(k).contains(i as usize)
                &&& self.base_addr <= p
                &&& p + pow2((k + self.leaf2base) as nat) <= self.end_addr - self.unavailable
                &&& (p - self.base_addr) % (pow2(self.leaf2base as nat) as int) == 0
                &&& (p - self.base_addr) / (pow2((k + 1 + self.leaf2base) as nat) as int) == i / 2
                &&& self.addr(k, b) == if i % 2 == 0 {
                    p + pow2((k + self.leaf2base) as nat)
                } else {
                    p - pow2((k + self.leaf2base) as nat)
                }
                &&& self.addr(k + 1, i / 2) == if i % 2 == 0 {
                    p
                } else {
                    self.addr(k, b)
                }
                &&& (!self.alloc_bit(k, b) ==> self.list_of(k).contains(b as usize)
                    && b < self.whole(k) && i / 2
                    < self.whole(k + 1) && k + 2 < self.entries_size)
            }),
    {
        let k = self.live@[p] as int;
        let i = (p - self.base_addr) / (pow2((k + self.leaf2base) as nat) as int);
        let b = if i % 2 == 0 {
            i + 1
        } else {
            i - 1
        };
        let orders = self.entries_size as nat;
        assert(self.live_ok(p));
        self.lemma_leaves();
        lemma_count_below(orders, self.leaves(), k);
        lemma_count_below(orders, self.leaves(), k + 1);
        lemma_count_step(self.leaves(), k);
        lemma_nblocks_step(orders, k);
        self.lemma_reach(k, i);
        self.lemma_block_span(k, i);
        self.lemma_family(k, i);
        assert(self.block_ok(k, i));
        if self.list_of(k).contains(i as usize) {
            let j = self.list_of(k).index_of(i as usize);
            assert(self.free_ok(k, j));
        }
        if i % 2 == 0 {
        } else {
            self.lemma_family(k, i - 1);
        }
        let l = self.leaf2base as nat;
        assert((p - self.base_addr) / (pow2((k + 1 + self.leaf2base) as nat) as int) == i / 2) by {
            lemma_div_pow2_twice(p - self.base_addr, (k + self.leaf2base) as nat, 1);
            lemma2_to64();
            assert((k + self.leaf2base) as nat + 1 == (k + 1 + self.leaf2base) as nat);
        }
        if !self.alloc_bit(k, b) {
            assert(self.block_ok(k, b));
            assert(b / 2 == i / 2);
            let j = self.list_of(k).index_of(b as usize);
            assert(self.free_ok(k, j));
            assert(self.block_ok(k + 1, i / 2));
        }
    }

    /// What the free lists of the view hold.
    pub(super) proof fn lemma_view(&self)
        requires
            self.shape(),
        ensures
            self@.free.len() == self.entries_size,
            forall|k: int|
                0 <= k < self.entries_size ==> #[trigger] self@.free[k] == self.free_addrs(k),
            forall|k: int| 0 <= k < self.entries_size ==> (#[trigger] self.free_addrs(k)).len()
                    == self.list_of(k).len(),
    {
    }

    /// A block that is handed out can join the free list of its order.
    pub(super) proof fn lemma_joins_back(&self, p: int)
        requires
            self.wf(),
            self.live@.contains_key(p),
        ensures
            self.can_join(
                self.live@[p] as int,
                (p - self.base_addr) / (pow2((self.live@[p] + self.leaf2base) as nat) as int),
            ),
    {
        let k = self.live@[p] as int;
        let i = (p - self.base_addr) / (pow2((k + self.leaf2base) as nat) as int);
        self.lemma_live_block(p);
        lemma2_to64();
        crate::arith::lemma_pow2_monotonic(4, (k + self.leaf2base) as nat);
        assert forall|k2: int, j2: int| self.on_list(k2, j2) implies #[trigger] self.member(k2, j2)
            != p by {
            self.lemma_free_not_live(k2, j2);
        }
    }

    /// Engines with the same region and lists have the same bits.
    pub(super) proof fn lemma_same_bits(x: &BuddyAlloc, y: &BuddyAlloc)
        requires
            x.region == y.region,
            x.lists@ == y.lists@,
            y.same_scalars(x),
        ensures
            y.same_alloc(x, -1, 0),
            y.same_split(x, -1, 0),
            y.same_lists(x, -1),
            y.same_data(x),
            x.shape() ==> y.shape(),
    {
        if x.shape() {
            Self::lemma_same_books(x, y);
        }
    }

    /// Engines with the same region and lists, over the same span, have the
    /// same books, whatever they leave uncovered at the end of it.
    pub(super) proof fn lemma_same_books(x: &BuddyAlloc, y: &BuddyAlloc)
        requires
            x.shape(),
            x.region == y.region,
            x.lists@ == y.lists@,
            x.base_addr == y.base_addr,
            x.end_addr == y.end_addr,
            x.entries == y.entries,
            x.entries_size == y.entries_size,
            x.leaf2base == y.leaf2base,
            y.base_addr + y.unavailable <= y.end_addr,
        ensures
            y.shape(),
            y.same_alloc(x, -1, 0),
            y.same_split(x, -1, 0),
            y.same_lists(x, -1),
    {
        {
            assert forall|k: int| 0 <= k < y.entries_size implies #[trigger] y.record_ok(k) by {
                assert(x.record_ok(k));
            }
            assert forall|k: int, j: int| y.on_list(k, j) implies #[trigger] y.member_ok(k, j) by {
                assert(x.member_ok(k, j));
            }
            assert forall|k1: int, j1: int, k2: int, j2: int|
                y.on_list(k1, j1) && y.on_list(k2, j2) && !(k1 == k2 && j1 == j2)
                implies #[trigger] y.member(k1, j1) != #[trigger] y.member(k2, j2) by {
                assert(x.member(k1, j1) != x.member(k2, j2));
            }
            assert forall|k: int, j: int| y.on_ring(k, j) implies #[trigger] y.links_ok(k, j) by {
                assert(x.links_ok(k, j));
            }
        }
    }
}

} // verus!
