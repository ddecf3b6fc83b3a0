//! What holds of every consistent engine.
use crate::arith::{
    count_at, lemma_count_below, lemma_count_step, lemma_levels, lemma_log2_floor_bounds,
    lemma_pow2_double, lemma_pow2_lt_exponent,
};
use super::{
    BuddyAlloc, block_at, first_up_order, is_first_up_k, lemma_first_up_k_unique, tile_list,
};
use vstd::arithmetic::power2::{lemma2_to64, lemma_pow2_adds, lemma_pow2_pos, pow2};
use vstd::prelude::*;

verus! {

impl BuddyAlloc {
    /// A block that is handed out lies within the span that blocks cover,
    /// on a leaf boundary, below the top order.
    pub proof fn lemma_live_in_span(&self, p: int)
        requires
            self.wf(),
            self@.live.contains_key(p),
        ensures
            self@.live_in_span(p),
            self@.live[p] + 1 < self@.orders,
            0 < self@.base <= self@.end - self@.unavailable <= self@.end,
            self@.base <= p < self@.end,
            p % (self@.leaf() as int) == 0,
    {
        self.lemma_live_block(p);
        let k = self.live@[p];
        lemma_pow2_pos((k + self.leaf2base) as nat);
        assert((k + self.leaf2base) as nat == k + self.leaf2base as nat);
        lemma_pow2_pos(self.leaf2base as nat);
        vstd::arithmetic::div_mod::lemma_mod_adds(
            self.base_addr as int,
            p - self.base_addr,
            pow2(self.leaf2base as nat) as int,
        );
    }

    /// Two blocks that are handed out do not overlap.
    pub proof fn lemma_live_disjoint(&self, p: int, q: int)
        requires
            self.wf(),
            self@.live.contains_key(p),
            self@.live.contains_key(q),
            p != q,
        ensures
            p + self@.block(self@.live[p]) <= q || q + self@.block(self@.live[q]) <= p,
    {
        let k1 = self.live@[p] as int;
        let k2 = self.live@[q] as int;
        if k1 >= k2 {
            self.lemma_apart(p, q);
        } else {
            self.lemma_apart(q, p);
        }
    }

    /// A block that is handed out does not overlap another of its order or
    /// of a lower one.
    pub(super) proof fn lemma_apart(&self, p: int, q: int)
        requires
            self.wf(),
            self.live@.contains_key(p),
            self.live@.contains_key(q),
            p != q,
            self.live@[p] >= self.live@[q],
        ensures
            p + self@.block(self@.live[p]) <= q || q + self@.block(self@.live[q]) <= p,
    {
        let k1 = self.live@[p] as int;
        let k2 = self.live@[q] as int;
        let l = self.leaf2base as nat;
        let i1 = (p - self.base_addr) / (pow2((k1 + self.leaf2base) as nat) as int);
        let i2 = (q - self.base_addr) / (pow2((k2 + self.leaf2base) as nat) as int);
        self.lemma_live_block(p);
        self.lemma_live_block(q);
        assert(self.live@[p] + l == (k1 + self.leaf2base) as nat);
        assert(self.live@[q] + l == (k2 + self.leaf2base) as nat);
        self.lemma_blocks_apart(k1, i1, k2, i2);
    }

    /// Two blocks do not overlap if the one of higher order is whole and not
    /// split, and the other has a split parent.
    pub(super) proof fn lemma_blocks_apart(&self, k1: int, i1: int, k2: int, i2: int)
        requires
            self.wf(),
            0 <= k2 <= k1 < self.entries_size,
            0 <= i1 < self.whole(k1),
            0 <= i2,
            !self.split_bit(k1, i1),
            self.parent_split(k2, i2),
            !(k1 == k2 && i1 == i2),
        ensures
            self.addr(k1, i1) + pow2((k1 + self.leaf2base) as nat) <= self.addr(k2, i2)
                || self.addr(k2, i2) + pow2((k2 + self.leaf2base) as nat) <= self.addr(k1, i1),
    {
        let p = self.addr(k1, i1);
        let q = self.addr(k2, i2);
        let b1 = pow2((k1 + self.leaf2base) as nat) as int;
        let b2 = pow2((k2 + self.leaf2base) as nat) as int;
        let r = pow2((k1 - k2) as nat) as int;
        lemma_pow2_pos((k2 + self.leaf2base) as nat);
        lemma_pow2_pos((k1 - k2) as nat);
        lemma_pow2_adds((k1 - k2) as nat, (k2 + self.leaf2base) as nat);
        assert((k1 - k2) as nat + (k2 + self.leaf2base) as nat == (k1 + self.leaf2base) as nat);
        assert(b1 == r * b2);
        reveal(block_at);
        assert(p == self.base_addr + i1 * b1);
        assert(q == self.base_addr + i2 * b2);
        if !(p + b1 <= q || q + b2 <= p) {
            assert(i1 * r <= i2 < (i1 + 1) * r) by (nonlinear_arith)
                requires
                    i1 * b1 + b1 > i2 * b2,
                    i2 * b2 + b2 > i1 * b1,
                    b1 == r * b2,
                    b2 > 0,
                    r > 0,
            ;
            assert((i1 + 1) * r == i1 * r + r) by (nonlinear_arith);
            assert(i1 * r == r * i1) by (nonlinear_arith);
            vstd::arithmetic::div_mod::lemma_fundamental_div_mod_converse(i2, r, i1, i2 - i1 * r);
            assert(count_at(i2, k1 - k2) == i1) by {
                reveal(count_at);
            }
            if k1 == k2 {
                assert(pow2(0) == 1) by {
                    lemma2_to64();
                }
                assert(i1 * r == i1 && (i1 + 1) * r == i1 + 1) by (nonlinear_arith)
                    requires
                        r == 1,
                ;
                assert(i1 == i2);
            } else {
                self.lemma_not_below(k1, i1, k2, i2);
            }
        }
    }

    /// The index of a block that is free or handed out, and what the
    /// bitmaps say of the block.
    pub(super) proof fn lemma_held(&self, k: nat, p: int) -> (i: int)
        requires
            self.wf(),
            self@.holds(k, p),
        ensures
            k + 1 < self.entries_size,
            0 <= i < self.whole(k as int),
            p == self.addr(k as int, i),
            self.parent_split(k as int, i),
            !self.split_bit(k as int, i),
            self@.block(k) == pow2((k + self.leaf2base) as nat),
    {
        self.lemma_view();
        self.lemma_leaves();
        assert(k + self.leaf2base as nat == (k + self.leaf2base) as nat);
        if self.live@.contains_key(p) && self.live@[p] == k {
            self.lemma_live_block(p);
            (p - self.base_addr) / (pow2((k + self.leaf2base) as nat) as int)
        } else {
            let j = self.free_addrs(k as int).index_of(p);
            assert(self.free_addrs(k as int)[j] == p);
            let i = self.list_of(k as int)[j] as int;
            assert(self.free_ok(k as int, j));
            lemma_count_below(self.entries_size as nat, self.leaves(), k as int);
            assert(self.block_ok(k as int, i));
            i
        }
    }

    /// Two blocks, each free or handed out, do not overlap.
    pub proof fn lemma_held_apart(&self, k1: nat, pa: int, k2: nat, pb: int)
        requires
            self.wf(),
            self@.holds(k1, pa),
            self@.holds(k2, pb),
            !(k1 == k2 && pa == pb),
        ensures
            pa + self@.block(k1) <= pb || pb + self@.block(k2) <= pa,
    {
        let i1 = self.lemma_held(k1, pa);
        let i2 = self.lemma_held(k2, pb);
        if k1 >= k2 {
            self.lemma_blocks_apart(k1 as int, i1, k2 as int, i2);
        } else {
            self.lemma_blocks_apart(k2 as int, i2, k1 as int, i1);
        }
    }

    /// The highest order at which the block that holds leaf `y` is whole:
    /// that block has a split parent.
    proof fn lemma_top_block(&self, y: int, k: int) -> (t: int)
        requires
            self.wf(),
            0 <= y,
            0 <= k < self.entries_size,
            count_at(y, k) < self.whole(k),
        ensures
            k <= t,
            t + 1 < self.entries_size,
            0 <= count_at(y, t) < self.whole(t),
            self.parent_split(t, count_at(y, t)),
        decreases self.entries_size - k,
    {
        let orders = self.entries_size as nat;
        let m = self.leaves();
        self.lemma_leaves();
        lemma_levels(orders, m);
        lemma_count_step(y, k);
        lemma_count_step(m, k);
        assert(k + 1 < self.entries_size);
        if count_at(y, k + 1) < self.whole(k + 1) {
            self.lemma_top_block(y, k + 1)
        } else {
            lemma_count_below(orders, m, k + 1);
            assert(self.block_ok(k + 1, self.whole(k + 1)));
            k
        }
    }

    /// Below a whole block with a split parent, the block that holds leaf
    /// `y` is free or handed out at some order.
    proof fn lemma_held_below(&self, y: int, t: int) -> (k: int)
        requires
            self.wf(),
            0 <= y,
            0 <= t < self.entries_size,
            count_at(y, t) < self.whole(t),
            self.parent_split(t, count_at(y, t)),
        ensures
            0 <= k <= t,
            0 <= count_at(y, k) < self.whole(k),
            self.list_of(k).contains(count_at(y, k) as usize) || (self.live@.contains_key(
                self.addr(k, count_at(y, k)),
            ) && self.live@[self.addr(k, count_at(y, k))] == k),
        decreases t,
    {
        let orders = self.entries_size as nat;
        let m = self.leaves();
        let i = count_at(y, t);
        self.lemma_leaves();
        lemma_count_below(orders, m, t);
        lemma_count_step(y, t);
        assert(self.block_ok(t, i));
        if self.split_bit(t, i) {
            lemma_count_step(y, t - 1);
            lemma_count_step(m, t - 1);
            self.lemma_held_below(y, t - 1)
        } else {
            t
        }
    }

    /// Every byte of the span lies in a block that is free or handed out: no
    /// byte is lost.
    pub proof fn lemma_covered(&self, x: int)
        requires
            self.wf(),
            self@.base <= x < self@.end - self@.unavailable,
        ensures
            exists|k: nat, p: int| #[trigger] self@.holds(k, p) && p <= x < p + self@.block(k),
    {
        let l = self.leaf2base as nat;
        let d = pow2(l) as int;
        let m = self.leaves();
        let orders = self.entries_size as nat;
        let y = (x - self.base_addr) / d;
        self.lemma_leaves();
        self.lemma_view();
        lemma_pow2_pos(l);
        vstd::arithmetic::div_mod::lemma_fundamental_div_mod(x - self.base_addr, d);
        vstd::arithmetic::div_mod::lemma_fundamental_div_mod(
            self.end_addr - self.unavailable - self.base_addr,
            d,
        );
        assert(0 <= y < m) by (nonlinear_arith)
            requires
                x - self.base_addr == d * y + (x - self.base_addr) % d,
                0 <= (x - self.base_addr) % d < d,
                self.end_addr - self.unavailable - self.base_addr == d * m,
                0 <= x - self.base_addr < self.end_addr - self.unavailable - self.base_addr,
                d > 0,
        ;
        lemma_levels(orders, m);
        lemma_levels(orders, y);
        let t = self.lemma_top_block(y, 0);
        let k = self.lemma_held_below(y, t);
        let i = count_at(y, k);
        let p = self.addr(k, i);
        lemma_count_below(orders, m, k);
        self.lemma_reach(k, i);
        self.lemma_free_addrs_index(k, i);
        assert(self@.holds(k as nat, p));
        // the block holds the leaf, and the leaf holds the byte
        let e = pow2(k as nat) as int;
        let b = pow2((k + self.leaf2base) as nat) as int;
        lemma_pow2_pos(k as nat);
        lemma_pow2_adds(k as nat, l);
        assert(k as nat + l == (k + self.leaf2base) as nat);
        reveal(count_at);
        reveal(block_at);
        vstd::arithmetic::div_mod::lemma_fundamental_div_mod(y, e);
        assert(i * b <= x - self.base_addr < i * b + b) by (nonlinear_arith)
            requires
                y == e * i + y % e,
                0 <= y % e < e,
                x - self.base_addr == d * y + (x - self.base_addr) % d,
                0 <= (x - self.base_addr) % d < d,
                b == e * d,
                d > 0,
                e > 0,
        ;
    }

    /// While nothing is handed out, no whole block with a split parent is
    /// marked in the `alloc` bitmap.
    pub(super) proof fn lemma_idle_clear(&self, k: int, i: int)
        requires
            self.wf(),
            self.live@ == Map::<int, nat>::empty(),
            0 <= k < self.entries_size,
            0 <= i < self.whole(k),
            self.parent_split(k, i),
        ensures
            !self.alloc_bit(k, i),
        decreases k,
    {
        let orders = self.entries_size as nat;
        self.lemma_leaves();
        lemma_count_below(orders, self.leaves(), k);
        assert(self.block_ok(k, i));
        if self.alloc_bit(k, i) {
            assert(self.split_bit(k, i));
            lemma_count_step(self.leaves(), k - 1);
            self.lemma_reach(k, i);
            assert((2 * i) / 2 == i && (2 * i + 1) / 2 == i);
            if self.alloc_bit(k - 1, 2 * i) {
                self.lemma_idle_clear(k - 1, 2 * i);
            } else {
                self.lemma_idle_clear(k - 1, 2 * i + 1);
            }
        }
    }

    /// While nothing is handed out, the free list of each order is that of
    /// the tiling.
    pub(super) proof fn lemma_idle_list(&self, k: int)
        requires
            self.wf(),
            self.live@ == Map::<int, nat>::empty(),
            0 <= k < self.entries_size,
        ensures
            self.list_of(k) == tile_list(self.leaves(), k),
    {
        let orders = self.entries_size as nat;
        let m = self.leaves();
        let c = self.whole(k);
        let f = self.list_of(k);
        self.lemma_leaves();
        lemma_count_below(orders, m, k);
        lemma_count_step(m, k);
        self.lemma_list(k);
        self.lemma_reach(k, c);
        assert forall|j: int| 0 <= j < f.len() implies c % 2 == 1 && #[trigger] f[j] == (c
            - 1) as usize by {
            let i = f[j] as int;
            assert(self.free_ok(k, j));
            lemma_count_below(orders, m, k + 1);
            if i / 2 < self.whole(k + 1) {
                self.lemma_reach(k, i);
                assert(self.block_ok(k + 1, i / 2));
                self.lemma_idle_clear(k + 1, i / 2);
            }
        }
        if c % 2 == 1 {
            lemma_levels(orders, m);
            assert(k + 1 < self.entries_size);
            lemma_count_below(orders, m, k + 1);
            assert(self.block_ok(k + 1, self.whole(k + 1)));
            assert(self.parent_split(k, c - 1));
            self.lemma_idle_clear(k, c - 1);
            self.lemma_reach(k, c - 1);
            assert(self.block_ok(k, c - 1));
            assert(f.contains((c - 1) as usize));
            assert(f.len() == 1) by {
                if f.len() >= 2 {
                    assert(f[0] == f[1]);
                }
            }
            assert(f =~= tile_list(m, k));
        } else {
            assert(f.len() == 0) by {
                if f.len() > 0 {
                    assert(f[0] == (c - 1) as usize);
                }
            }
            assert(f =~= tile_list(m, k));
        }
    }

    /// Once every block has been given back, the free lists are those of a
    /// fresh engine: nothing stays fragmented.
    pub proof fn lemma_all_free(&self)
        requires
            self.wf(),
            self@.live == Map::<int, nat>::empty(),
        ensures
            self@.free == self@.tiling(),
    {
        let m = self.leaves();
        let l = self.leaf2base as nat;
        let orders = self.entries_size as nat;
        self.lemma_leaves();
        reveal(block_at);
        assert(self@.leaves() == m);
        assert forall|k: int| 0 <= k < self.entries_size implies #[trigger] self.free_addrs(k)
            == self@.tiling()[k] by {
            self.lemma_idle_list(k);
            lemma_count_below(orders, m, k);
            self.lemma_reach(k, self.whole(k));
            assert(k as nat + l == (k + self.leaf2base) as nat);
            assert(self.free_addrs(k) =~= self@.tiling()[k]);
        }
        assert(self@.free =~= self@.tiling());
    }

    /// Once every block has been given back, a request for the largest block
    /// that fits in the span is served, with the block at the start of the
    /// span.
    pub proof fn lemma_largest_block(&self)
        requires
            self.wf(),
            self@.live == Map::<int, nat>::empty(),
            self@.leaves() >= 1,
        ensures
            self@.top_order() + 1 < self@.orders,
            self@.block(self@.top_order())
                <= self@.available() < 2 * self@.block(self@.top_order()),
            self@.malloc_ptr(self@.block(self@.top_order()) as nat) == self@.base,
            self@.base != 0,
    {
        let m = self.leaves();
        let l = self.leaf2base as nat;
        let orders = self.entries_size as nat;
        let t = self@.top_order();
        let v = self@;
        self.lemma_leaves();
        self.lemma_all_free();
        assert(v.leaves() == m);
        lemma_log2_floor_bounds(m as nat);
        lemma_pow2_double(t);
        lemma_pow2_lt_exponent(t, (orders - 1) as nat);
        lemma_pow2_pos(t);
        lemma_pow2_pos(l);
        assert(count_at(m, t as int) == 1) by {
            reveal(count_at);
            vstd::arithmetic::div_mod::lemma_fundamental_div_mod_converse(
                m,
                pow2(t) as int,
                1,
                m - pow2(t),
            );
        }
        assert((count_at(m, t as int) - 1) * v.block(t) == 0) by (nonlinear_arith)
            requires
                count_at(m, t as int) == 1,
        ;
        assert(v.tiling()[t as int] =~= seq![v.base]);
        assert(v.free[t as int].len() > 0);
        assert(v.first_free(t) == Some(t));
        lemma_pow2_adds(t, l);
        let n = v.block(t) as nat;
        assert(is_first_up_k(t, n, v.leaf())) by {
            if t > 0 {
                lemma_pow2_adds((t - 1) as nat, l);
                lemma_pow2_double((t - 1) as nat);
                assert(pow2((t - 1) as nat) * pow2(l) < pow2(t) * pow2(l)) by (nonlinear_arith)
                    requires
                        pow2((t - 1) as nat) < pow2(t),
                        pow2(l) > 0,
                ;
            }
        }
        lemma_first_up_k_unique(first_up_order(n, v.leaf()), t, n, v.leaf());
        let span = self.end_addr - self.unavailable - self.base_addr;
        vstd::arithmetic::div_mod::lemma_fundamental_div_mod(span, pow2(l) as int);
        assert(pow2(t) * pow2(l) <= m * pow2(l) && m * pow2(l) < 2 * (pow2(t) * pow2(l)))
            by (nonlinear_arith)
            requires
                pow2(t) <= m < 2 * pow2(t),
                pow2(l) > 0,
        ;
        assert(pow2(l) * m == m * pow2(l)) by (nonlinear_arith);
    }
}

} // verus!
