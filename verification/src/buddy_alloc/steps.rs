//! The steps of allocation and of freeing, each of which keeps the engine
//! consistent.
use crate::arith::{lemma_count_below, lemma_count_step, nblocks};
use super::{BuddyAlloc, BuddyView};
use vstd::arithmetic::power2::{lemma2_to64, pow2};
use vstd::bits::lemma_usize_pow2_no_overflow;
use vstd::prelude::*;

verus! {

impl BuddyAlloc {
    /// The first free order, when the orders before it have nothing free.
    pub(super) proof fn lemma_first_free_some(v: BuddyView, a: nat, kf: nat)
        requires
            a <= kf,
            kf + 1 < v.orders,
            forall|j: int| a <= j < kf ==> (#[trigger] v.free[j]).len() == 0,
            v.free[kf as int].len() > 0,
        ensures
            v.first_free(a) == Some(kf),
        decreases kf - a,
    {
        if a < kf {
            assert(v.free[a as int].len() == 0);
            Self::lemma_first_free_some(v, a + 1, kf);
        }
    }

    /// There is no first free order when nothing is free.
    pub(super) proof fn lemma_first_free_none(v: BuddyView, a: nat)
        requires
            forall|j: int| a <= j && j + 1 < v.orders ==> (#[trigger] v.free[j]).len() == 0,
        ensures
            v.first_free(a) is None,
        decreases v.orders - a,
    {
        if a + 1 < v.orders {
            assert(v.free[a as int].len() == 0);
            Self::lemma_first_free_none(v, a + 1);
        }
    }

    /// Taking the head of the free list of order `k` and marking it as
    /// handed out keeps the engine consistent.
    pub(super) proof fn lemma_take(pre: &BuddyAlloc, post: &BuddyAlloc, k: int)
        requires
            pre.wf(),
            0 <= k < pre.entries_size,
            pre.list_of(k).len() > 0,
            post.shape(),
            post.same_scalars(pre),
            post.live@ == pre.live@.insert(pre.addr(k, pre.list_of(k)[0] as int), k as nat),
            post.alloc_bit(k, pre.list_of(k)[0] as int),
            post.same_alloc(pre, k, pre.list_of(k)[0] as int),
            post.same_split(pre, -1, 0),
            post.list_of(k) == pre.list_of(k).drop_first(),
            post.same_lists(pre, k),
        ensures
            post.wf(),
    {
        let i = pre.list_of(k)[0] as int;
        let p = pre.addr(k, i);
        let orders = pre.entries_size as nat;
        assert(pre.free_ok(k, 0));
        pre.lemma_free_not_live(k, 0);
        pre.lemma_block_span(k, i);
        pre.lemma_leaves();
        pre.lemma_list(k);
        assert forall|k2: int, i2: int|
            post.in_table(k2, i2) implies #[trigger] post.block_ok(k2, i2) by {
            assert(pre.block_ok(k2, i2));
            pre.lemma_reach(k2, i2);
            if post.parent_split(k2, i2) && !post.alloc_bit(k2, i2) {
                assert(pre.list_of(k2).contains(i2 as usize));
                if k2 == k {
                    let j = pre.list_of(k).index_of(i2 as usize);
                    assert(0 <= j < pre.list_of(k).len() && pre.list_of(k)[j] == i2 as usize);
                    assert(j >= 1);
                    assert(post.list_of(k)[j - 1] == i2 as usize);
                }
            }
        }
        assert forall|k2: int, j: int|
            post.on_list(k2, j) implies #[trigger] post.free_ok(k2, j) by {
            if k2 == k {
                assert(pre.free_ok(k, j + 1));
                assert(post.list_of(k)[j] == pre.list_of(k)[j + 1]);
                assert(pre.list_of(k)[j + 1] != pre.list_of(k)[0]);
                let i2 = post.list_of(k)[j] as int;
                lemma_count_below(orders, pre.leaves(), k);
                pre.lemma_reach(k, i2);
            } else {
                assert(pre.free_ok(k2, j));
                let i2 = post.list_of(k2)[j] as int;
                lemma_count_below(orders, pre.leaves(), k2);
                pre.lemma_reach(k2, i2);
            }
        }
        assert forall|q: int| post.live@.contains_key(q) implies #[trigger] post.live_ok(q) by {
            if q == p {
                lemma_count_below(orders, pre.leaves(), k);
                pre.lemma_reach(k, i);
                assert(pre.block_ok(k, i));
            } else {
                assert(pre.live_ok(q));
                let k2 = pre.live@[q] as int;
                let i2 = (q - pre.base_addr) / (pow2((k2 + pre.leaf2base) as nat) as int);
                lemma_count_below(orders, pre.leaves(), k2);
                pre.lemma_reach(k2, i2);
            }
        }
    }

    /// What is known of the halves of a block that is handed out.
    pub(super) proof fn lemma_split_ready(&self, k: int, p: int)
        requires
            self.wf(),
            self.live@.contains_key(p),
            self.live@[p] == k,
            k >= 1,
        ensures
            ({
                let i = (p - self.base_addr) / (pow2((k + self.leaf2base) as nat) as int);
                &&& p == self.addr(k, i)
                &&& 0 <= i < self.whole(k)
                &&& i < self.nbits(k)
                &&& 2 * i + 1 < self.whole(k - 1)
                &&& 2 * i + 1 < self.nbits(k - 1)
                &&& self.nbits(k - 1) <= usize::MAX
                &&& !self.list_of(k - 1).contains((2 * i + 1) as usize)
                &&& !self.list_of(k - 1).contains((2 * i) as usize)
                &&& self.addr(k - 1, 2 * i) == p
                &&& self.addr(k - 1, 2 * i + 1) == p + pow2((k - 1 + self.leaf2base) as nat)
                &&& self.addr(k - 1, 2 * i + 1) + pow2((k - 1 + self.leaf2base) as nat)
                    <= self.end_addr
                &&& self.can_join(k - 1, 2 * i + 1)
                &&& self.in_table(k - 1, 2 * i)
                &&& self.in_table(k, i)
            }),
    {
        let i = (p - self.base_addr) / (pow2((k + self.leaf2base) as nat) as int);
        let orders = self.entries_size as nat;
        assert(self.live_ok(p));
        self.lemma_leaves();
        lemma_count_step(self.leaves(), k - 1);
        lemma_count_below(orders, self.leaves(), k);
        lemma_count_below(orders, self.leaves(), k - 1);
        self.lemma_reach(k, i);
        self.lemma_family(k - 1, i);
        self.lemma_block_span(k - 1, 2 * i + 1);
        lemma_usize_pow2_no_overflow((orders - 1 - (k - 1)) as nat);
        assert(self.nbits(k - 1) <= usize::MAX) by {
            reveal(nblocks);
        }
        assert(self.block_ok(k, i));
        if self.list_of(k - 1).contains((2 * i + 1) as usize) {
            let j = self.list_of(k - 1).index_of((2 * i + 1) as usize);
            assert(0 <= j < self.list_of(k - 1).len() && self.list_of(k - 1)[j]
                == (2 * i + 1) as usize);
            assert(self.free_ok(k - 1, j));
        }
        assert(self.can_join(k - 1, 2 * i + 1)) by {
            lemma2_to64();
            crate::arith::lemma_pow2_monotonic(4, (k - 1 + self.leaf2base) as nat);
            let q = self.addr(k - 1, 2 * i + 1);
            assert forall|k2: int, j2: int| self.on_list(k2, j2) implies #[trigger] self.member(
                k2,
                j2,
            ) != q by {
                if self.member(k2, j2) == q {
                    self.lemma_view();
                    assert(self.free_addrs(k2)[j2] == q);
                    assert(self@.holds(k2 as nat, q));
                    assert(self@.holds(k as nat, p));
                    self.lemma_held_apart(k as nat, p, k2 as nat, q);
                    vstd::arithmetic::power2::lemma_pow2_pos((k2 + self.leaf2base) as nat);
                    crate::arith::lemma_pow2_double((k - 1 + self.leaf2base) as nat);
                    assert((k - 1 + self.leaf2base) as nat + 1 == (k + self.leaf2base) as nat);
                    assert(k as nat + self.leaf2base as nat == (k + self.leaf2base) as nat);
                    assert(k2 as nat + self.leaf2base as nat == (k2 + self.leaf2base) as nat);
                }
            }
        }
        if self.list_of(k - 1).contains((2 * i) as usize) {
            let j = self.list_of(k - 1).index_of((2 * i) as usize);
            assert(0 <= j < self.list_of(k - 1).len() && self.list_of(k - 1)[j]
                == (2 * i) as usize);
            assert(self.free_ok(k - 1, j));
        }
    }

    /// Splitting a block that is handed out, keeping its lower half and
    /// putting its upper half on the free list, keeps the engine consistent.
    pub(super) proof fn lemma_split(pre: &BuddyAlloc, post: &BuddyAlloc, k: int, i: int)
        requires
            pre.wf(),
            1 <= k < pre.entries_size,
            pre.live@.contains_key(pre.addr(k, i)),
            pre.live@[pre.addr(k, i)] == k,
            i == (pre.addr(k, i) - pre.base_addr) / (pow2((k + pre.leaf2base) as nat) as int),
            post.shape(),
            post.same_scalars(pre),
            post.live@ == pre.live@.insert(pre.addr(k, i), (k - 1) as nat),
            post.split_bit(k, i),
            post.same_split(pre, k, i),
            post.alloc_bit(k - 1, 2 * i),
            post.same_alloc(pre, k - 1, 2 * i),
            post.list_of(k - 1) == seq![(2 * i + 1) as usize] + pre.list_of(k - 1),
            post.same_lists(pre, k - 1),
        ensures
            post.wf(),
    {
        let p = pre.addr(k, i);
        let orders = pre.entries_size as nat;
        pre.lemma_split_ready(k, p);
        assert(pre.live_ok(p));
        pre.lemma_leaves();
        lemma_count_step(pre.leaves(), k - 1);
        assert(pre.block_ok(k, i));
        pre.lemma_reach(k, i);
        lemma_count_below(orders, pre.leaves(), k - 1);
        assert(pre.block_ok(k - 1, 2 * i));
        assert(pre.block_ok(k - 1, 2 * i + 1));
        assert forall|k2: int, i2: int|
            post.in_table(k2, i2) implies #[trigger] post.block_ok(k2, i2) by {
            assert(pre.block_ok(k2, i2));
            pre.lemma_reach(k2, i2);
            if post.parent_split(k2, i2) && !post.alloc_bit(k2, i2) {
                if k2 == k - 1 && i2 == 2 * i + 1 {
                    assert(post.list_of(k2)[0] == i2 as usize);
                } else {
                    assert(pre.list_of(k2).contains(i2 as usize));
                    if k2 == k - 1 {
                        let j = pre.list_of(k2).index_of(i2 as usize);
                        assert(0 <= j < pre.list_of(k2).len() && pre.list_of(k2)[j] == i2 as usize);
                        assert(post.list_of(k2)[j + 1] == i2 as usize);
                    }
                }
            }
            if post.parent_split(k2, i2) && i2 < post.whole(k2) && post.alloc_bit(k2, i2)
                && !post.split_bit(k2, i2) {
                if k2 == k - 1 && i2 == 2 * i {
                } else {
                    assert(pre.live@.contains_key(pre.addr(k2, i2)));
                    if pre.addr(k2, i2) == p {
                        assert(k2 == k);
                        pre.lemma_block_span(k2, i2);
                    }
                }
            }
        }
        assert forall|k2: int, j: int|
            post.on_list(k2, j) implies #[trigger] post.free_ok(k2, j) by {
            if k2 == k - 1 && j == 0 {
                assert(post.list_of(k2)[0] == (2 * i + 1) as usize);
            } else {
                let j0 = if k2 == k - 1 {
                    j - 1
                } else {
                    j
                };
                assert(pre.free_ok(k2, j0));
                assert(post.list_of(k2)[j] == pre.list_of(k2)[j0]);
                assert(pre.list_of(k2).contains(pre.list_of(k2)[j0]));
                let i2 = post.list_of(k2)[j] as int;
                lemma_count_below(orders, pre.leaves(), k2);
                pre.lemma_reach(k2, i2);
            }
        }
        assert forall|q: int| post.live@.contains_key(q) implies #[trigger] post.live_ok(q) by {
            if q == p {
                pre.lemma_block_span(k - 1, 2 * i);
            } else {
                assert(pre.live_ok(q));
                let k2 = pre.live@[q] as int;
                let i2 = (q - pre.base_addr) / (pow2((k2 + pre.leaf2base) as nat) as int);
                lemma_count_below(orders, pre.leaves(), k2);
                pre.lemma_reach(k2, i2);
            }
        }
    }

    /// Putting a block that was handed out on the free list of its order,
    /// while its buddy is not free, keeps the engine consistent.
    pub(super) proof fn lemma_release(pre: &BuddyAlloc, post: &BuddyAlloc, p: int)
        requires
            pre.wf(),
            pre.live@.contains_key(p),
            ({
                let k = pre.live@[p] as int;
                let i = (p - pre.base_addr) / (pow2((k + pre.leaf2base) as nat) as int);
                let b = if i % 2 == 0 {
                    i + 1
                } else {
                    i - 1
                };
                &&& pre.alloc_bit(k, b)
                &&& !post.alloc_bit(k, i)
                &&& post.same_alloc(pre, k, i)
                &&& post.list_of(k) == seq![i as usize] + pre.list_of(k)
                &&& post.same_lists(pre, k)
            }),
            post.shape(),
            post.same_scalars(pre),
            post.live@ == pre.live@.remove(p),
            post.same_split(pre, -1, 0),
        ensures
            post.wf(),
    {
        let k = pre.live@[p] as int;
        let i = (p - pre.base_addr) / (pow2((k + pre.leaf2base) as nat) as int);
        let orders = pre.entries_size as nat;
        pre.lemma_live_block(p);
        pre.lemma_leaves();
        assert forall|k2: int, i2: int|
            post.in_table(k2, i2) implies #[trigger] post.block_ok(k2, i2) by {
            assert(pre.block_ok(k2, i2));
            pre.lemma_reach(k2, i2);
            if post.parent_split(k2, i2) && !post.alloc_bit(k2, i2) {
                if k2 == k && i2 == i {
                    assert(post.list_of(k2)[0] == i2 as usize);
                } else {
                    assert(pre.list_of(k2).contains(i2 as usize));
                    if k2 == k {
                        let j = pre.list_of(k2).index_of(i2 as usize);
                        assert(0 <= j < pre.list_of(k2).len() && pre.list_of(k2)[j] == i2 as usize);
                        assert(post.list_of(k2)[j + 1] == i2 as usize);
                    }
                }
            }
            if post.parent_split(k2, i2) && i2 < post.whole(k2) && post.alloc_bit(k2, i2)
                && !post.split_bit(k2, i2) {
                assert(pre.live@.contains_key(pre.addr(k2, i2)));
                if pre.addr(k2, i2) == p {
                    pre.lemma_block_span(k2, i2);
                }
            }
        }
        assert forall|k2: int, j: int|
            post.on_list(k2, j) implies #[trigger] post.free_ok(k2, j) by {
            if k2 == k && j == 0 {
                assert(post.list_of(k2)[0] == i as usize);
            } else {
                let j0 = if k2 == k {
                    j - 1
                } else {
                    j
                };
                assert(pre.free_ok(k2, j0));
                assert(post.list_of(k2)[j] == pre.list_of(k2)[j0]);
                assert(pre.list_of(k2).contains(pre.list_of(k2)[j0]));
                let i2 = post.list_of(k2)[j] as int;
                lemma_count_below(orders, pre.leaves(), k2);
                pre.lemma_reach(k2, i2);
            }
        }
        assert forall|q: int| post.live@.contains_key(q) implies #[trigger] post.live_ok(q) by {
            assert(pre.live_ok(q));
            let k2 = pre.live@[q] as int;
            let i2 = (q - pre.base_addr) / (pow2((k2 + pre.leaf2base) as nat) as int);
            lemma_count_below(orders, pre.leaves(), k2);
            pre.lemma_reach(k2, i2);
        }
    }

    /// Merging a block that was handed out with its free buddy, the merged
    /// block counting as handed out, keeps the engine consistent.
    pub(super) proof fn lemma_merge(pre: &BuddyAlloc, post: &BuddyAlloc, p: int)
        requires
            pre.wf(),
            pre.live@.contains_key(p),
            ({
                let k = pre.live@[p] as int;
                let i = (p - pre.base_addr) / (pow2((k + pre.leaf2base) as nat) as int);
                let b = if i % 2 == 0 {
                    i + 1
                } else {
                    i - 1
                };
                &&& !pre.alloc_bit(k, b)
                &&& !post.alloc_bit(k, i)
                &&& post.same_alloc(pre, k, i)
                &&& post.list_of(k) == pre.list_of(k).remove(pre.list_of(k).index_of(b as usize))
                &&& post.same_lists(pre, k)
                &&& !post.split_bit(k + 1, i / 2)
                &&& post.same_split(pre, k + 1, i / 2)
                &&& post.live@ == pre.live@.remove(p).insert(pre.addr(k + 1, i / 2), (k + 1) as nat)
            }),
            post.shape(),
            post.same_scalars(pre),
        ensures
            post.wf(),
    {
        let k = pre.live@[p] as int;
        let i = (p - pre.base_addr) / (pow2((k + pre.leaf2base) as nat) as int);
        let b = if i % 2 == 0 {
            i + 1
        } else {
            i - 1
        };
        let g = i / 2;
        let merged = pre.addr(k + 1, g);
        let orders = pre.entries_size as nat;
        pre.lemma_live_block(p);
        pre.lemma_leaves();
        let jb = pre.list_of(k).index_of(b as usize);
        assert(0 <= jb < pre.list_of(k).len() && pre.list_of(k)[jb] == b as usize);
        pre.lemma_free_not_live(k, jb);
        pre.lemma_list(k);
        pre.lemma_block_span(k + 1, g);
        lemma_count_below(orders, pre.leaves(), k + 1);
        pre.lemma_reach(k + 1, g);
        assert(pre.block_ok(k + 1, g));
        assert(pre.block_ok(k, b));
        assert(pre.block_ok(k, i));
        assert forall|k2: int, i2: int|
            post.in_table(k2, i2) implies #[trigger] post.block_ok(k2, i2) by {
            assert(pre.block_ok(k2, i2));
            pre.lemma_reach(k2, i2);
            if post.parent_split(k2, i2) && !post.alloc_bit(k2, i2) {
                assert(pre.list_of(k2).contains(i2 as usize));
                if k2 == k {
                    let j = pre.list_of(k2).index_of(i2 as usize);
                    assert(0 <= j < pre.list_of(k2).len() && pre.list_of(k2)[j] == i2 as usize);
                    if j < jb {
                        assert(post.list_of(k2)[j] == i2 as usize);
                    } else {
                        assert(post.list_of(k2)[j - 1] == i2 as usize);
                    }
                }
            }
            if post.parent_split(k2, i2) && i2 < post.whole(k2) && post.alloc_bit(k2, i2)
                && !post.split_bit(k2, i2) {
                if k2 == k + 1 && i2 == g {
                } else {
                    assert(pre.live@.contains_key(pre.addr(k2, i2)));
                    if pre.addr(k2, i2) == p {
                        pre.lemma_block_span(k2, i2);
                    }
                }
            }
        }
        assert forall|k2: int, j: int|
            post.on_list(k2, j) implies #[trigger] post.free_ok(k2, j) by {
            let j0 = if k2 == k && j >= jb {
                j + 1
            } else {
                j
            };
            assert(pre.free_ok(k2, j0));
            assert(post.list_of(k2)[j] == pre.list_of(k2)[j0]);
            assert(pre.list_of(k2).contains(pre.list_of(k2)[j0]));
            let i2 = post.list_of(k2)[j] as int;
            lemma_count_below(orders, pre.leaves(), k2);
            pre.lemma_reach(k2, i2);
            if k2 == k {
                assert(pre.list_of(k)[j0] != pre.list_of(k)[jb]);
            }
        }
        assert forall|q: int| post.live@.contains_key(q) implies #[trigger] post.live_ok(q) by {
            if q == merged {
            } else {
                assert(pre.live_ok(q));
                let k2 = pre.live@[q] as int;
                let i2 = (q - pre.base_addr) / (pow2((k2 + pre.leaf2base) as nat) as int);
                lemma_count_below(orders, pre.leaves(), k2);
                pre.lemma_reach(k2, i2);
            }
        }
    }
}

} // verus!
