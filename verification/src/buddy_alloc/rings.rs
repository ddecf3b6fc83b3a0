//! The free lists of an engine: rings of nodes in the region, one ring for
//! each order, held together by the addresses that the nodes keep of their
//! neighbours. The node of a free block lies at the head of the block.
use crate::arith::lemma_block_offsets;
use crate::region::{lemma_linked, lemma_unlinked, span};
use super::{block_at, BuddyAlloc};
use vstd::arithmetic::power2::{lemma_pow2_adds, lemma_pow2_pos, pow2};
use vstd::prelude::*;

verus! {

impl BuddyAlloc {
    /// Whether the address `a` lies in the node of a block on the free list
    /// of order `k`.
    pub(super) open spec fn at_head(&self, k: int, a: int) -> bool {
        exists|j: int| self.on_list(k, j) && #[trigger] self.member(k, j)
            <= a < self.member(k, j) + 16
    }

    /// The two engines agree on every byte of the span but those in the
    /// nodes of the blocks that are, in one or the other, on the free list
    /// of order `k`.
    pub(super) open spec fn same_data_but_heads(&self, o: &BuddyAlloc, k: int) -> bool {
        forall|a: int|
            self.base_addr <= a < self.end_addr && !self.at_head(k, a) && !o.at_head(k, a)
                ==> #[trigger] self.region.byte_at(a) == o.region.byte_at(a)
    }

    /// Whether the free list of order `k` is empty.
    pub(super) fn list_is_empty(&self, k: usize) -> (r: bool)
        requires
            self.shape(),
            k < self.entries_size,
        ensures
            r == (self.list_of(k as int).len() == 0),
    {
        let list: usize = self.free_of(k);
        proof {
            assert(self.on_ring(k as int, 0));
            assert(self.links_ok(k as int, 0));
            self.lemma_node_place(k as int, 0);
            self.lemma_node_place(k as int, 1);
        }
        self.region.read_word(list) == list
    }

    /// What a write to the nodes leaves of the records and of the bitmaps:
    /// everything.
    proof fn lemma_nodes_written(pre: &BuddyAlloc, post: &BuddyAlloc, t: Set<int>)
        requires
            pre.shape(),
            post.same_scalars(pre),
            post.region.wf(),
            post.region.same_except(&pre.region, t),
            forall|a: int|
                t.contains(a) ==> pre.entries + 24 * pre.entries_size <= a < pre.entries + 40
                    * pre.entries_size || pre.base_addr <= a,
        ensures
            post.sized() == (post.lists@.len() == post.entries_size),
            forall|k: int| 0 <= k < post.entries_size ==> #[trigger] post.record_ok(k),
            post.same_alloc(pre, -1, 0),
            post.same_split(pre, -1, 0),
    {
        let orders = pre.entries_size as nat;
        super::memory::lemma_bitmaps_prefix(0, orders, orders);
        assert forall|k: int| 0 <= k < post.entries_size implies #[trigger] post.record_ok(k) by {
            assert(pre.record_ok(k));
            let at = pre.entries + 24 * k;
            post.region.lemma_word_same_except(&pre.region, t, at);
            post.region.lemma_word_same_except(&pre.region, t, at + 8);
            post.region.lemma_word_same_except(&pre.region, t, at + 16);
        }
        assert forall|k: int, i: int| post.in_table(k, i) implies #[trigger] post.alloc_bit(k, i)
            == pre.alloc_bit(k, i) by {
            pre.lemma_alloc_place(k, i);
            post.region.lemma_byte_same_except(&pre.region, t, pre.alloc_base(k) + i / 8);
            crate::bits::lemma_bit_same(&post.region, &pre.region, pre.alloc_base(k), i);
        }
        assert forall|k: int, i: int| post.in_table(k, i) implies #[trigger] post.split_bit(k, i)
            == pre.split_bit(k, i) by {
            if k >= 1 {
                pre.lemma_split_place(k, i);
                post.region.lemma_byte_same_except(&pre.region, t, pre.split_base(k) + i / 8);
                crate::bits::lemma_bit_same(&post.region, &pre.region, pre.split_base(k), i);
            }
        }
    }

    /// Whether block `i` of order `k` can join a free list: it has a bit in
    /// the bitmaps and room for a node in the span, and no block on a list
    /// starts where it starts.
    pub(super) open spec fn can_join(&self, k: int, i: int) -> bool {
        &&& self.in_table(k, i)
        &&& k + 1 < self.entries_size
        &&& self.addr(k, i) + 16 <= self.end_addr
        &&& forall|k2: int, j2: int| self.on_list(k2, j2) ==> #[trigger] self.member(k2, j2)
            != self.addr(k, i)
    }

    /// What can join a list of one engine can join it in another with the
    /// same lists over the same span.
    pub(super) proof fn lemma_can_join_same(x: &BuddyAlloc, y: &BuddyAlloc, k: int, i: int)
        requires
            x.can_join(k, i),
            y.same_scalars(x),
            y.lists@ == x.lists@,
        ensures
            y.can_join(k, i),
    {
        assert forall|k2: int, j2: int| y.on_list(k2, j2) implies #[trigger] y.member(k2, j2)
            != y.addr(k, i) by {
            assert(x.on_list(k2, j2));
            assert(x.member(k2, j2) != x.addr(k, i));
        }
    }

    /// Puts block `i` at the head of the free list of order `k`.
    pub(super) fn list_push(&mut self, k: usize, i: usize)
        requires
            old(self).shape(),
            old(self).can_join(k as int, i as int),
        ensures
            final(self).shape(),
            final(self).same_frame(old(self)),
            final(self).list_of(k as int) == seq![i] + old(self).list_of(k as int),
            final(self).lists@ == old(self).lists@.update(
                k as int,
                seq![i] + old(self).list_of(k as int),
            ),
            final(self).same_lists(old(self), k as int),
            final(self).same_alloc(old(self), -1, 0),
            final(self).same_split(old(self), -1, 0),
            final(self).same_data_but_heads(old(self), k as int),
    {
        let ghost pre = *self;
        let ghost kk = k as int;
        proof {
            reveal(block_at);
            lemma_block_offsets(i as int, k as nat, self.leaf2base as nat);
            assert(k as nat + self.leaf2base as nat == (k + self.leaf2base) as nat);
            pre.lemma_node_place(kk, 0);
            pre.lemma_node_place(kk, 1);
            pre.lemma_nodes_apart(kk, 0, kk, 1);
            assert(pre.on_ring(kk, 0));
            assert(pre.links_ok(kk, 0));
            pre.lemma_head_aligned(kk, i as int);
        }
        let list: usize = self.free_of(k);
        let p: usize = self.block_addr(k, i);
        let first: usize = self.region.read_word(list);
        proof {
            if 1 <= pre.list_of(kk).len() {
                assert(pre.on_list(kk, 0));
                assert(pre.member(kk, 0) != pre.addr(kk, i as int));
            }
        }
        let ghost r0 = self.region;
        self.region.write_word(p + 8, list);
        let ghost r1 = self.region;
        self.region.write_word(p, first);
        let ghost r2 = self.region;
        self.region.write_word(first + 8, p);
        let ghost r3 = self.region;
        self.region.write_word(list, p);
        proof {
            self.lists@ = self.lists@.update(kk, seq![i] + self.lists@[kk]);
            let t = span(p as int, 16).union(span(first + 8, 8)).union(span(list as int, 8));
            lemma_linked(&r0, &r1, &r2, &r3, &self.region, list as int, p as int, first as int);
            Self::lemma_nodes_written(&pre, self, t);
            Self::lemma_pushed(&pre, self, kk, i as int, t);
        }
    }

    /// The address of a block lies a multiple of 16 behind the start of the
    /// span.
    pub(super) proof fn lemma_head_aligned(&self, k: int, i: int)
        requires
            self.sized(),
            0 <= k,
            0 <= i,
        ensures
            self.base_addr <= self.addr(k, i),
            (self.addr(k, i) - self.base_addr) % 16 == 0,
    {
        let l = self.leaf2base as nat;
        reveal(block_at);
        lemma_pow2_pos((k + self.leaf2base) as nat);
        vstd::arithmetic::power2::lemma2_to64();
        lemma_pow2_adds(4, (k + self.leaf2base - 4) as nat);
        assert(4 + (k + self.leaf2base - 4) as nat == (k + self.leaf2base) as nat);
        let r = pow2((k + self.leaf2base - 4) as nat) as int;
        let b = pow2((k + self.leaf2base) as nat) as int;
        lemma_pow2_pos((k + self.leaf2base - 4) as nat);
        assert(i * b == 16 * (i * r) && i * b >= 0) by (nonlinear_arith)
            requires
                b == 16 * r,
                i >= 0,
                r > 0,
        ;
    }

    /// The ring of order `k` after the block `i` has been linked in behind
    /// the sentinel, and the other rings, which are as they were.
    proof fn lemma_pushed(pre: &BuddyAlloc, post: &BuddyAlloc, k: int, i: int, t: Set<int>)
        requires
            pre.shape(),
            pre.can_join(k, i),
            0 <= i <= usize::MAX,
            post.same_frame(pre),
            post.lists@ == pre.lists@.update(k, seq![i as usize] + pre.lists@[k]),
            post.region.wf(),
            t == span(pre.addr(k, i), 16).union(span(pre.node(k, 1) + 8, 8)).union(
                span(pre.sentinel(k), 8),
            ),
            post.region.same_except(&pre.region, t),
            post.region.word_at(pre.sentinel(k)) == pre.addr(k, i),
            post.region.word_at(pre.node(k, 1) + 8) == pre.addr(k, i),
            post.region.word_at(pre.addr(k, i)) == pre.node(k, 1),
            post.region.word_at(pre.addr(k, i) + 8) == pre.sentinel(k),
            forall|k2: int| 0 <= k2 < post.entries_size ==> #[trigger] post.record_ok(k2),
        ensures
            post.shape(),
            post.list_of(k) == seq![i as usize] + pre.list_of(k),
            post.same_lists(pre, k),
            post.same_data_but_heads(pre, k),
    {
        let p = pre.addr(k, i);
        let s = pre.sentinel(k);
        let first = pre.node(k, 1);
        pre.lemma_head_aligned(k, i);
        pre.lemma_node_place(k, 0);
        pre.lemma_node_place(k, 1);
        assert forall|k2: int, j2: int| post.on_list(k2, j2) implies #[trigger] post.member_ok(
            k2,
            j2,
        ) by {
            if k2 == k && j2 == 0 {
            } else if k2 == k {
                assert(pre.on_list(k, j2 - 1));
                assert(pre.member_ok(k, j2 - 1));
                assert(post.member(k, j2) == pre.member(k, j2 - 1));
            } else {
                assert(pre.on_list(k2, j2));
                assert(pre.member_ok(k2, j2));
            }
        }
        assert forall|k1: int, j1: int, k2: int, j2: int|
            post.on_list(k1, j1) && post.on_list(k2, j2) && !(k1 == k2 && j1 == j2)
            implies #[trigger] post.member(k1, j1) != #[trigger] post.member(k2, j2) by {
            let a1 = if k1 == k {
                j1 - 1
            } else {
                j1
            };
            let a2 = if k2 == k {
                j2 - 1
            } else {
                j2
            };
            if k1 == k && j1 == 0 {
                assert(pre.on_list(k2, a2));
                assert(pre.member(k2, a2) != p);
            } else if k2 == k && j2 == 0 {
                assert(pre.on_list(k1, a1));
                assert(pre.member(k1, a1) != p);
            } else {
                assert(pre.on_list(k1, a1));
                assert(pre.on_list(k2, a2));
                assert(pre.member(k1, a1) != pre.member(k2, a2));
            }
        }
        assert forall|k2: int, j2: int| post.on_ring(k2, j2) implies #[trigger] post.links_ok(
            k2,
            j2,
        ) by {
            if k2 != k {
                assert(pre.on_ring(k2, j2));
                assert(pre.links_ok(k2, j2));
                assert(post.node(k2, j2) == pre.node(k2, j2));
                assert(post.node(k2, j2 + 1) == pre.node(k2, j2 + 1));
                Self::lemma_link_kept(pre, post, k, i, t, k2, j2);
            } else if j2 >= 2 {
                assert(pre.on_ring(k, j2 - 1));
                assert(pre.links_ok(k, j2 - 1));
                assert(post.node(k, j2) == pre.node(k, j2 - 1));
                assert(post.node(k, j2 + 1) == pre.node(k, j2));
                Self::lemma_link_kept(pre, post, k, i, t, k, j2 - 1);
            } else if j2 == 1 {
                assert(post.node(k, 1) == p);
                assert(post.node(k, 2) == first);
            } else {
                assert(post.node(k, 0) == s);
                assert(post.node(k, 1) == p);
            }
        }
        assert forall|a: int|
            post.base_addr <= a < post.end_addr && !post.at_head(k, a) && !pre.at_head(k, a)
            implies #[trigger] post.region.byte_at(a) == pre.region.byte_at(a) by {
            if t.contains(a) {
                if p <= a < p + 16 {
                    assert(post.on_list(k, 0));
                    assert(post.member(k, 0) <= a < post.member(k, 0) + 16);
                } else if first + 8 <= a < first + 16 {
                    assert(pre.on_list(k, 0));
                    assert(pre.member(k, 0) <= a < pre.member(k, 0) + 16);
                }
            } else {
                post.region.lemma_byte_same_except(&pre.region, t, a);
            }
        }
    }

    /// The links at ring position `j2` of order `k2`, other than those that
    /// a push onto the list of order `k` has written, are as they were.
    proof fn lemma_link_kept(
        pre: &BuddyAlloc,
        post: &BuddyAlloc,
        k: int,
        i: int,
        t: Set<int>,
        k2: int,
        j2: int,
    )
        requires
            pre.shape(),
            pre.can_join(k, i),
            post.same_frame(pre),
            t == span(pre.addr(k, i), 16).union(span(pre.node(k, 1) + 8, 8)).union(
                span(pre.sentinel(k), 8),
            ),
            post.region.same_except(&pre.region, t),
            pre.on_ring(k2, j2),
            k2 != k || j2 >= 1,
        ensures
            post.region.word_at(pre.node(k2, j2)) == pre.region.word_at(pre.node(k2, j2)),
            post.region.word_at(pre.node(k2, j2 + 1) + 8) == pre.region.word_at(
                pre.node(k2, j2 + 1) + 8,
            ),
    {
        let p = pre.addr(k, i);
        let n = pre.node(k2, j2);
        let m = pre.node(k2, j2 + 1);
        pre.lemma_head_aligned(k, i);
        pre.lemma_node_place(k, 0);
        pre.lemma_node_place(k, 1);
        pre.lemma_node_place(k2, j2);
        pre.lemma_node_place(k2, j2 + 1);
        pre.lemma_nodes_apart(k2, j2, k, 0);
        pre.lemma_nodes_apart(k2, j2, k, 1);
        pre.lemma_nodes_apart(k2, j2 + 1, k, 0);
        pre.lemma_nodes_apart(k2, j2 + 1, k, 1);
        pre.lemma_nodes_apart(k, 1, k2, j2 + 1);
        if 1 <= j2 <= pre.list_of(k2).len() {
            assert(pre.on_list(k2, j2 - 1));
            assert(pre.member(k2, j2 - 1) != p);
        }
        if 1 <= j2 + 1 <= pre.list_of(k2).len() {
            assert(pre.on_list(k2, j2));
            assert(pre.member(k2, j2) != p);
        }
        post.region.lemma_word_same_except(&pre.region, t, n);
        post.region.lemma_word_same_except(&pre.region, t, m + 8);
    }

    /// No block stands twice on a free list, and each has a bit in the
    /// bitmaps.
    pub(super) proof fn lemma_list(&self, k: int)
        requires
            self.shape(),
            0 <= k < self.entries_size,
        ensures
            self.list_of(k).no_duplicates(),
            forall|j: int|
                0 <= j < self.list_of(k).len() ==> 0 <= #[trigger] self.list_of(k)[j] < self.nbits(
                    k,
                ),
    {
        assert forall|a: int, b: int|
            0 <= a < self.list_of(k).len() && 0 <= b < self.list_of(k).len() && a != b
            implies self.list_of(k)[a] != self.list_of(k)[b] by {
            assert(self.on_list(k, a) && self.on_list(k, b));
            assert(self.member(k, a) != self.member(k, b));
        }
        assert forall|j: int| 0 <= j < self.list_of(k).len() implies 0 <= #[trigger] self.list_of(
            k,
        )[j] < self.nbits(k) by {
            assert(self.on_list(k, j));
            assert(self.member_ok(k, j));
        }
    }

    /// Takes block `i` off the free list of order `k`, wherever it stands.
    pub(super) fn list_remove(&mut self, k: usize, i: usize)
        requires
            old(self).shape(),
            k + 1 < old(self).entries_size,
            old(self).list_of(k as int).contains(i),
        ensures
            final(self).shape(),
            final(self).same_frame(old(self)),
            final(self).list_of(k as int) == old(self).list_of(k as int).remove(
                old(self).list_of(k as int).index_of(i),
            ),
            final(self).lists@ == old(self).lists@.update(
                k as int,
                old(self).list_of(k as int).remove(old(self).list_of(k as int).index_of(i)),
            ),
            final(self).same_lists(old(self), k as int),
            final(self).same_alloc(old(self), -1, 0),
            final(self).same_split(old(self), -1, 0),
            final(self).same_data_but_heads(old(self), k as int),
    {
        let ghost pre = *self;
        let ghost kk = k as int;
        let ghost j0 = self.list_of(kk).index_of(i);
        proof {
            assert(pre.on_list(kk, j0));
            assert(pre.member_ok(kk, j0));
            assert(pre.on_ring(kk, j0) && pre.on_ring(kk, j0 + 1));
            assert(pre.links_ok(kk, j0));
            assert(pre.links_ok(kk, j0 + 1));
            pre.lemma_node_place(kk, j0);
            pre.lemma_node_place(kk, j0 + 1);
            pre.lemma_node_place(kk, j0 + 2);
            pre.lemma_nodes_apart(kk, j0, kk, j0 + 2);
        }
        let q: usize = self.block_addr(k, i);
        let prev: usize = self.region.read_word(q + 8);
        let next: usize = self.region.read_word(q);
        let ghost r0 = self.region;
        self.region.write_word(prev, next);
        let ghost r1 = self.region;
        self.region.write_word(next + 8, prev);
        proof {
            self.lists@ = self.lists@.update(kk, self.lists@[kk].remove(j0));
            let t = span(prev as int, 8).union(span(next + 8, 8));
            lemma_unlinked(&r0, &r1, &self.region, prev as int, next as int);
            Self::lemma_nodes_written(&pre, self, t);
            Self::lemma_removed(&pre, self, kk, j0, t);
        }
    }

    /// The ring of order `k` after the node at place `j0` of its list has
    /// been taken out, and the other rings, which are as they were.
    proof fn lemma_removed(pre: &BuddyAlloc, post: &BuddyAlloc, k: int, j0: int, t: Set<int>)
        requires
            pre.shape(),
            pre.on_list(k, j0),
            post.same_frame(pre),
            post.lists@ == pre.lists@.update(k, pre.lists@[k].remove(j0)),
            post.region.wf(),
            t == span(pre.node(k, j0), 8).union(span(pre.node(k, j0 + 2) + 8, 8)),
            post.region.same_except(&pre.region, t),
            post.region.word_at(pre.node(k, j0)) == pre.node(k, j0 + 2),
            post.region.word_at(pre.node(k, j0 + 2) + 8) == pre.node(k, j0),
            forall|k2: int| 0 <= k2 < post.entries_size ==> #[trigger] post.record_ok(k2),
        ensures
            post.shape(),
            post.list_of(k) == pre.list_of(k).remove(j0),
            post.same_lists(pre, k),
            post.same_data_but_heads(pre, k),
    {
        let prev = pre.node(k, j0);
        let next = pre.node(k, j0 + 2);
        let len = pre.list_of(k).len();
        pre.lemma_node_place(k, j0);
        pre.lemma_node_place(k, j0 + 2);
        assert forall|j: int| 0 <= j < len - 1 implies #[trigger] post.list_of(k)[j] == (if j < j0 {
            pre.list_of(k)[j]
        } else {
            pre.list_of(k)[j + 1]
        }) by {}
        assert forall|k2: int, j2: int| post.on_list(k2, j2) implies #[trigger] post.member_ok(
            k2,
            j2,
        ) by {
            let a2 = if k2 == k && j2 >= j0 {
                j2 + 1
            } else {
                j2
            };
            assert(pre.on_list(k2, a2));
            assert(pre.member_ok(k2, a2));
            assert(post.member(k2, j2) == pre.member(k2, a2));
        }
        assert forall|k1: int, j1: int, k2: int, j2: int|
            post.on_list(k1, j1) && post.on_list(k2, j2) && !(k1 == k2 && j1 == j2)
            implies #[trigger] post.member(k1, j1) != #[trigger] post.member(k2, j2) by {
            let a1 = if k1 == k && j1 >= j0 {
                j1 + 1
            } else {
                j1
            };
            let a2 = if k2 == k && j2 >= j0 {
                j2 + 1
            } else {
                j2
            };
            assert(pre.on_list(k1, a1));
            assert(pre.on_list(k2, a2));
            assert(pre.member(k1, a1) != pre.member(k2, a2));
        }
        assert forall|k2: int, j2: int| post.on_ring(k2, j2) implies #[trigger] post.links_ok(
            k2,
            j2,
        ) by {
            if k2 != k {
                assert(pre.on_ring(k2, j2));
                assert(pre.links_ok(k2, j2));
                assert(post.node(k2, j2) == pre.node(k2, j2));
                assert(post.node(k2, j2 + 1) == pre.node(k2, j2 + 1));
                Self::lemma_unlink_kept(pre, post, k, j0, t, k2, j2);
            } else if j2 < j0 {
                assert(pre.on_ring(k, j2));
                assert(pre.links_ok(k, j2));
                assert(post.node(k, j2) == pre.node(k, j2));
                assert(post.node(k, j2 + 1) == pre.node(k, j2 + 1));
                Self::lemma_unlink_kept(pre, post, k, j0, t, k, j2);
            } else if j2 == j0 {
                assert(post.node(k, j0) == prev);
                assert(post.node(k, j0 + 1) == next);
            } else {
                assert(pre.on_ring(k, j2 + 1));
                assert(pre.links_ok(k, j2 + 1));
                assert(post.node(k, j2) == pre.node(k, j2 + 1));
                assert(post.node(k, j2 + 1) == pre.node(k, j2 + 2));
                Self::lemma_unlink_kept(pre, post, k, j0, t, k, j2 + 1);
            }
        }
        assert forall|a: int|
            post.base_addr <= a < post.end_addr && !post.at_head(k, a) && !pre.at_head(k, a)
            implies #[trigger] post.region.byte_at(a) == pre.region.byte_at(a) by {
            if t.contains(a) {
                if prev <= a < prev + 8 {
                    assert(pre.on_list(k, j0 - 1));
                    assert(pre.member(k, j0 - 1) <= a < pre.member(k, j0 - 1) + 16);
                } else {
                    assert(pre.on_list(k, j0 + 1));
                    assert(pre.member(k, j0 + 1) <= a < pre.member(k, j0 + 1) + 16);
                }
            } else {
                post.region.lemma_byte_same_except(&pre.region, t, a);
            }
        }
    }

    /// The links at ring position `j2` of order `k2`, other than those that
    /// taking a node off the list of order `k` has written, are as they
    /// were.
    proof fn lemma_unlink_kept(
        pre: &BuddyAlloc,
        post: &BuddyAlloc,
        k: int,
        j0: int,
        t: Set<int>,
        k2: int,
        j2: int,
    )
        requires
            pre.shape(),
            pre.on_list(k, j0),
            post.same_frame(pre),
            t == span(pre.node(k, j0), 8).union(span(pre.node(k, j0 + 2) + 8, 8)),
            post.region.same_except(&pre.region, t),
            pre.on_ring(k2, j2),
            k2 != k || j2 < j0 || j2 > j0 + 1,
        ensures
            post.region.word_at(pre.node(k2, j2)) == pre.region.word_at(pre.node(k2, j2)),
            post.region.word_at(pre.node(k2, j2 + 1) + 8) == pre.region.word_at(
                pre.node(k2, j2 + 1) + 8,
            ),
    {
        let n = pre.node(k2, j2);
        let m = pre.node(k2, j2 + 1);
        pre.lemma_node_place(k, j0);
        pre.lemma_node_place(k, j0 + 2);
        pre.lemma_node_place(k2, j2);
        pre.lemma_node_place(k2, j2 + 1);
        pre.lemma_nodes_apart(k2, j2, k, j0);
        pre.lemma_nodes_apart(k2, j2, k, j0 + 2);
        pre.lemma_nodes_apart(k2, j2 + 1, k, j0);
        pre.lemma_nodes_apart(k2, j2 + 1, k, j0 + 2);
        pre.lemma_nodes_apart(k, j0, k2, j2);
        pre.lemma_nodes_apart(k, j0 + 2, k2, j2 + 1);
        post.region.lemma_word_same_except(&pre.region, t, n);
        post.region.lemma_word_same_except(&pre.region, t, m + 8);
    }

    /// Takes the head off the free list of order `k`.
    pub(super) fn list_pop(&mut self, k: usize) -> (i: usize)
        requires
            old(self).shape(),
            k + 1 < old(self).entries_size,
            old(self).list_of(k as int).len() > 0,
        ensures
            final(self).shape(),
            final(self).same_frame(old(self)),
            i == old(self).list_of(k as int)[0],
            final(self).list_of(k as int) == old(self).list_of(k as int).drop_first(),
            final(self).lists@ == old(self).lists@.update(
                k as int,
                old(self).list_of(k as int).drop_first(),
            ),
            final(self).same_lists(old(self), k as int),
            final(self).same_alloc(old(self), -1, 0),
            final(self).same_split(old(self), -1, 0),
            final(self).same_data_but_heads(old(self), k as int),
    {
        let ghost kk = k as int;
        let list: usize = self.free_of(k);
        proof {
            assert(self.on_ring(kk, 0));
            assert(self.links_ok(kk, 0));
            assert(self.on_list(kk, 0));
            assert(self.member_ok(kk, 0));
            self.lemma_node_place(kk, 0);
            self.lemma_node_place(kk, 1);
            self.lemma_list(kk);
            let f = self.list_of(kk);
            let i0 = f[0];
            reveal(block_at);
            lemma_block_offsets(i0 as int, k as nat, self.leaf2base as nat);
            assert(k as nat + self.leaf2base as nat == (k + self.leaf2base) as nat);
            assert(f.contains(i0));
            assert(f.index_of(i0) == 0) by {
                let z = f.index_of(i0);
                if z != 0 {
                    assert(f[z] == f[0]);
                }
            }
            assert(f.remove(0) =~= f.drop_first());
        }
        let first: usize = self.region.read_word(list);
        let i: usize = self.block_index(k, first);
        self.list_remove(k, i);
        i
    }
}

} // verus!
