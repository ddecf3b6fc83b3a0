//! Laying the books of an engine into its region: the records with the
//! addresses of the sentinels and bitmaps, the sentinels linked to
//! themselves, and the bitmaps blank.
use crate::region::Region;
use super::layout::{bitmap_size, Layout};
use super::memory::lemma_bitmaps_prefix;
use super::{
    alloc_at, metadata_bytes, sentinel_at, split_at, BuddyAlloc, BuddyAllocParam, ENTRY_BYTES,
    NODE_BYTES,
};
use vstd::prelude::*;

verus! {

/// Whether `a` and `b`, two runs of `n` and `m` bytes, do not overlap.
pub(super) open spec fn apart(a: int, n: int, b: int, m: int) -> bool {
    a + n <= b || b + m <= a
}

/// The record of order `j` has the address of its sentinel, and the
/// sentinel is linked to itself.
pub(super) open spec fn sentinel_laid(region: &Region, e: int, orders: nat, j: int) -> bool {
    &&& region.word_at(e + 24 * j) == sentinel_at(e, orders, j)
    &&& region.word_at(sentinel_at(e, orders, j)) == sentinel_at(e, orders, j)
    &&& region.word_at(sentinel_at(e, orders, j) + 8) == sentinel_at(e, orders, j)
}

/// The record of order `j` has the address of its `alloc` bitmap.
pub(super) open spec fn alloc_laid(region: &Region, e: int, orders: nat, j: int) -> bool {
    region.word_at(e + 24 * j + 8) == alloc_at(e, orders, j)
}

/// The record of order `j` has the address of its `split` bitmap.
pub(super) open spec fn split_laid(region: &Region, e: int, orders: nat, j: int) -> bool {
    region.word_at(e + 24 * j + 16) == split_at(e, orders, j)
}

/// The sentinels of the orders below `n1` and the bitmap addresses of the
/// orders below `n2` and `n3` are laid.
pub(super) open spec fn laid(region: &Region, e: int, orders: nat, n1: int, n2: int, n3: int)
    -> bool {
    &&& forall|j: int| 0 <= j < n1 ==> #[trigger] sentinel_laid(region, e, orders, j)
    &&& forall|j: int| 0 <= j < n2 ==> #[trigger] alloc_laid(region, e, orders, j)
    &&& forall|j: int| 1 <= j < n3 ==> #[trigger] split_laid(region, e, orders, j)
}

/// The bytes from `lo` up to `hi` are zero.
pub(super) open spec fn zeroed(region: &Region, lo: int, hi: int) -> bool {
    forall|a: int| lo <= a < hi ==> #[trigger] region.byte_at(a) == 0u8
}

/// What is laid stays laid under a write elsewhere.
proof fn lemma_laid_kept(
    new: &Region,
    old: &Region,
    e: int,
    orders: nat,
    n1: int,
    n2: int,
    n3: int,
    w: int,
    n: int,
)
    requires
        laid(old, e, orders, n1, n2, n3),
        new.same_but(old, w, n),
        n1 <= orders,
        n2 <= orders,
        n3 <= orders,
        old.holds(e, 40 * (orders as int)),
        forall|j: int|
            0 <= j < n1 ==> apart(w, n, e + 24 * j, 8) && apart(
                w,
                n,
                #[trigger] sentinel_at(e, orders, j),
                16,
            ),
        forall|j: int| 0 <= j < n2 ==> #[trigger] apart(w, n, e + 24 * j + 8, 8),
        forall|j: int| 1 <= j < n3 ==> #[trigger] apart(w, n, e + 24 * j + 16, 8),
    ensures
        laid(new, e, orders, n1, n2, n3),
{
    assert forall|j: int| 0 <= j < n1 implies #[trigger] sentinel_laid(new, e, orders, j) by {
        assert(sentinel_laid(old, e, orders, j));
        let s = sentinel_at(e, orders, j);
        assert(apart(w, n, s, 16));
        new.lemma_word_kept(old, e + 24 * j, w, n);
        new.lemma_word_kept(old, s, w, n);
        new.lemma_word_kept(old, s + 8, w, n);
    }
    assert forall|j: int| 0 <= j < n2 implies #[trigger] alloc_laid(new, e, orders, j) by {
        assert(alloc_laid(old, e, orders, j));
        assert(apart(w, n, e + 24 * j + 8, 8));
        new.lemma_word_kept(old, e + 24 * j + 8, w, n);
    }
    assert forall|j: int| 1 <= j < n3 implies #[trigger] split_laid(new, e, orders, j) by {
        assert(split_laid(old, e, orders, j));
        assert(apart(w, n, e + 24 * j + 16, 8));
        new.lemma_word_kept(old, e + 24 * j + 16, w, n);
    }
}

/// Zero bytes stay zero under a write elsewhere, and a run of zero bytes
/// grows by the zero bytes after it.
proof fn lemma_zeroed_kept(new: &Region, old: &Region, lo: int, hi: int, w: int, n: int)
    requires
        zeroed(old, lo, hi),
        new.same_but(old, w, n),
        old.holds(lo, hi - lo) || hi <= lo,
        apart(w, n, lo, hi - lo),
    ensures
        zeroed(new, lo, hi),
{
    assert forall|a: int| lo <= a < hi implies #[trigger] new.byte_at(a) == 0u8 by {
        assert(old.byte_at(a) == 0u8);
        assert(new@[a - new.origin()] == old@[a - old.origin()]);
    }
}

/// Lays the books of the engine that `l` lays out into the region. The
/// bitmaps are zeroed, unless they are known to be zero.
pub(super) fn lay_books(region: &mut Region, l: &Layout, zero_filled: bool)
    requires
        old(region).wf(),
        2 <= l.entries_size,
        l.entries_size + 3 <= usize::BITS,
        0 < old(region).origin() <= l.entries,
        l.entries + metadata_bytes(l.entries_size as nat) <= l.base_addr <= old(region).end(),
        zero_filled ==> zeroed(old(region), old(region).origin(), old(region).end()),
    ensures
        final(region).wf(),
        final(region).origin() == old(region).origin(),
        final(region)@.len() == old(region)@.len(),
        laid(
            final(region),
            l.entries as int,
            l.entries_size as nat,
            l.entries_size as int,
            l.entries_size as int,
            l.entries_size as int,
        ),
        zeroed(
            final(region),
            l.entries + 40 * l.entries_size,
            l.entries + metadata_bytes(l.entries_size as nat),
        ),
{
    let entries: usize = l.entries;
    let entries_size: usize = l.entries_size;
    let ghost e = entries as int;
    let ghost orders = entries_size as nat;
    let ghost end = region.end();
    let ghost origin = region.origin();
    proof {
        lemma_bitmaps_prefix(0, orders, orders);
    }
    let mut at: usize = entries + ENTRY_BYTES * entries_size;
    let mut k: usize = 0;
    while k < entries_size
        invariant
            k <= entries_size,
            e == entries,
            orders == entries_size,
            region.wf(),
            region.origin() == origin,
            region.end() == end,
            0 < origin <= e,
            e + metadata_bytes(orders) <= end,
            40 * orders <= metadata_bytes(orders),
            at == sentinel_at(e, orders, k as int),
            laid(region, e, orders, k as int, 0, 0),
            zero_filled ==> zeroed(region, e + 40 * orders, end),
        decreases entries_size - k,
    {
        let ghost r0 = *region;
        region.write_word(entries + ENTRY_BYTES * k, at);
        let ghost r1 = *region;
        region.write_word(at, at);
        let ghost r2 = *region;
        region.write_word(at + 8, at);
        proof {
            lemma_laid_kept(&r1, &r0, e, orders, k as int, 0, 0, e + 24 * k, 8);
            lemma_laid_kept(&r2, &r1, e, orders, k as int, 0, 0, at as int, 8);
            lemma_laid_kept(region, &r2, e, orders, k as int, 0, 0, at + 8, 8);
            r2.lemma_word_kept(&r1, e + 24 * k, at as int, 8);
            region.lemma_word_kept(&r2, e + 24 * k, at + 8, 8);
            region.lemma_word_kept(&r2, at as int, at + 8, 8);
            assert(sentinel_laid(region, e, orders, k as int));
            if zero_filled {
                lemma_zeroed_kept(&r1, &r0, e + 40 * orders, end, e + 24 * k, 8);
                lemma_zeroed_kept(&r2, &r1, e + 40 * orders, end, at as int, 8);
                lemma_zeroed_kept(region, &r2, e + 40 * orders, end, at + 8, 8);
            }
        }
        at += NODE_BYTES;
        k += 1;
    }
    k = 0;
    while k < entries_size
        invariant
            k <= entries_size,
            e == entries,
            orders == entries_size,
            orders + 3 <= usize::BITS,
            region.wf(),
            region.origin() == origin,
            region.end() == end,
            0 < origin <= e,
            e + metadata_bytes(orders) <= end,
            40 * orders <= metadata_bytes(orders),
            at == alloc_at(e, orders, k as int),
            laid(region, e, orders, orders as int, k as int, 0),
            zeroed(region, e + 40 * orders, at as int),
            zero_filled ==> zeroed(region, e + 40 * orders, end),
        decreases entries_size - k,
    {
        let used_bytes: usize = bitmap_size(k, entries_size);
        proof {
            lemma_bitmaps_prefix(k as nat, orders, orders);
            lemma_bitmaps_prefix(0, orders, orders);
        }
        let ghost r0 = *region;
        region.write_word(entries + ENTRY_BYTES * k + 8, at);
        let ghost r1 = *region;
        if !zero_filled {
            region.zero(at, used_bytes);
        }
        proof {
            lemma_laid_kept(&r1, &r0, e, orders, orders as int, k as int, 0, e + 24 * k + 8, 8);
            lemma_zeroed_kept(&r1, &r0, e + 40 * orders, at as int, e + 24 * k + 8, 8);
            if zero_filled {
                lemma_zeroed_kept(&r1, &r0, e + 40 * orders, end, e + 24 * k + 8, 8);
            } else {
                lemma_laid_kept(
                    region,
                    &r1,
                    e,
                    orders,
                    orders as int,
                    k as int,
                    0,
                    at as int,
                    used_bytes as int,
                );
                region.lemma_word_kept(&r1, e + 24 * k + 8, at as int, used_bytes as int);
                lemma_zeroed_kept(
                    region,
                    &r1,
                    e + 40 * orders,
                    at as int,
                    at as int,
                    used_bytes as int,
                );
            }
            assert(alloc_laid(region, e, orders, k as int));
            assert(zeroed(region, e + 40 * orders, at + used_bytes));
        }
        at += used_bytes;
        k += 1;
    }
    k = 1;
    proof {
        lemma_bitmaps_prefix(0, 1, orders);
    }
    while k < entries_size
        invariant
            1 <= k <= entries_size,
            e == entries,
            orders == entries_size,
            orders + 3 <= usize::BITS,
            region.wf(),
            region.origin() == origin,
            region.end() == end,
            0 < origin <= e,
            e + metadata_bytes(orders) <= end,
            40 * orders <= metadata_bytes(orders),
            at == split_at(e, orders, k as int),
            laid(region, e, orders, orders as int, orders as int, k as int),
            zeroed(region, e + 40 * orders, at as int),
            zero_filled ==> zeroed(region, e + 40 * orders, end),
        decreases entries_size - k,
    {
        let used_bytes: usize = bitmap_size(k, entries_size);
        proof {
            lemma_bitmaps_prefix(k as nat, orders, orders);
            lemma_bitmaps_prefix(0, orders, orders);
            lemma_bitmaps_prefix(0, k as nat, orders);
        }
        let ghost r0 = *region;
        region.write_word(entries + ENTRY_BYTES * k + 16, at);
        let ghost r1 = *region;
        if !zero_filled {
            region.zero(at, used_bytes);
        }
        proof {
            lemma_laid_kept(
                &r1,
                &r0,
                e,
                orders,
                orders as int,
                orders as int,
                k as int,
                e + 24 * k + 16,
                8,
            );
            lemma_zeroed_kept(&r1, &r0, e + 40 * orders, at as int, e + 24 * k + 16, 8);
            if zero_filled {
                lemma_zeroed_kept(&r1, &r0, e + 40 * orders, end, e + 24 * k + 16, 8);
            } else {
                lemma_laid_kept(
                    region,
                    &r1,
                    e,
                    orders,
                    orders as int,
                    orders as int,
                    k as int,
                    at as int,
                    used_bytes as int,
                );
                region.lemma_word_kept(&r1, e + 24 * k + 16, at as int, used_bytes as int);
                lemma_zeroed_kept(
                    region,
                    &r1,
                    e + 40 * orders,
                    at as int,
                    at as int,
                    used_bytes as int,
                );
            }
            assert(split_laid(region, e, orders, k as int));
            assert(zeroed(region, e + 40 * orders, at + used_bytes));
        }
        at += used_bytes;
        k += 1;
    }
}

impl BuddyAlloc {
    /// An engine whose books have just been laid, with empty lists, has its
    /// sizes, records and rings in order, and blank bitmaps.
    pub(super) proof fn lemma_laid_shape(&self)
        requires
            self.sized(),
            laid(
                &self.region,
                self.entries as int,
                self.entries_size as nat,
                self.entries_size as int,
                self.entries_size as int,
                self.entries_size as int,
            ),
            forall|k: int| 0 <= k < self.entries_size ==> self.lists@[k] == Seq::<usize>::empty(),
        ensures
            self.shape(),
            forall|k: int| 0 <= k < self.entries_size ==> (#[trigger] self.list_of(k)).len() == 0,
    {
        let e = self.entries as int;
        let orders = self.entries_size as nat;
        assert forall|k: int| 0 <= k < self.entries_size implies #[trigger] self.record_ok(k) by {
            assert(sentinel_laid(&self.region, e, orders, k));
            assert(alloc_laid(&self.region, e, orders, k));
            if k >= 1 {
                assert(split_laid(&self.region, e, orders, k));
            }
        }
        assert forall|k: int, j: int| self.on_ring(k, j) implies #[trigger] self.links_ok(k, j) by {
            assert(sentinel_laid(&self.region, e, orders, k));
        }
    }

    /// The bitmaps of an engine whose books have just been laid are blank.
    pub(super) proof fn lemma_laid_blank(&self)
        requires
            self.sized(),
            zeroed(
                &self.region,
                self.entries + 40 * self.entries_size,
                self.entries + metadata_bytes(self.entries_size as nat),
            ),
        ensures
            forall|a: int|
                self.entries + 40 * self.entries_size <= a < self.entries + metadata_bytes(
                    self.entries_size as nat,
                ) ==> #[trigger] self.region.byte_at(a) == 0u8,
    {
    }

    /// Builds the engine that `l` lays out over the bytes `bytes`.
    pub(super) fn build(param: &BuddyAllocParam, l: Layout, bytes: Vec<u8>) -> (alloc: BuddyAlloc)
        requires
            param.valid(),
            l.lays_out(param),
            param.fits(bytes@),
        ensures
            alloc.wf(),
            alloc@ == param.initial_view(),
    {
        let (base, _) = param.region();
        let mut region = Region::new(base, bytes);
        proof {
            crate::arith::lemma_round_up(param.base_addr() as int, param.leaf2base());
        }
        lay_books(&mut region, &l, param.is_zero_filled());
        let ghost orders = l.entries_size as int;
        let mut alloc = BuddyAlloc {
            region,
            base_addr: l.base_addr,
            end_addr: l.end_addr,
            unavailable: 0,
            entries: l.entries,
            entries_size: l.entries_size,
            leaf2base: l.leaf2base,
            lists: Ghost(Seq::new(orders as nat, |k: int| Seq::<usize>::empty())),
            live: Ghost(Map::empty()),
        };
        proof {
            alloc.lemma_laid_shape();
            alloc.lemma_laid_blank();
            alloc.lemma_blank_tiled();
        }
        alloc.init_free_list();
        proof {
            alloc.lemma_tiled_view(param);
        }
        alloc
    }
}

} // verus!
