//! Buddy engine.
//!
//! The region is tiled by blocks of `leaf_size * 2^k` bytes. Each order `k`
//! keeps a free list and two bitmaps, one bit per block: `alloc` (the block
//! is handed out or has been split) and `split` (the block has been divided
//! into its two halves). Allocation splits a larger free block down to the
//! requested order; freeing finds the order of a block from the `split`
//! bitmaps and merges the block with its buddy while the buddy is free.
//!
//! The engine keeps its books in the region that it manages. At the head of
//! the region lie, one after another, a record for each order with the
//! addresses of its list sentinel and of its bitmaps, the sentinels, the
//! `alloc` bitmaps and the `split` bitmaps. The node of a free block lies in
//! the block itself. What is handed out belongs to the caller, who reads
//! and writes it through the engine.
//!
//! What an engine stands for is its `BuddyView`: the span, the free lists by
//! address and the blocks that are handed out. `BuddyAlloc::wf` ties the
//! bytes of the region to it, and every operation states the view it leaves
//! behind and which bytes it leaves alone.
use crate::arith::{
    count_at, lemma_count_below, lemma_div_pow2_twice, lemma_levels, lemma_log2_floor_bounds,
    lemma_pow2_double, lemma_pow2_monotonic, lemma_round_up, lemma_scaled_div, lemma_tile_step,
    log2_floor, nblocks, round_up,
};
use crate::bits::bit_at;
use crate::region::Region;
use self::layout::layout;
use vstd::arithmetic::power2::{lemma2_to64, lemma_pow2_adds, lemma_pow2_pos, pow2};
use vstd::bits::{lemma_usize_pow2_no_overflow, lemma_usize_shl_is_mul, lemma_usize_shr_is_div};
use vstd::prelude::*;

mod access;
mod blocks;
mod contents;
mod laws;
mod layout;
mod memory;
mod rings;
mod setup;
mod steps;
mod tiling;

verus! {

/// Leaf sizes are multiples of this many bytes: a free block must have room
/// for the two links of a list node.
pub const MIN_LEAF_SIZE_ALIGN: usize = 16;

/// `2^k * leaf_size`: the bytes of a block of order `k`.
pub open spec fn block_bytes(k: nat, leaf_size: nat) -> nat {
    pow2(k) * leaf_size
}

/// The least order whose block, with leaves of `leaf_size` bytes, holds `n`
/// bytes.
pub open spec fn is_first_up_k(k: nat, n: nat, leaf_size: nat) -> bool {
    &&& n <= block_bytes(k, leaf_size)
    &&& k > 0 ==> block_bytes((k - 1) as nat, leaf_size) < n
}

/// Block sizes grow with the order.
pub proof fn lemma_block_bytes_monotonic(a: nat, b: nat, leaf_size: nat)
    requires
        a <= b,
    ensures
        block_bytes(a, leaf_size) <= block_bytes(b, leaf_size),
{
    lemma_pow2_monotonic(a, b);
    assert(pow2(a) * leaf_size <= pow2(b) * leaf_size) by (nonlinear_arith)
        requires
            pow2(a) <= pow2(b),
    ;
}

/// At most one order is the least that holds `n` bytes.
pub proof fn lemma_first_up_k_unique(k1: nat, k2: nat, n: nat, leaf_size: nat)
    requires
        is_first_up_k(k1, n, leaf_size),
        is_first_up_k(k2, n, leaf_size),
    ensures
        k1 == k2,
{
    if k1 < k2 {
        lemma_block_bytes_monotonic(k1, (k2 - 1) as nat, leaf_size);
    } else if k2 < k1 {
        lemma_block_bytes_monotonic(k2, (k1 - 1) as nat, leaf_size);
    }
}

/// The bytes of a block of order `k` over leaves of `leaf_size` bytes.
pub fn block_size(k: usize, leaf_size: usize) -> (r: usize)
    requires
        k < usize::BITS,
        block_bytes(k as nat, leaf_size as nat) <= usize::MAX,
    ensures
        r == block_bytes(k as nat, leaf_size as nat),
{
    proof {
        lemma_usize_pow2_no_overflow(k as nat);
        lemma_usize_shl_is_mul(1usize, k);
    }
    (1usize << k) * leaf_size
}

/// The bytes of a block of order `k` over leaves of `2^leaf2base` bytes.
pub fn block_size_2base(k: usize, leaf2base: usize) -> (r: usize)
    requires
        k + leaf2base < usize::BITS,
    ensures
        r == pow2((k + leaf2base) as nat),
        r == block_bytes(k as nat, pow2(leaf2base as nat)),
{
    proof {
        lemma_usize_pow2_no_overflow(k as nat);
        lemma_usize_pow2_no_overflow((k + leaf2base) as nat);
        lemma_pow2_adds(k as nat, leaf2base as nat);
        lemma_usize_shl_is_mul(1usize, k);
        lemma_usize_shl_is_mul((1usize << k), leaf2base);
    }
    (1usize << k) << leaf2base
}

/// The number of blocks of order `k` that the bitmaps of an engine with
/// `entries_size` orders keep a bit for.
pub fn nblock(k: usize, entries_size: usize) -> (r: usize)
    requires
        k < entries_size,
        entries_size - k - 1 < usize::BITS,
    ensures
        r == pow2((entries_size - k - 1) as nat),
{
    proof {
        lemma_usize_pow2_no_overflow((entries_size - k - 1) as nat);
        lemma_usize_shl_is_mul(1usize, (entries_size - k - 1) as usize);
    }
    1usize << (entries_size - k - 1)
}

/// Rounds `n` up to a multiple of `2^sz2base`.
pub fn roundup(n: usize, sz2base: usize) -> (r: usize)
    requires
        n >= 1,
        sz2base < usize::BITS,
        round_up(n as int, sz2base as nat) <= usize::MAX,
    ensures
        r == round_up(n as int, sz2base as nat),
{
    proof {
        lemma_usize_shr_is_div((n - 1) as usize, sz2base);
        lemma_pow2_pos(sz2base as nat);
    }
    let q: usize = (n - 1) >> sz2base;
    proof {
        lemma_usize_pow2_no_overflow(sz2base as nat);
        assert(q + 1 <= (q + 1) * pow2(sz2base as nat)) by (nonlinear_arith)
            requires
                pow2(sz2base as nat) >= 1,
                q >= 0,
        ;
        lemma_usize_shl_is_mul((q + 1) as usize, sz2base);
    }
    (q + 1) << sz2base
}

/// The floor of the binary logarithm of `n`, and 0 for `n == 0`.
pub fn log2(n: usize) -> (k: usize)
    ensures
        k == log2_floor(n as nat),
        k < usize::BITS,
        n >= 1 ==> pow2(k as nat) <= n < pow2((k + 1) as nat),
{
    let mut k: usize = 0;
    let mut m: usize = n;
    proof {
        lemma_usize_pow2_no_overflow(0);
        lemma2_to64();
        if n >= 1 {
            lemma_log2_floor_bounds(n as nat);
            if log2_floor(n as nat) >= usize::BITS {
                lemma_pow2_monotonic(usize::BITS as nat, log2_floor(n as nat));
                vstd::arithmetic::power2::lemma2_to64_rest();
            }
        }
    }
    while m > 1
        invariant
            log2_floor(n as nat) == k + log2_floor(m as nat),
            log2_floor(n as nat) < usize::BITS,
        decreases m,
    {
        assert(m >> 1 == m / 2) by (bit_vector);
        k += 1;
        m >>= 1;
    }
    proof {
        if n >= 1 {
            lemma_log2_floor_bounds(n as nat);
        }
    }
    k
}

/// The least order `k` such that `leaf_size * 2^k >= n`.
pub fn first_up_k(n: usize, leaf_size: usize) -> (k: usize)
    requires
        leaf_size > 0,
    ensures
        is_first_up_k(k as nat, n as nat, leaf_size as nat),
        k <= usize::BITS,
{
    let mut k: usize = 0;
    let mut size: usize = leaf_size;
    proof {
        lemma2_to64();
    }
    while size < n
        invariant
            size == block_bytes(k as nat, leaf_size as nat),
            size > 0,
            leaf_size > 0,
            k < usize::BITS,
            k > 0 ==> block_bytes((k - 1) as nat, leaf_size as nat) < n,
        decreases usize::MAX - size,
    {
        proof {
            lemma_pow2_double(k as nat);
            assert(block_bytes((k + 1) as nat, leaf_size as nat) == 2 * size) by (nonlinear_arith)
                requires
                    size == pow2(k as nat) * leaf_size,
                    pow2((k + 1) as nat) == 2 * pow2(k as nat),
                    block_bytes((k + 1) as nat, leaf_size as nat) == pow2((k + 1) as nat)
                        * leaf_size,
            ;
        }
        if size > usize::MAX / 2 {
            return k + 1;
        }
        proof {
            if k + 1 >= usize::BITS {
                lemma_pow2_monotonic(usize::BITS as nat, (k + 1) as nat);
                lemma2_to64();
                assert(pow2((k + 1) as nat) * leaf_size >= pow2((k + 1) as nat))
                    by (nonlinear_arith)
                    requires
                        leaf_size >= 1,
                ;
            }
        }
        k += 1;
        size = size * 2;
    }
    k
}

/// The bytes of the record of an order: the addresses of its list sentinel
/// and of its two bitmaps.
pub const ENTRY_BYTES: usize = 24;

/// The bytes of a list node: the address of the next node and that of the
/// one before.
pub const NODE_BYTES: usize = 16;

/// The bytes of the bitmap of order `k` in an engine with `orders` orders:
/// one bit for each of its `2^(orders - k - 1)` blocks.
pub open spec fn bitmap_bytes(k: nat, orders: nat) -> nat {
    ((pow2((orders - k - 1) as nat) - 1) / 8 + 1) as nat
}

/// The bytes of the bitmaps of the orders below `n`.
pub open spec fn bitmaps_bytes(n: nat, orders: nat) -> nat
    decreases n,
{
    if n == 0 {
        0
    } else {
        bitmaps_bytes((n - 1) as nat, orders) + bitmap_bytes((n - 1) as nat, orders)
    }
}

/// The bytes at the head of the region that the engine keeps its books in:
/// per order a record and a list sentinel, an `alloc` bitmap for every
/// order and a `split` bitmap for every order but the lowest.
pub open spec fn metadata_bytes(orders: nat) -> nat {
    (40 * orders + 2 * bitmaps_bytes(orders, orders) - bitmap_bytes(0, orders)) as nat
}

/// The address of the list sentinel of order `k`, in an engine whose records
/// start at `entries`: the sentinels follow the records.
pub open spec fn sentinel_at(entries: int, orders: nat, k: int) -> int {
    entries + 24 * orders + 16 * k
}

/// The address of the `alloc` bitmap of order `k`: these bitmaps follow the
/// sentinels.
pub open spec fn alloc_at(entries: int, orders: nat, k: int) -> int {
    entries + 40 * orders + bitmaps_bytes(k as nat, orders)
}

/// The address of the `split` bitmap of order `k`, for `k >= 1`: these
/// bitmaps follow the `alloc` bitmaps.
pub open spec fn split_at(entries: int, orders: nat, k: int) -> int {
    entries + 40 * orders + bitmaps_bytes(orders, orders) + bitmaps_bytes(k as nat, orders)
        - bitmap_bytes(0, orders)
}

/// What a buddy engine is built from.
#[derive(Clone, Copy)]
pub struct BuddyAllocParam {
    base_addr: usize,
    len: usize,
    leaf_size: usize,
    zero_filled: bool,
}

impl BuddyAllocParam {
    /// The address at which the region starts.
    pub closed spec fn base_addr(self) -> usize {
        self.base_addr
    }

    /// The bytes of the region.
    pub closed spec fn len(self) -> usize {
        self.len
    }

    /// The requested size of the smallest block.
    pub closed spec fn leaf_size(self) -> usize {
        self.leaf_size
    }

    /// Whether the caller vouches that the region holds only zero bytes:
    /// the engine then leaves its bitmaps as it finds them.
    pub closed spec fn zero_filled(self) -> bool {
        self.zero_filled
    }

    /// The binary logarithm of the leaf size in use: the requested size
    /// rounded down to a power of two.
    pub open spec fn leaf2base(self) -> nat {
        log2_floor(self.leaf_size() as nat)
    }

    /// The address just past the region.
    pub open spec fn end(self) -> int {
        self.base_addr() + self.len()
    }

    /// The first leaf-aligned address of the region.
    pub open spec fn first_aligned(self) -> int {
        round_up(self.base_addr() as int, self.leaf2base())
    }

    /// The number of orders: one for each block size that fits between the
    /// first aligned address and the end, and a top order that holds no
    /// block.
    pub open spec fn orders(self) -> nat {
        log2_floor(((self.end() - self.first_aligned()) / (pow2(self.leaf2base()) as int)) as nat)
            + 2
    }

    /// The first address that is handed out: the first leaf-aligned address
    /// after the bookkeeping bytes.
    pub open spec fn data_base(self) -> int {
        round_up(self.first_aligned() + metadata_bytes(self.orders()), self.leaf2base())
    }

    /// The leaf size is a positive multiple of 16.
    pub open spec fn leaf_ok(self) -> bool {
        self.leaf_size() % 16 == 0 && self.leaf_size() != 0
    }

    /// The parameters that an engine can be built from: a leaf size that is
    /// a positive multiple of 16 and a region, starting above address 0 and
    /// ending within the address space, that has room for the bookkeeping
    /// bytes.
    pub open spec fn valid(self) -> bool {
        &&& self.leaf_ok()
        &&& self.base_addr() > 0
        &&& self.end() <= usize::MAX
        &&& self.first_aligned() <= self.end()
        &&& self.data_base() <= self.end()
    }

    /// The leaves between the first address handed out and the end.
    pub open spec fn data_leaves(self) -> int {
        (self.end() - self.data_base()) / (pow2(self.leaf2base()) as int)
    }

    /// The free list of order `k` in a fresh engine: the span is tiled from
    /// its start by one block for each binary digit of its count of leaves,
    /// the largest block first.
    pub open spec fn initial_free(self, k: int) -> Seq<int> {
        let c = count_at(self.data_leaves(), k);
        if c % 2 == 1 {
            seq![self.data_base() + (c - 1) * pow2(k as nat + self.leaf2base())]
        } else {
            Seq::empty()
        }
    }

    /// What a fresh engine over these parameters stands for.
    pub open spec fn initial_view(self) -> BuddyView {
        BuddyView {
            base: self.data_base(),
            end: self.end(),
            unavailable: (self.end() - self.data_base()) % (pow2(self.leaf2base()) as int),
            leaf2base: self.leaf2base(),
            orders: self.orders(),
            free: Seq::new(self.orders(), |k: int| self.initial_free(k)),
            live: Map::empty(),
        }
    }

    /// The span that an engine hands out lies within the region.
    pub proof fn lemma_data_base(self)
        requires
            self.valid(),
        ensures
            0 < self.base_addr() <= self.data_base() <= self.end(),
    {
        lemma_round_up(self.base_addr() as int, self.leaf2base());
        lemma_round_up(self.first_aligned() + metadata_bytes(self.orders()), self.leaf2base());
    }

    /// Whether `bytes` can be the region of these parameters: as many bytes
    /// as the parameters say, and all of them zero if the parameters say so.
    pub open spec fn fits(self, bytes: Seq<u8>) -> bool {
        &&& bytes.len() == self.len()
        &&& self.zero_filled() ==> forall|i: int| 0 <= i < bytes.len() ==> bytes[i] == 0u8
    }

    /// Whether the caller vouches that the region holds only zero bytes.
    pub fn is_zero_filled(&self) -> (z: bool)
        ensures
            z == self.zero_filled(),
    {
        self.zero_filled
    }

    /// The start and the bytes of the region.
    pub fn region(&self) -> (r: (usize, usize))
        ensures
            r.0 == self.base_addr(),
            r.1 == self.len(),
    {
        (self.base_addr, self.len)
    }

    /// Parameters for a region of `len` bytes at `base_addr` with blocks of
    /// at least `leaf_size` bytes.
    pub fn new(base_addr: usize, len: usize, leaf_size: usize) -> (param: Self)
        ensures
            param.base_addr() == base_addr,
            param.len() == len,
            param.leaf_size() == leaf_size,
            !param.zero_filled(),
    {
        BuddyAllocParam { base_addr, len, leaf_size, zero_filled: false }
    }

    /// As `new`, for a region that the caller has already filled with zero
    /// bytes.
    pub fn new_with_zero_filled(base_addr: usize, len: usize, leaf_size: usize) -> (param: Self)
        ensures
            param.base_addr() == base_addr,
            param.len() == len,
            param.leaf_size() == leaf_size,
            param.zero_filled(),
    {
        BuddyAllocParam { base_addr, len, leaf_size, zero_filled: true }
    }
}

/// The address of block `i` of order `k` in a span that starts at `base`,
/// with leaves of `2^leaf2base` bytes.
#[verifier::opaque]
pub open spec fn block_at(base: int, leaf2base: nat, k: int, i: int) -> int {
    base + i * pow2((k + leaf2base) as nat)
}

/// A buddy engine over a region of memory.
pub struct BuddyAlloc {
    region: Region,
    base_addr: usize,
    end_addr: usize,
    unavailable: usize,
    entries: usize,
    entries_size: usize,
    leaf2base: usize,
    lists: Ghost<Seq<Seq<usize>>>,
    live: Ghost<Map<int, nat>>,
}

/// What an engine stands for: the span that it hands out, its free lists
/// and the blocks that are handed out.
pub struct BuddyView {
    /// The first address that can be handed out.
    pub base: int,
    /// The address just past the region.
    pub end: int,
    /// The bytes before `end` that no block covers.
    pub unavailable: int,
    /// The binary logarithm of the leaf size.
    pub leaf2base: nat,
    /// The number of orders, the top one included, which holds no block.
    pub orders: nat,
    /// For each order the addresses of its free blocks, in list order.
    pub free: Seq<Seq<int>>,
    /// The order of each block that is handed out, by its address.
    pub live: Map<int, nat>,
}

impl BuddyView {
    /// The bytes of a leaf.
    pub open spec fn leaf(self) -> nat {
        pow2(self.leaf2base)
    }

    /// The bytes of a block of order `k`.
    pub open spec fn block(self, k: nat) -> int {
        pow2(k + self.leaf2base) as int
    }

    /// The bytes that blocks cover.
    pub open spec fn available(self) -> int {
        self.end - self.unavailable - self.base
    }

    /// The least order from `k` up, below the top order, that has a free
    /// block.
    pub open spec fn first_free(self, k: nat) -> Option<nat>
        decreases self.orders - k,
    {
        if k + 1 >= self.orders {
            None
        } else if self.free[k as int].len() > 0 {
            Some(k)
        } else {
            self.first_free(k + 1)
        }
    }

    /// The order of the block that a request for `n` bytes is served with.
    pub open spec fn order_for(self, n: nat) -> nat {
        first_up_order(n, self.leaf())
    }

    /// The address that a request for `n` bytes is answered with: the head
    /// of the first non-empty free list from the order of the request up, or
    /// 0 if there is none.
    pub open spec fn malloc_ptr(self, n: nat) -> int {
        match self.first_free(self.order_for(n)) {
            Some(k) => self.free[k as int][0],
            None => 0,
        }
    }

    /// The free lists after the block at `p`, the head of the list of order
    /// `k`, has been split down to order `k0`: the upper half of each split
    /// joins the list of its order.
    pub open spec fn split_free(self, k0: nat, k: nat, p: int) -> Seq<Seq<int>> {
        Seq::new(
            self.orders,
            |j: int|
                if j == k {
                    self.free[j].drop_first()
                } else if k0 <= j < k {
                    seq![p + self.block(j as nat)] + self.free[j]
                } else {
                    self.free[j]
                },
        )
    }

    /// The engine after a request for `n` bytes.
    pub open spec fn malloc(self, n: nat) -> BuddyView {
        match self.first_free(self.order_for(n)) {
            Some(k) => {
                let p = self.free[k as int][0];
                BuddyView {
                    free: self.split_free(self.order_for(n), k, p),
                    live: self.live.insert(p, self.order_for(n)),
                    ..self
                }
            },
            None => self,
        }
    }

    /// The address of the buddy of the block of order `k` at `p`.
    pub open spec fn buddy_of(self, k: nat, p: int) -> int {
        if ((p - self.base) / self.block(k)) % 2 == 0 {
            p + self.block(k)
        } else {
            p - self.block(k)
        }
    }

    /// The engine after the block of order `k` at `p`, which is on no list,
    /// has been merged with its buddy as long as the buddy is free, and the
    /// result put at the head of the list of its order.
    pub open spec fn coalesce(self, k: nat, p: int) -> BuddyView
        decreases self.orders - k,
    {
        let q = self.buddy_of(k, p);
        if k + 1 < self.orders && self.free[k as int].contains(q) {
            let rest = self.free[k as int].remove(self.free[k as int].index_of(q));
            BuddyView { free: self.free.update(k as int, rest), ..self }.coalesce(
                k + 1,
                if p < q {
                    p
                } else {
                    q
                },
            )
        } else {
            BuddyView { free: self.free.update(k as int, seq![p] + self.free[k as int]), ..self }
        }
    }

    /// The engine after the block at `p` has been given back.
    pub open spec fn free(self, p: int) -> BuddyView {
        BuddyView { live: self.live.remove(p), ..self }.coalesce(self.live[p], p)
    }

    /// The leaves that blocks cover.
    pub open spec fn leaves(self) -> int {
        self.available() / (self.leaf() as int)
    }

    /// The free lists of an engine of which nothing is handed out: the span
    /// is tiled from its start by one block for each binary digit of its
    /// count of leaves, the largest block first.
    pub open spec fn tiling(self) -> Seq<Seq<int>> {
        Seq::new(
            self.orders,
            |k: int|
                if count_at(self.leaves(), k) % 2 == 1 {
                    seq![self.base + (count_at(self.leaves(), k) - 1) * self.block(k as nat)]
                } else {
                    Seq::empty()
                },
        )
    }

    /// The order of the largest block that fits in the span.
    pub open spec fn top_order(self) -> nat {
        log2_floor(self.leaves() as nat)
    }

    /// Whether the block of order `k` at `p` is free or handed out.
    pub open spec fn holds(self, k: nat, p: int) -> bool {
        &&& k < self.orders
        &&& self.free[k as int].contains(p) || (self.live.contains_key(p) && self.live[p] == k)
    }

    /// The two engines cover the same span with the same orders.
    pub open spec fn same_span(self, other: BuddyView) -> bool {
        &&& self.base == other.base
        &&& self.end == other.end
        &&& self.unavailable == other.unavailable
        &&& self.leaf2base == other.leaf2base
        &&& self.orders == other.orders
    }

    /// The block at `p`, handed out, lies within the span that blocks
    /// cover, on a leaf boundary.
    pub open spec fn live_in_span(self, p: int) -> bool {
        &&& self.base <= p
        &&& p + self.block(self.live[p]) <= self.end - self.unavailable
        &&& (p - self.base) % (self.leaf() as int) == 0
    }
}

/// The least order whose block, with leaves of `leaf_size` bytes, holds `n`
/// bytes.
pub open spec fn first_up_order(n: nat, leaf_size: nat) -> nat {
    choose|k: nat| is_first_up_k(k, n, leaf_size)
}

impl BuddyAlloc {
    /// The leaves that blocks cover.
    spec fn leaves(&self) -> int {
        (self.end_addr - self.unavailable - self.base_addr) / (pow2(self.leaf2base as nat) as int)
    }

    /// The number of blocks of order `k` that the bitmaps keep a bit for.
    spec fn nbits(&self, k: int) -> int {
        nblocks(self.entries_size as nat, k)
    }

    /// The number of blocks of order `k` that lie wholly within the span: the
    /// blocks of lower index. The block of this index is the first that does
    /// not.
    spec fn whole(&self, k: int) -> int {
        count_at(self.leaves(), k)
    }

    /// The address of the list sentinel of order `k`.
    spec fn sentinel(&self, k: int) -> int {
        sentinel_at(self.entries as int, self.entries_size as nat, k)
    }

    /// The address of the `alloc` bitmap of order `k`.
    spec fn alloc_base(&self, k: int) -> int {
        alloc_at(self.entries as int, self.entries_size as nat, k)
    }

    /// The address of the `split` bitmap of order `k`.
    spec fn split_base(&self, k: int) -> int {
        split_at(self.entries as int, self.entries_size as nat, k)
    }

    /// Whether block `i` of order `k` is marked in the `alloc` bitmap.
    spec fn alloc_bit(&self, k: int, i: int) -> bool {
        bit_at(&self.region, self.alloc_base(k), i)
    }

    /// Whether block `i` of order `k` is marked in the `split` bitmap. No
    /// block of order 0 is.
    spec fn split_bit(&self, k: int, i: int) -> bool {
        k >= 1 && bit_at(&self.region, self.split_base(k), i)
    }

    /// Whether the parent of block `i` of order `k` is marked as split: the
    /// block then exists as a block of its own.
    spec fn parent_split(&self, k: int, i: int) -> bool {
        k + 1 < self.entries_size && self.split_bit(k + 1, i / 2)
    }

    /// The free list of order `k`, by block index.
    spec fn list_of(&self, k: int) -> Seq<usize> {
        self.lists@[k]
    }

    /// The address of block `i` of order `k`.
    spec fn addr(&self, k: int, i: int) -> int {
        block_at(self.base_addr as int, self.leaf2base as nat, k, i)
    }

    /// The free list of order `k`, by address.
    spec fn free_addrs(&self, k: int) -> Seq<int> {
        Seq::new(self.list_of(k).len(), |j: int| self.addr(k, self.list_of(k)[j] as int))
    }

    /// What the engine stands for.
    pub closed spec fn view(&self) -> BuddyView {
        BuddyView {
            base: self.base_addr as int,
            end: self.end_addr as int,
            unavailable: self.unavailable as int,
            leaf2base: self.leaf2base as nat,
            orders: self.entries_size as nat,
            free: Seq::new(self.entries_size as nat, |k: int| self.free_addrs(k)),
            live: self.live@,
        }
    }

    /// The address of the block at place `j` of the free list of order `k`.
    spec fn member(&self, k: int, j: int) -> int {
        self.addr(k, self.list_of(k)[j] as int)
    }

    /// The address of the node that stands `j` steps after the sentinel in
    /// the ring of order `k`: the sentinel itself at both ends.
    spec fn node(&self, k: int, j: int) -> int {
        if 1 <= j <= self.list_of(k).len() {
            self.member(k, j - 1)
        } else {
            self.sentinel(k)
        }
    }

    /// The record of order `k` holds the addresses of its sentinel and of
    /// its bitmaps.
    spec fn record_ok(&self, k: int) -> bool {
        let at = self.entries + 24 * k;
        &&& self.region.word_at(at) == self.sentinel(k)
        &&& self.region.word_at(at + 8) == self.alloc_base(k)
        &&& k >= 1 ==> self.region.word_at(at + 16) == self.split_base(k)
    }

    /// The block at place `j` of the free list of order `k` has a bit in the
    /// bitmaps and room for a node in the span, 16 bytes or more from any
    /// other block start.
    spec fn member_ok(&self, k: int, j: int) -> bool {
        &&& self.list_of(k)[j] < self.nbits(k)
        &&& self.base_addr <= self.member(k, j)
        &&& self.member(k, j) + 16 <= self.end_addr
        &&& (self.member(k, j) - self.base_addr) % 16 == 0
    }

    /// The forward link of the node at ring position `j` of order `k` and
    /// the backward link of the node after it agree.
    spec fn links_ok(&self, k: int, j: int) -> bool {
        &&& self.region.word_at(self.node(k, j)) == self.node(k, j + 1)
        &&& self.region.word_at(self.node(k, j + 1) + 8) == self.node(k, j)
    }

    /// Whether the ring of order `k` has a position `j`.
    spec fn on_ring(&self, k: int, j: int) -> bool {
        0 <= k < self.entries_size && 0 <= j <= self.list_of(k).len()
    }

    /// The sizes are in order: the books lie in the region before the span,
    /// the span starts on a leaf boundary and ends with the region, and the
    /// top order is too large for it.
    spec fn sized(&self) -> bool {
        &&& self.entries_size >= 2
        &&& self.entries_size + 3 <= usize::BITS
        &&& 4 <= self.leaf2base
        &&& self.entries_size - 2 + self.leaf2base < usize::BITS
        &&& 0 < self.base_addr
        &&& self.base_addr + self.unavailable <= self.end_addr
        &&& (self.base_addr as int) % (pow2(self.leaf2base as nat) as int) == 0
        &&& self.end_addr - self.base_addr < pow2((self.entries_size - 1 + self.leaf2base) as nat)
        &&& self.region.wf()
        &&& 0 < self.region.origin() <= self.entries
        &&& self.entries % 8 == 0
        &&& self.entries + metadata_bytes(self.entries_size as nat) <= self.base_addr
        &&& self.region.end() == self.end_addr
        &&& self.lists@.len() == self.entries_size
    }

    /// The sizes are in order, and so is what the region holds of the
    /// engine but for the bitmaps: the records hold their addresses, the
    /// free lists name blocks at different addresses, and the nodes of each
    /// list are linked into a ring through its sentinel.
    spec fn shape(&self) -> bool {
        &&& self.sized()
        &&& forall|k: int| 0 <= k < self.entries_size ==> #[trigger] self.record_ok(k)
        &&& forall|k: int, j: int| self.on_list(k, j) ==> #[trigger] self.member_ok(k, j)
        &&& forall|k1: int, j1: int, k2: int, j2: int|
            self.on_list(k1, j1) && self.on_list(k2, j2) && !(k1 == k2 && j1 == j2)
                ==> #[trigger] self.member(k1, j1) != #[trigger] self.member(k2, j2)
        &&& forall|k: int, j: int| self.on_ring(k, j) ==> #[trigger] self.links_ok(k, j)
    }

    /// Blocks cover whole leaves, and less than a leaf is left uncovered.
    spec fn spans_leaves(&self) -> bool {
        &&& (self.end_addr - self.unavailable - self.base_addr) % (pow2(
            self.leaf2base as nat) as int)
            == 0
        &&& self.unavailable < pow2(self.leaf2base as nat)
    }

    /// Whether the bitmaps keep a bit for block `i` of order `k`.
    spec fn in_table(&self, k: int, i: int) -> bool {
        0 <= k < self.entries_size && 0 <= i < self.nbits(k)
    }

    /// Whether the free list of order `k` has a place `j`.
    spec fn on_list(&self, k: int, j: int) -> bool {
        0 <= k < self.entries_size && 0 <= j < self.list_of(k).len()
    }

    /// What the bits of block `i` of order `k` say, in turn: a block with a
    /// split parent is marked or on the free list; one that is marked, whole
    /// and not split is handed out; a split block is marked; a whole split
    /// block has a split parent and a marked half; the halves of a whole block
    /// that is not split are blank; and the first block that is not whole is
    /// marked as split if the tiling ends with a block of the order below.
    spec fn block_ok(&self, k: int, i: int) -> bool {
        let whole = i < self.whole(k);
        &&& (self.parent_split(k, i) && !self.alloc_bit(k, i))
            ==> self.list_of(k).contains(i as usize)
        &&& (self.parent_split(k, i) && whole && self.alloc_bit(k, i) && !self.split_bit(k, i))
            ==> self.live@.contains_key(self.addr(k, i)) && self.live@[self.addr(k, i)] == k
        &&& self.split_bit(k, i) ==> self.alloc_bit(k, i)
        &&& (self.split_bit(k, i) && whole) ==> {
            &&& self.parent_split(k, i)
            &&& self.alloc_bit(k - 1, 2 * i) || self.alloc_bit(k - 1, 2 * i + 1)
        }
        &&& (k >= 1 && !self.split_bit(k, i) && whole) ==> {
            &&& !self.alloc_bit(k - 1, 2 * i)
            &&& !self.alloc_bit(k - 1, 2 * i + 1)
            &&& !self.split_bit(k - 1, 2 * i)
            &&& !self.split_bit(k - 1, 2 * i + 1)
        }
        &&& (k >= 1 && i == self.whole(k) && self.whole(k - 1) % 2 == 1) ==> self.split_bit(k, i)
    }

    /// The block at place `j` of the free list of order `k` is whole, has a
    /// split parent and is not marked.
    spec fn free_ok(&self, k: int, j: int) -> bool {
        let i = self.list_of(k)[j] as int;
        &&& i < self.whole(k)
        &&& self.parent_split(k, i)
        &&& !self.alloc_bit(k, i)
    }

    /// The block handed out at `p` lies on a boundary of its order, is whole,
    /// has a split parent, is marked and is not split.
    spec fn live_ok(&self, p: int) -> bool {
        let k = self.live@[p] as int;
        let i = (p - self.base_addr) / (pow2((k + self.leaf2base) as nat) as int);
        &&& k + 1 < self.entries_size
        &&& p == self.addr(k, i)
        &&& 0 <= i < self.whole(k)
        &&& self.parent_split(k, i)
        &&& self.alloc_bit(k, i)
        &&& !self.split_bit(k, i)
    }

    /// Every block is in order.
    spec fn all_blocks_ok(&self) -> bool {
        forall|k: int, i: int| self.in_table(k, i) ==> #[trigger] self.block_ok(k, i)
    }

    /// Every member of a free list is in order.
    spec fn all_frees_ok(&self) -> bool {
        forall|k: int, j: int| self.on_list(k, j) ==> #[trigger] self.free_ok(k, j)
    }

    /// Every block that is handed out is in order.
    spec fn all_lives_ok(&self) -> bool {
        forall|p: int| self.live@.contains_key(p) ==> #[trigger] self.live_ok(p)
    }

    /// The bookkeeping is consistent: the bitmaps, the free lists and the
    /// blocks handed out describe one tiling of the span.
    pub closed spec fn wf(&self) -> bool {
        &&& self.shape()
        &&& self.spans_leaves()
        &&& self.all_blocks_ok()
        &&& self.all_frees_ok()
        &&& self.all_lives_ok()
    }

    /// The two engines have the same span and the same blocks handed out.
    spec fn same_frame(&self, o: &BuddyAlloc) -> bool {
        &&& self.base_addr == o.base_addr
        &&& self.end_addr == o.end_addr
        &&& self.unavailable == o.unavailable
        &&& self.entries == o.entries
        &&& self.entries_size == o.entries_size
        &&& self.leaf2base == o.leaf2base
        &&& self.live@ == o.live@
    }

    /// The byte of the region at address `addr`.
    pub closed spec fn byte(&self, addr: int) -> u8 {
        self.region.byte_at(addr)
    }

    /// Whether the address `addr` lies in the region.
    pub closed spec fn in_region(&self, addr: int) -> bool {
        self.region.holds(addr, 1)
    }

    /// Whether `a` is the address of a byte of the block that is handed out
    /// at `q`.
    pub open spec fn in_live(&self, q: int, a: int) -> bool {
        &&& self@.live.contains_key(q)
        &&& q <= a < q + self@.block(self@.live[q])
    }

    /// This engine holds what `o` holds in every block that `o` has handed
    /// out, but perhaps the block at `but`.
    pub open spec fn keeps(&self, o: &BuddyAlloc, but: int) -> bool {
        forall|q: int, a: int| #[trigger] o.in_live(q, a) && q != but ==> self.byte(a) == o.byte(a)
    }

    /// The two engines agree on every byte of the span.
    spec fn same_data(&self, o: &BuddyAlloc) -> bool {
        forall|a: int|
            self.base_addr <= a < self.end_addr ==> #[trigger] self.region.byte_at(a)
                == o.region.byte_at(a)
    }

    /// The two engines agree on the `alloc` bitmaps, but perhaps on the bit
    /// of block `i0` of order `k0`.
    spec fn same_alloc(&self, o: &BuddyAlloc, k0: int, i0: int) -> bool {
        forall|k: int, i: int| self.in_table(k, i) && !(k == k0 && i == i0)
                ==> #[trigger] self.alloc_bit(k, i) == o.alloc_bit(k, i)
    }

    /// The two engines agree on the `split` bitmaps, but perhaps on the bit
    /// of block `i0` of order `k0`.
    spec fn same_split(&self, o: &BuddyAlloc, k0: int, i0: int) -> bool {
        forall|k: int, i: int| self.in_table(k, i) && !(k == k0 && i == i0)
                ==> #[trigger] self.split_bit(k, i) == o.split_bit(k, i)
    }

    /// The two engines agree on the free lists, but perhaps on that of order
    /// `k0`.
    spec fn same_lists(&self, o: &BuddyAlloc, k0: int) -> bool {
        forall|k: int| 0 <= k < self.entries_size && k != k0 ==> #[trigger] self.list_of(k)
            == o.list_of(k)
    }

}

/// The one-block free list of order `j` in the tiling of `x` leaves, or
/// the empty list.
spec fn tile_list(x: int, j: int) -> Seq<usize> {
    if count_at(x, j) % 2 == 1 {
        seq![(count_at(x, j) - 1) as usize]
    } else {
        Seq::empty()
    }
}

impl BuddyAlloc {
    /// The state during the tiling of the span: `x` leaves are tiled, and
    /// the orders from `tm` up have their first uncovered block marked.
    spec fn tiled(&self, tm: int, x: int) -> bool {
        &&& forall|j: int, i: int| self.in_table(j, i) ==> #[trigger] self.alloc_bit(j, i) == (i
                == count_at(x, j) && ((tm <= j && j + 2 <= self.entries_size) || (j >= 1
                && count_at(x, j - 1) % 2 == 1)))
        &&& forall|j: int, i: int| self.in_table(j, i) ==> #[trigger] self.split_bit(j, i) == (j
                >= 1 && i == count_at(x, j) && count_at(x, j - 1) % 2 == 1)
        &&& forall|j: int| 0 <= j < self.entries_size ==> #[trigger] self.list_of(j)
            == tile_list(x, j)
        &&& self.live@ == Map::<int, nat>::empty()
    }

    /// The two engines have the same span.
    spec fn same_scalars(&self, o: &BuddyAlloc) -> bool {
        &&& self.base_addr == o.base_addr
        &&& self.end_addr == o.end_addr
        &&& self.unavailable == o.unavailable
        &&& self.entries == o.entries
        &&& self.entries_size == o.entries_size
        &&& self.leaf2base == o.leaf2base
    }

    /// The engine that is left when the block of order `k` at `p`, the
    /// only one that is neither free nor handed out, has been merged and
    /// put on a free list.
    spec fn pending(&self, k: int, p: int) -> BuddyView {
        BuddyView { live: self@.live.remove(p), ..self@ }.coalesce(k as nat, p)
    }


    /// The bytes that blocks cover, whether free or handed out. Splitting
    /// may leave no single free block of that size.
    pub fn available_bytes(&self) -> (bytes: usize)
        requires
            self.wf(),
        ensures
            bytes == self@.available(),
    {
        self.end_addr - self.unavailable - self.base_addr
    }

    /// Tiles the span with free blocks, the largest first, and marks, at
    /// every order, the first block that the tiling does not cover.
    fn init_free_list(&mut self)
        requires
            old(self).shape(),
            old(self).unavailable == 0,
            old(self).tiled(old(self).entries_size - 1, 0),
        ensures
            final(self).wf(),
            final(self).base_addr == old(self).base_addr,
            final(self).end_addr == old(self).end_addr,
            final(self).entries_size == old(self).entries_size,
            final(self).leaf2base == old(self).leaf2base,
            final(self).tiled(0, final(self).leaves()),
            final(self).unavailable
                == (final(self).end_addr - final(self).base_addr) % (pow2(
                final(self).leaf2base as nat,
            ) as int),
    {
        let mut base_addr: usize = self.base_addr;
        let end_addr: usize = self.end_addr;
        let entries_size: usize = self.entries_size;
        let ghost l = self.leaf2base as nat;
        let ghost orders = self.entries_size as nat;
        let ghost mut x: int = 0;
        let mut k: usize = entries_size - 1;
        proof {
            lemma_pow2_pos(l);
            lemma_pow2_pos(k as nat);
        }
        while k > 0
            invariant
                self.shape(),
                self.unavailable == 0,
                self.base_addr == old(self).base_addr,
                self.end_addr == old(self).end_addr,
                self.entries_size == old(self).entries_size,
                self.leaf2base == old(self).leaf2base,
                end_addr == self.end_addr,
                entries_size == self.entries_size,
                l == self.leaf2base,
                orders == self.entries_size,
                k < entries_size,
                0 <= x,
                base_addr == self.base_addr + x * pow2(l),
                base_addr <= end_addr,
                end_addr - base_addr < pow2(k as nat + l),
                x % (pow2(k as nat) as int) == 0,
                self.tiled(k as int, x),
            decreases k,
        {
            k -= 1;
            let block_size: usize = block_size_2base(k, self.leaf2base);
            let ghost mut pushed = false;
            proof {
                reveal(count_at);
                assert(k as nat + 1 + l == (k + 1) as nat + l);
                lemma_tile_step(x, k as nat);
            }
            while end_addr - base_addr >= block_size
                invariant
                    self.shape(),
                    self.unavailable == 0,
                    self.base_addr == old(self).base_addr,
                    self.end_addr == old(self).end_addr,
                    self.entries_size == old(self).entries_size,
                    self.leaf2base == old(self).leaf2base,
                    end_addr == self.end_addr,
                    entries_size == self.entries_size,
                    l == self.leaf2base,
                    orders == self.entries_size,
                    k + 1 < entries_size,
                    block_size == pow2(k as nat + l),
                    0 <= x,
                    base_addr == self.base_addr + x * pow2(l),
                    base_addr <= end_addr,
                    !pushed ==> x % (pow2((k + 1) as nat) as int) == 0 && end_addr - base_addr
                        < pow2((k + 1) as nat + l),
                    pushed ==> end_addr - base_addr < block_size,
                    x % (pow2(k as nat) as int) == 0,
                    self.tiled(k + 1, x),
                decreases end_addr - base_addr,
            {
                let ghost pre = *self;
                proof {
                    reveal(count_at);
                    lemma_pow2_pos(l);
                    lemma_pow2_pos(k as nat + l);
                    lemma_pow2_double(k as nat + l);
                    assert((k + 1) as nat + l == k as nat + l + 1);
                    lemma_pow2_adds(k as nat, l);
                    lemma_pow2_adds((orders - 1) as nat, l);
                    lemma_tile_step(x, k as nat);
                    lemma_scaled_div(x, k as nat, l);
                    lemma_scaled_div(x, (k + 1) as nat, l);
                    assert(x * pow2(l) < pow2((orders - 1) as nat) * pow2(l));
                    assert(x < pow2((orders - 1) as nat)) by (nonlinear_arith)
                        requires
                            x * pow2(l) < pow2((orders - 1) as nat) * pow2(l),
                            pow2(l) > 0,
                    ;
                    lemma_levels(orders, x);
                    assert(self.list_of(k as int) == tile_list(x, k as int));
                    assert(count_at(x, k as int) % 2 == 0);
                }
                let block_index: usize = self.block_index(k, base_addr);
                assert(block_index == count_at(x, k as int));
                proof {
                    assert((x + pow2(k as nat)) * pow2(l) == x * pow2(l) + pow2(k as nat) * pow2(l))
                        by (nonlinear_arith);
                    self.lemma_tiled_join(k as int, x);
                }
                self.list_push(k, block_index);
                let ghost mid = *self;
                assert(block_index & 1 == 0 <==> block_index % 2 == 0) by (bit_vector);
                if block_index & 1 == 0 {
                    let parent_index: usize = self.block_index(k + 1, base_addr);
                    assert(parent_index == count_at(x, k + 1));
                    self.set_alloc(k + 1, parent_index);
                    self.set_split(k + 1, parent_index);
                }
                base_addr += block_size;
                proof {
                    let x2 = x + pow2(k as nat);
                    assert((x + pow2(k as nat)) * pow2(l) == x * pow2(l) + pow2(k as nat) * pow2(l))
                        by (nonlinear_arith);
                    assert forall|j: int, i: int|
                        self.in_table(j, i) implies #[trigger] self.alloc_bit(j, i)
                            == (pre.alloc_bit(j, i) || (j == k + 1 && i == count_at(x, k + 1))) by {
                        assert(mid.alloc_bit(j, i) == pre.alloc_bit(j, i));
                    }
                    assert forall|j: int, i: int|
                        self.in_table(j, i) implies #[trigger] self.split_bit(j, i)
                            == (pre.split_bit(j, i) || (j == k + 1 && i == count_at(x, k + 1))) by {
                        assert(mid.split_bit(j, i) == pre.split_bit(j, i));
                    }
                    assert forall|j: int| 0 <= j < self.entries_size && j != k
                        implies #[trigger] self.list_of(j) == pre.list_of(j) by {
                        assert(mid.list_of(j) == pre.list_of(j));
                    }
                    Self::lemma_tiled_push(&pre, self, k as int, x);
                    x = x2;
                    pushed = true;
                }
            }
            proof {
                reveal(count_at);
                lemma_pow2_adds((orders - 1) as nat, l);
                lemma_pow2_pos(l);
                assert(x * pow2(l) < pow2((orders - 1) as nat) * pow2(l));
                assert(x < pow2((orders - 1) as nat)) by (nonlinear_arith)
                    requires
                        x * pow2(l) < pow2((orders - 1) as nat) * pow2(l),
                        pow2(l) > 0,
                ;
                lemma_levels(orders, x);
                lemma_scaled_div(x, k as nat, l);
            }
            let unavailable_block_index: usize = self.block_index(k, base_addr);
            self.set_alloc(k, unavailable_block_index);
        }
        let ghost last = *self;
        self.unavailable = end_addr - base_addr;
        proof {
            lemma2_to64();
            lemma_pow2_pos(l);
            lemma_scaled_div(x, 0, l);
            assert(self.leaves() == x);
            assert forall|j: int, i: int|
                self.in_table(j, i) implies #[trigger] self.alloc_bit(j, i)
                == last.alloc_bit(j, i) by {}
            assert forall|j: int, i: int|
                self.in_table(j, i) implies #[trigger] self.split_bit(j, i)
                == last.split_bit(j, i) by {}
            assert forall|j: int| 0 <= j < self.entries_size implies #[trigger] self.list_of(j)
                == last.list_of(j) by {}
            assert(self.tiled(0, x));
            vstd::arithmetic::div_mod::lemma_fundamental_div_mod_converse(
                end_addr - self.base_addr,
                pow2(l) as int,
                x,
                end_addr - base_addr,
            );
            assert(x * pow2(l) == pow2(l) * x) by (nonlinear_arith);
            Self::lemma_same_books(&last, self);
            self.lemma_tiled_wf();
        }
    }

    /// Serves a request for `nbytes` bytes: takes the first free block of
    /// the least sufficient order or above, and splits it down to that
    /// order. Returns the address of the block, or 0 if no block of such an
    /// order is free.
    pub fn malloc(&mut self, nbytes: usize) -> (p: usize)
        requires
            old(self).wf(),
        ensures
            final(self).wf(),
            final(self)@ == old(self)@.malloc(nbytes as nat),
            p == old(self)@.malloc_ptr(nbytes as nat),
            final(self)@.same_span(old(self)@),
            final(self)@.available() == old(self)@.available(),
            p == 0 <==> old(self)@.first_free(old(self)@.order_for(nbytes as nat)) is None,
            p != 0 ==> {
                &&& final(self)@.live.contains_key(p as int)
                &&& final(self)@.live[p as int] == old(self)@.order_for(nbytes as nat)
                &&& !old(self)@.live.contains_key(p as int)
                &&& nbytes <= final(self)@.block(final(self)@.live[p as int])
                &&& final(self)@.live_in_span(p as int)
                &&& p as int % (final(self)@.leaf() as int) == 0
            },
            final(self).keeps(old(self), 0),
    {
        let entries_size: usize = self.entries_size;
        proof {
            lemma_usize_pow2_no_overflow(self.leaf2base as nat);
            lemma_usize_shl_is_mul(1usize, self.leaf2base);
            self.lemma_view();
        }
        let fk: usize = first_up_k(nbytes, 1usize << self.leaf2base);
        proof {
            let leaf = pow2(self.leaf2base as nat);
            let c = first_up_order(nbytes as nat, leaf);
            assert(is_first_up_k(c, nbytes as nat, leaf));
            lemma_first_up_k_unique(c, fk as nat, nbytes as nat, leaf);
        }
        let mut k: usize = fk;
        while k < entries_size && self.list_is_empty(k)
            invariant
                self.wf(),
                entries_size == self.entries_size,
                fk <= k,
                forall|j: int| fk <= j < k && j < entries_size ==> self.list_of(j).len() == 0,
            decreases entries_size - k,
        {
            k += 1;
        }
        if k >= entries_size {
            proof {
                Self::lemma_first_free_none(self@, fk as nat);
            }
            return 0;
        }
        let ghost pre = *self;
        let ghost kf = k;
        proof {
            self.lemma_free_not_live(k as int, 0);
            assert(self.free_ok(k as int, 0));
            self.lemma_block_span(k as int, self.list_of(k as int)[0] as int);
            Self::lemma_first_free_some(self@, fk as nat, k as nat);
        }
        proof {
            self.live@ = self.live@.insert(
                self.addr(k as int, self.list_of(k as int)[0] as int),
                k as nat,
            );
            Self::lemma_same_bits(&pre, self);
        }
        let ghost taking = *self;
        let mut i: usize = self.list_pop(k);
        let ghost taken = *self;
        let p: usize = self.block_addr(k, i);
        proof {
            pre.lemma_leaves();
            lemma_count_below(self.entries_size as nat, pre.leaves(), k as int);
            self.lemma_reach(k as int, i as int);
        }
        self.set_alloc(k, i);
        proof {
            assert(self.same_alloc(&pre, k as int, i as int)) by {
                assert forall|k2: int, i2: int| self.in_table(k2, i2) && !(k2 == k && i2
                        == i) implies #[trigger] self.alloc_bit(k2, i2)
                            == pre.alloc_bit(k2, i2) by {}
            }
            assert(self.same_split(&pre, -1, 0)) by {
                assert forall|k2: int, i2: int|
                    self.in_table(k2, i2) implies #[trigger] self.split_bit(k2, i2)
                        == pre.split_bit(k2, i2) by {}
            }
            assert(self.same_lists(&pre, k as int)) by {
                assert forall|k2: int|
                    0 <= k2 < self.entries_size && k2 != k implies #[trigger] self.list_of(k2)
                        == pre.list_of(k2) by {}
            }
            Self::lemma_take(&pre, self, k as int);
            assert(self.live_ok(p as int));
            assert(pre.keeps(&pre, 0));
            Self::lemma_keeps_step(&pre, &pre, &taking, &taken, self, k as int, 0);
            assert forall|j: int| 0 <= j < self.entries_size implies #[trigger] self.free_addrs(j)
                == (if j == kf {
                pre.free_addrs(j).drop_first()
            } else {
                pre.free_addrs(j)
            }) by {
                if j == kf {
                    assert(self.free_addrs(j) =~= pre.free_addrs(j).drop_first());
                } else {
                    assert(self.list_of(j) == pre.list_of(j));
                    assert(self.free_addrs(j) =~= pre.free_addrs(j));
                }
            }
        }
        while k > fk
            invariant
                self.wf(),
                pre.wf(),
                self.same_scalars(&pre),
                fk <= k <= kf,
                kf + 1 < self.entries_size,
                p == self.addr(k as int, i as int),
                self.live@ == pre.live@.insert(p as int, k as nat),
                !pre.live@.contains_key(p as int),
                self.keeps(&pre, 0),
                i == (p - self.base_addr) / (pow2((k + self.leaf2base) as nat) as int),
                forall|j: int|
                    0 <= j < self.entries_size ==> #[trigger] self.free_addrs(j) == (if j == kf {
                        pre.free_addrs(j).drop_first()
                    } else if k <= j < kf {
                        seq![p + pow2((j + self.leaf2base) as nat)] + pre.free_addrs(j)
                    } else {
                        pre.free_addrs(j)
                    }),
            decreases k,
        {
            let ghost mid = *self;
            proof {
                self.lemma_split_ready(k as int, p as int);
                self.live@ = self.live@.insert(p as int, (k - 1) as nat);
                Self::lemma_same_bits(&mid, self);
            }
            self.set_split(k, i);
            self.set_alloc(k - 1, 2 * i);
            proof {
                Self::lemma_can_join_same(&mid, self, k - 1, 2 * i + 1);
            }
            let ghost joining = *self;
            self.list_push(k - 1, 2 * i + 1);
            proof {
                assert(self.same_split(&mid, k as int, i as int)) by {
                    assert forall|k2: int, i2: int| self.in_table(k2, i2) && !(k2 == k && i2
                            == i) implies #[trigger] self.split_bit(k2, i2)
                                == mid.split_bit(k2, i2) by {}
                }
                assert(self.same_alloc(&mid, k - 1, 2 * i)) by {
                    assert forall|k2: int, i2: int| self.in_table(k2, i2) && !(k2 == k - 1
                            && i2 == 2 * i) implies #[trigger] self.alloc_bit(k2, i2)
                                == mid.alloc_bit(k2, i2) by {}
                }
                assert(self.same_lists(&mid, k - 1)) by {
                    assert forall|k2: int| 0 <= k2 < self.entries_size && k2 != k - 1
                            implies #[trigger] self.list_of(k2)
                        == mid.list_of(k2) by {}
                }
                assert(self.live@ =~= mid.live@.insert(p as int, (k - 1) as nat));
                assert(self.live@ =~= pre.live@.insert(p as int, (k - 1) as nat));
                Self::lemma_split(&mid, self, k as int, i as int);
                Self::lemma_keeps_step(&pre, &mid, &joining, self, self, k - 1, 0);
                mid.lemma_block_span(k - 1, 2 * i);
                assert forall|j: int|
                    0 <= j < self.entries_size implies #[trigger] self.free_addrs(j) == (if j
                    == kf {
                    pre.free_addrs(j).drop_first()
                } else if k - 1 <= j < kf {
                    seq![p + pow2((j + self.leaf2base) as nat)] + pre.free_addrs(j)
                } else {
                    pre.free_addrs(j)
                }) by {
                    if j == k - 1 {
                        assert(self.free_addrs(j) =~= seq![p + pow2((j + self.leaf2base) as nat)]
                            + mid.free_addrs(j));
                    } else {
                        assert(self.list_of(j) == mid.list_of(j));
                        assert(self.free_addrs(j) =~= mid.free_addrs(j));
                    }
                }
            }
            i = 2 * i;
            k -= 1;
        }
        proof {
            assert(self.live_ok(p as int));
            self.lemma_block_span(fk as int, i as int);
            self.lemma_view();
            pre.lemma_view();
            let l = self.leaf2base as nat;
            lemma_pow2_adds(fk as nat, l);
            lemma_pow2_pos(l);
            assert(fk as nat + l == (fk + self.leaf2base) as nat);
            assert(self@.free =~= pre@.split_free(fk as nat, kf as nat, p as int));
            vstd::arithmetic::div_mod::lemma_mod_adds(
                self.base_addr as int,
                p - self.base_addr,
                pow2(l) as int,
            );
        }
        p
    }

    /// The order of the block at `p`, which is handed out: the least order
    /// at which the block that holds `p` has a split parent.
    fn find_k_for_p(&self, p: usize) -> (k: usize)
        requires
            self.wf(),
            self@.live.contains_key(p as int),
        ensures
            k == self@.live[p as int],
    {
        let ghost kl = self.live@[p as int] as int;
        let ghost i = (p - self.base_addr) / (pow2((kl + self.leaf2base) as nat) as int);
        proof {
            self.lemma_live_block(p as int);
        }
        let mut k: usize = 0;
        while k < self.entries_size - 1
            invariant
                self.wf(),
                self.live@.contains_key(p as int),
                kl == self.live@[p as int],
                i == (p - self.base_addr) / (pow2((kl + self.leaf2base) as nat) as int),
                k <= kl,
                kl + 1 < self.entries_size,
                self.base_addr <= p <= self.end_addr,
            decreases self.entries_size - k,
        {
            let index: usize = self.block_index(k + 1, p);
            proof {
                self.lemma_live_block(p as int);
                if k < kl {
                    if k + 1 < kl {
                        reveal(count_at);
                        lemma_div_pow2_twice(
                            p - self.base_addr,
                            (k + 1 + self.leaf2base) as nat,
                            (kl - k - 1) as nat,
                        );
                        assert((k + 1 + self.leaf2base) as nat + (kl - k - 1) as nat == (kl
                            + self.leaf2base) as nat);
                        self.lemma_descend(kl, i, k + 1, index as int);
                    }
                }
            }
            if self.split_isset(k + 1, index) {
                return k;
            }
            k += 1;
        }
        // The order of the block is found before the orders run out.
        0
    }

    /// Gives the block at `p` back: it is merged with its buddy as long as
    /// the buddy is free, and the result is put at the head of the free list
    /// of its order.
    pub fn free(&mut self, p: usize)
        requires
            old(self).wf(),
            old(self)@.live.contains_key(p as int),
        ensures
            final(self).wf(),
            final(self)@ == old(self)@.free(p as int),
            final(self)@.same_span(old(self)@),
            final(self)@.available() == old(self)@.available(),
            final(self)@.live == old(self)@.live.remove(p as int),
            final(self).keeps(old(self), p as int),
    {
        let ghost given = p as int;
        let mut at: usize = p;
        let mut k: usize = self.find_k_for_p(at);
        proof {
            self.lemma_live_block(at as int);
        }
        while k < self.entries_size - 1
            invariant
                self.wf(),
                self.same_scalars(old(self)),
                self.live@.contains_key(at as int),
                self.live@[at as int] == k,
                given == p as int,
                old(self).wf(),
                self.keeps(old(self), given),
                self.live@.remove(at as int) == old(self).live@.remove(given),
                self.pending(k as int, at as int) == old(self)@.free(given),
            decreases self.entries_size - k,
        {
            let ghost pre = *self;
            let ghost l = self.leaf2base as nat;
            proof {
                pre.lemma_live_block(at as int);
                pre.lemma_view();
            }
            let block_index: usize = self.block_index(k, at);
            self.clear_alloc(k, block_index);
            let ghost cleared = *self;
            assert(block_index & 1 == 0 <==> block_index % 2 == 0) by (bit_vector);
            let is_head: bool = block_index & 1 == 0;
            let buddy: usize = if is_head {
                block_index + 1
            } else {
                block_index - 1
            };
            proof {
                pre.lemma_free_addrs_index(k as int, buddy as int);
            }
            if self.alloc_isset(k, buddy) {
                proof {
                    pre.lemma_joins_back(at as int);
                    Self::lemma_can_join_same(&pre, self, k as int, block_index as int);
                }
                self.list_push(k, block_index);
                let ghost cut = *self;
                proof {
                    self.live@ = self.live@.remove(at as int);
                    Self::lemma_same_bits(&cut, self);
                    Self::lemma_release(&pre, self, at as int);
                    assert forall|q: int, a: int| #[trigger]
                        old(self).in_live(q, a) && q != given implies pre.in_live(q, a)
                        && self.in_live(q, a) by {
                        let rest = old(self).live@.remove(given);
                        assert(rest.contains_key(q) && rest[q] == old(self).live@[q]);
                        assert(pre.live@.remove(at as int) == rest);
                        assert(pre.live@.contains_key(q) && pre.live@[q] == rest[q]);
                        assert(self.live@.contains_key(q) && self.live@[q] == rest[q]);
                    }
                    Self::lemma_keeps_step(
                        old(self),
                        &pre,
                        &cleared,
                        &cut,
                        self,
                        k as int,
                        given,
                    );
                    self.lemma_view();
                    assert(self.free_addrs(k as int)
                        =~= seq![at as int] + pre.free_addrs(k as int));
                    assert forall|j: int|
                        0 <= j < self.entries_size && j != k implies #[trigger] self.free_addrs(j)
                        == pre.free_addrs(j) by {
                        assert(self.list_of(j) == pre.list_of(j));
                        assert(self.free_addrs(j) =~= pre.free_addrs(j));
                    }
                    assert(self@.free
                        =~= pre@.free.update(k as int, seq![at as int] + pre@.free[k as int]));
                    let v = BuddyView { live: pre@.live.remove(at as int), ..pre@ };
                    assert(pre.alloc_bit(k as int, buddy as int));
                    if pre.list_of(k as int).contains(buddy) {
                        let j = pre.list_of(k as int).index_of(buddy);
                        assert(pre.free_ok(k as int, j));
                    }
                    assert(v.buddy_of(k as nat, at as int) == pre.addr(k as int, buddy as int));
                    assert(!v.free[k as int].contains(v.buddy_of(k as nat, at as int)));
                    assert(self@ == pre.pending(k as int, at as int));
                }
                return ;
            }
            proof {
                pre.lemma_block_span(k as int, buddy as int);
            }
            let q: usize = self.block_addr(k, buddy);
            self.list_remove(k, buddy);
            let ghost parted = *self;
            let ghost from = at;
            if !is_head {
                at = q;
            }
            let parent: usize = self.block_index(k + 1, at);
            proof {
                pre.lemma_block_span(k + 1, block_index as int / 2);
                assert(parent == block_index as int / 2);
            }
            self.clear_split(k + 1, parent);
            let ghost cut = *self;
            proof {
                self.live@ = self.live@.remove(from as int).insert(at as int, (k + 1) as nat);
                Self::lemma_same_bits(&cut, self);
                Self::lemma_merge(&pre, self, from as int);
                assert forall|q2: int, a: int| #[trigger]
                    old(self).in_live(q2, a) && q2 != given implies pre.in_live(q2, a)
                    && self.in_live(q2, a) by {
                    let rest = old(self).live@.remove(given);
                    assert(rest.contains_key(q2) && rest[q2] == old(self).live@[q2]);
                    assert(pre.live@.remove(from as int) == rest);
                    assert(pre.live@.contains_key(q2) && pre.live@[q2] == rest[q2]);
                    pre.lemma_free_not_live(k as int, pre.list_of(k as int).index_of(buddy));
                    assert(q2 != at);
                    assert(self.live@.contains_key(q2) && self.live@[q2] == rest[q2]);
                }
                Self::lemma_keeps_step(
                    old(self),
                    &pre,
                    &cleared,
                    &parted,
                    self,
                    k as int,
                    given,
                );
                self.lemma_view();
                let jb = pre.list_of(k as int).index_of(buddy);
                assert(self.free_addrs(k as int) =~= pre.free_addrs(k as int).remove(jb));
                assert forall|j: int|
                    0 <= j < self.entries_size && j != k implies #[trigger] self.free_addrs(j)
                    == pre.free_addrs(j) by {
                    assert(self.list_of(j) == pre.list_of(j));
                    assert(self.free_addrs(j) =~= pre.free_addrs(j));
                }
                let v = BuddyView { live: pre@.live.remove(from as int), ..pre@ };
                let rest = v.free[k as int].remove(v.free[k as int].index_of(q as int));
                let v2 = BuddyView { live: self@.live.remove(at as int), ..self@ };
                assert(v2.live =~= v.live) by {
                    pre.lemma_free_not_live(k as int, jb);
                }
                assert(v2.free =~= v.free.update(k as int, rest));
                assert(v2 == BuddyView { free: v.free.update(k as int, rest), ..v });
                assert(v.buddy_of(k as nat, from as int) == q);
                assert(self.pending(k + 1, at as int) == pre.pending(k as int, from as int));
                self.lemma_live_block(at as int);
            }
            k += 1;
        }
        // A block that is handed out lies below the top order, and so does
        // what it merges into: the loop ends at a buddy that is not free.
        proof {
            self.lemma_live_block(at as int);
        }
    }

    /// Whether an engine can be built from `param`.
    pub fn can_build(param: &BuddyAllocParam) -> (ok: bool)
        ensures
            ok == param.valid(),
    {
        layout(param).is_some()
    }

    /// What stands in the way of building an engine from `param`, if
    /// anything: the leaf size, or else the room in the region.
    pub fn check(param: &BuddyAllocParam) -> (r: Result<(), BuddyAllocError>)
        ensures
            match r {
                Ok(_) => param.valid(),
                Err(BuddyAllocError::LeafSize) => !param.leaf_ok(),
                Err(BuddyAllocError::OutOfMemory) => param.leaf_ok() && !param.valid(),
            },
    {
        if param.leaf_size % MIN_LEAF_SIZE_ALIGN != 0 || param.leaf_size == 0 {
            Err(BuddyAllocError::LeafSize)
        } else if layout(param).is_some() {
            Ok(())
        } else {
            Err(BuddyAllocError::OutOfMemory)
        }
    }

    /// An engine over the region of `param`, whose bytes are `region`: the
    /// books are laid at the head of the region, and the rest is tiled with
    /// free blocks.
    pub fn new(param: BuddyAllocParam, region: Vec<u8>) -> (alloc: BuddyAlloc)
        requires
            param.valid(),
            param.fits(region@),
        ensures
            alloc.wf(),
            alloc@ == param.initial_view(),
    {
        match layout(&param) {
            Some(l) => Self::build(&param, l, region),
            None => vstd::pervasive::unreached(),
        }
    }

    /// As `new`, for parameters that may not be valid: the error says
    /// whether the leaf size or the room in the region is at fault.
    pub fn try_new(param: BuddyAllocParam, region: Vec<u8>) -> (r: Result<
        BuddyAlloc,
        BuddyAllocError,
    >)
        requires
            param.fits(region@),
        ensures
            match r {
                Ok(alloc) => param.valid() && alloc.wf() && alloc@ == param.initial_view(),
                Err(BuddyAllocError::LeafSize) => !param.leaf_ok(),
                Err(BuddyAllocError::OutOfMemory) => param.leaf_ok() && !param.valid(),
            },
    {
        if param.leaf_size % MIN_LEAF_SIZE_ALIGN != 0 || param.leaf_size == 0 {
            return Err(BuddyAllocError::LeafSize);
        }
        match layout(&param) {
            Some(l) => Ok(Self::build(&param, l, region)),
            None => Err(BuddyAllocError::OutOfMemory),
        }
    }
}

/// Why no engine can be built from some parameters.
#[derive(Clone, Copy, Debug, PartialEq, Eq)]
pub enum BuddyAllocError {
    /// The leaf size is zero or no multiple of 16.
    LeafSize,
    /// The region has no room for the bookkeeping.
    OutOfMemory,
}

} // verus!
