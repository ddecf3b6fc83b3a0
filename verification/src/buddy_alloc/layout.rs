//! Where the parts of an engine lie in its region.
use crate::arith::{
    lemma_log2_floor_bounds, lemma_pow2_lt_exponent, lemma_pow2_monotonic, lemma_round_up,
    log2_floor,
};
use super::{
    BuddyAllocParam, MIN_LEAF_SIZE_ALIGN, bitmap_bytes, bitmaps_bytes, log2, metadata_bytes,
    nblock, roundup,
};
use vstd::arithmetic::power2::{lemma2_to64, lemma_pow2_adds, lemma_pow2_pos, pow2};
use vstd::bits::{lemma_usize_mul_pow2_le_max_iff_max_shr, lemma_usize_shr_is_div};
use vstd::prelude::*;

verus! {

/// Where the parts of an engine lie.
pub(super) struct Layout {
    pub(super) leaf2base: usize,
    pub(super) entries: usize,
    pub(super) entries_size: usize,
    pub(super) base_addr: usize,
    pub(super) end_addr: usize,
}

/// The floor logarithm of a number below `2^b` is below `b`.
pub(super) proof fn lemma_log2_floor_below(m: nat, b: nat)
    requires
        m < pow2(b),
        b >= 1,
    ensures
        log2_floor(m) < b,
{
    if m >= 1 {
        lemma_log2_floor_bounds(m);
        lemma_pow2_lt_exponent(log2_floor(m), b);
    }
}

/// The bytes of the bitmap of order `k`.
pub(super) fn bitmap_size(k: usize, entries_size: usize) -> (r: usize)
    requires
        k < entries_size,
        entries_size - k - 1 + 4 <= usize::BITS,
    ensures
        r == bitmap_bytes(k as nat, entries_size as nat),
        r >= 1,
        8 * r >= pow2((entries_size - k - 1) as nat),
{
    let n: usize = nblock(k, entries_size);
    proof {
        lemma_pow2_pos((entries_size - k - 1) as nat);
        lemma_pow2_monotonic((entries_size - k - 1) as nat, (usize::BITS - 4) as nat);
        lemma2_to64();
        vstd::arithmetic::power2::lemma2_to64_rest();
        lemma_round_up(n as int, 3);
    }
    let r: usize = roundup(n, 3);
    assert(r >> 3 == r / 8) by (bit_vector);
    r >> 3
}

impl Layout {
    /// The layout is that of an engine over the region of `param`, and its
    /// sizes fit the machine: blocks of every order but the top one have
    /// addresses.
    pub(super) open spec fn lays_out(self, param: &BuddyAllocParam) -> bool {
        &&& self.leaf2base == param.leaf2base()
        &&& self.entries == param.first_aligned()
        &&& self.entries % 8 == 0
        &&& self.entries + metadata_bytes(self.entries_size as nat) <= self.base_addr
        &&& self.entries_size == param.orders()
        &&& self.base_addr == param.data_base()
        &&& self.end_addr == param.end()
        &&& 4 <= self.leaf2base
        &&& 2 <= self.entries_size
        &&& self.entries_size + 3 <= usize::BITS
        &&& 0 < self.base_addr <= self.end_addr
        &&& (self.base_addr as int) % (pow2(self.leaf2base as nat) as int) == 0
        &&& self.end_addr - self.base_addr < pow2((self.entries_size - 1 + self.leaf2base) as nat)
        &&& self.entries_size - 2 + self.leaf2base < usize::BITS
    }
}

/// Lays out an engine over the region of `param`, if it has room for one.
pub(super) fn layout(param: &BuddyAllocParam) -> (r: Option<Layout>)
    ensures
        r is Some <==> param.valid(),
        r matches Some(l) ==> l.lays_out(param),
{
    if param.leaf_size % MIN_LEAF_SIZE_ALIGN != 0 || param.leaf_size == 0 {
        return None;
    }
    if param.base_addr == 0 || param.len > usize::MAX - param.base_addr {
        return None;
    }
    let end_addr: usize = param.base_addr + param.len;
    let leaf2base: usize = log2(param.leaf_size);
    let ghost l = leaf2base as nat;
    proof {
        lemma2_to64();
        lemma_pow2_pos(l);
        if l < 4 {
            lemma_pow2_monotonic(l + 1, 4);
        }
        lemma_usize_shr_is_div((param.base_addr - 1) as usize, leaf2base);
        lemma_usize_shr_is_div(usize::MAX, leaf2base);
        lemma_usize_mul_pow2_le_max_iff_max_shr(
            ((param.base_addr - 1) as usize >> leaf2base),
            leaf2base,
            usize::MAX,
        );
        lemma_round_up(param.base_addr as int, l);
    }
    let q: usize = (param.base_addr - 1) >> leaf2base;
    if q >= usize::MAX >> leaf2base {
        proof {
            assert(((q + 1) as usize) * pow2(l) > usize::MAX) by {
                lemma_usize_mul_pow2_le_max_iff_max_shr((q + 1) as usize, leaf2base, usize::MAX);
            }
        }
        return None;
    }
    proof {
        lemma_usize_mul_pow2_le_max_iff_max_shr((q + 1) as usize, leaf2base, usize::MAX);
    }
    let first: usize = roundup(param.base_addr, leaf2base);
    if first > end_addr {
        return None;
    }
    let room: usize = end_addr - first;
    proof {
        lemma_usize_shr_is_div(room, leaf2base);
    }
    let m: usize = room >> leaf2base;
    proof {
        lemma_pow2_monotonic(4, l);
        vstd::arithmetic::div_mod::lemma_div_is_ordered_by_denominator(
            room as int,
            16,
            pow2(l) as int,
        );
        vstd::arithmetic::power2::lemma2_to64_rest();
        assert(m < pow2((usize::BITS - 4) as nat));
        lemma_log2_floor_below(m as nat, (usize::BITS - 4) as nat);
    }
    let entries_size: usize = log2(m) + 2;
    let ghost orders = entries_size as nat;
    assert(orders == param.orders());
    let mut sum: u128 = 0;
    let mut k: usize = 0;
    while k < entries_size
        invariant
            k <= entries_size,
            entries_size + 3 <= usize::BITS,
            sum == bitmaps_bytes(k as nat, orders),
            orders == entries_size,
            sum <= k * usize::MAX,
        decreases entries_size - k,
    {
        let b: usize = bitmap_size(k, entries_size);
        assert((k + 1) * usize::MAX == k * usize::MAX + usize::MAX) by (nonlinear_arith);
        assert(k * usize::MAX <= 64 * usize::MAX) by (nonlinear_arith)
            requires
                k <= 64,
        ;
        sum = sum + b as u128;
        k += 1;
    }
    assert(entries_size * usize::MAX <= 64 * usize::MAX) by (nonlinear_arith)
        requires
            entries_size <= 64,
    ;
    let first_bitmap: usize = bitmap_size(0, entries_size);
    proof {
        assert(bitmaps_bytes(orders, orders) >= bitmap_bytes(0, orders)) by {
            lemma_bitmaps_bytes_first(orders, orders);
        }
    }
    let meta: u128 = 40 * (entries_size as u128) + 2 * sum - (first_bitmap as u128);
    assert(meta == metadata_bytes(orders));
    proof {
        lemma_round_up(first + meta, l);
    }
    if meta > room as u128 {
        return None;
    }
    let used: usize = first + meta as usize;
    proof {
        lemma_usize_shr_is_div((used - 1) as usize, leaf2base);
        lemma_usize_shr_is_div(end_addr, leaf2base);
        lemma_usize_mul_pow2_le_max_iff_max_shr(
            (((used - 1) as usize >> leaf2base) + 1) as usize,
            leaf2base,
            end_addr,
        );
    }
    if (used - 1) >> leaf2base >= end_addr >> leaf2base {
        return None;
    }
    let base_addr: usize = roundup(used, leaf2base);
    proof {
        if m >= 1 {
            lemma_log2_floor_bounds(m as nat);
            lemma_pow2_adds((orders - 2) as nat, l);
            assert(pow2((orders - 2) as nat) * pow2(l) <= m * pow2(l)) by (nonlinear_arith)
                requires
                    pow2((orders - 2) as nat) <= m,
            ;
            assert(pow2(l) * m == m * pow2(l)) by (nonlinear_arith);
            if orders - 2 + l >= usize::BITS {
                lemma_pow2_monotonic(usize::BITS as nat, (orders - 2 + l) as nat);
            }
        }
        // room < (m + 1) * 2^l <= 2^(orders - 1) * 2^l
        vstd::arithmetic::div_mod::lemma_fundamental_div_mod(room as int, pow2(l) as int);
        lemma_pow2_adds((orders - 1) as nat, l);
        assert(m + 1 <= pow2((orders - 1) as nat));
        assert(pow2(l) * (m + 1) <= pow2((orders - 1) as nat) * pow2(l)) by (nonlinear_arith)
            requires
                m + 1 <= pow2((orders - 1) as nat),
        ;
        assert(pow2(l) * (m + 1) == pow2(l) * m + pow2(l)) by (nonlinear_arith);
    }
    proof {
        lemma_round_up(first + meta, l);
        lemma_first_aligned(first as int, l);
    }
    Some(Layout { leaf2base, entries: first, entries_size, base_addr, end_addr })
}

/// A multiple of a leaf of 16 bytes or more is a multiple of 8.
proof fn lemma_first_aligned(first: int, l: nat)
    requires
        first % (pow2(l) as int) == 0,
        l >= 4,
        first >= 0,
    ensures
        first % 8 == 0,
{
    let d = pow2(l) as int;
    lemma2_to64();
    lemma_pow2_adds(3, (l - 3) as nat);
    let r = pow2((l - 3) as nat) as int;
    lemma_pow2_pos((l - 3) as nat);
    vstd::arithmetic::div_mod::lemma_fundamental_div_mod(first, d);
    let q = first / d;
    assert(first == 8 * (r * q)) by (nonlinear_arith)
        requires
            first == d * q,
            d == 8 * r,
    ;
}

/// The bitmaps below order `n` include that of order 0.
pub(super) proof fn lemma_bitmaps_bytes_first(n: nat, orders: nat)
    requires
        n >= 1,
    ensures
        bitmaps_bytes(n, orders) >= bitmap_bytes(0, orders),
    decreases n,
{
    if n > 1 {
        lemma_bitmaps_bytes_first((n - 1) as nat, orders);
    }
}

} // verus!
