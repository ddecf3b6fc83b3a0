//! Powers of two, floor logarithms and rounding, as used by the block
//! arithmetic of the allocators.
use vstd::arithmetic::div_mod::{
    lemma_div_denominator, lemma_div_multiples_vanish, lemma_fundamental_div_mod,
    lemma_fundamental_div_mod_converse, lemma_mod_multiples_basic,
};
use vstd::arithmetic::power2::{
    lemma2_to64, lemma_pow2_adds, lemma_pow2_pos, lemma_pow2_strictly_increases, lemma_pow2_unfold,
    pow2,
};
use vstd::prelude::*;

verus! {

/// Floor of the binary logarithm, with `log2_floor(0) == 0`.
pub open spec fn log2_floor(n: nat) -> nat
    decreases n,
{
    if n <= 1 {
        0
    } else {
        1 + log2_floor(n / 2)
    }
}

/// The least multiple of `2^s` that is at least `n`, for `n >= 1`.
pub open spec fn round_up(n: int, s: nat) -> int {
    ((n - 1) / (pow2(s) as int) + 1) * pow2(s)
}

/// The number of whole blocks of `2^k` leaves in a run of `m` leaves.
#[verifier::opaque]
pub open spec fn count_at(m: int, k: int) -> int {
    m / (pow2(k as nat) as int)
}

/// `2^(e+1)` is twice `2^e`.
pub proof fn lemma_pow2_double(e: nat)
    ensures
        pow2(e + 1) == 2 * pow2(e),
        pow2(e) > 0,
{
    lemma_pow2_unfold(e + 1);
    lemma_pow2_pos(e);
}

/// Powers of two grow with the exponent.
pub proof fn lemma_pow2_monotonic(a: nat, b: nat)
    requires
        a <= b,
    ensures
        pow2(a) <= pow2(b),
        pow2(a) > 0,
{
    lemma_pow2_pos(a);
    if a < b {
        lemma_pow2_strictly_increases(a, b);
    }
}

/// A smaller power of two means a smaller exponent.
pub proof fn lemma_pow2_lt_exponent(a: nat, b: nat)
    requires
        pow2(a) < pow2(b),
    ensures
        a < b,
{
    if a >= b {
        lemma_pow2_monotonic(b, a);
    }
}

/// The floor logarithm brackets its argument between two powers of two.
pub proof fn lemma_log2_floor_bounds(n: nat)
    requires
        n >= 1,
    ensures
        pow2(log2_floor(n)) <= n < pow2(log2_floor(n) + 1),
    decreases n,
{
    lemma2_to64();
    if n > 1 {
        lemma_log2_floor_bounds(n / 2);
        lemma_pow2_double(log2_floor(n / 2));
        lemma_pow2_double(log2_floor(n / 2) + 1);
    }
}

/// Dividing by two powers of two in turn divides by the power of the summed
/// exponents.
pub proof fn lemma_div_pow2_twice(x: int, a: nat, b: nat)
    requires
        0 <= x,
    ensures
        (x / (pow2(a) as int)) / (pow2(b) as int) == x / (pow2(a + b) as int),
{
    lemma_pow2_pos(a);
    lemma_pow2_pos(b);
    lemma_pow2_adds(a, b);
    lemma_div_denominator(x, pow2(a) as int, pow2(b) as int);
}

/// Rounding up gives the least multiple of `2^s` at or above `n`.
pub proof fn lemma_round_up(n: int, s: nat)
    requires
        n >= 1,
    ensures
        round_up(n, s) % (pow2(s) as int) == 0,
        n <= round_up(n, s) < n + pow2(s),
        round_up(n, s) / (pow2(s) as int) == (n - 1) / (pow2(s) as int) + 1,
{
    let d = pow2(s) as int;
    lemma_pow2_pos(s);
    let q = (n - 1) / d;
    lemma_fundamental_div_mod(n - 1, d);
    assert((q + 1) * d == q * d + d) by (nonlinear_arith);
    assert(d * q == q * d) by (nonlinear_arith);
    lemma_mod_multiples_basic(q + 1, d);
    lemma_div_multiples_vanish(q + 1, d);
    assert((q + 1) * d == d * (q + 1)) by (nonlinear_arith);
}

/// A number below `2^(a+b)`, divided by `2^b`, is below `2^a`.
pub proof fn lemma_div_pow2_bound(n: int, a: nat, b: nat)
    requires
        0 <= n < pow2(a + b),
    ensures
        0 <= n / (pow2(b) as int) < pow2(a),
{
    let d = pow2(b) as int;
    let q = n / d;
    lemma_pow2_pos(b);
    lemma_pow2_adds(a, b);
    lemma_fundamental_div_mod(n, d);
    assert(q >= 0) by (nonlinear_arith)
        requires
            n >= 0,
            d > 0,
            q == n / d,
    ;
    if q >= pow2(a) {
        assert(d * q >= d * pow2(a)) by (nonlinear_arith)
            requires
                q >= pow2(a),
                d > 0,
        ;
        assert(d * pow2(a) == pow2(a) * d) by (nonlinear_arith);
    }
}

/// The quotient of `x * 2^l` by `2^(k+l)` is that of `x` by `2^k`.
pub proof fn lemma_scaled_div(x: int, k: nat, l: nat)
    requires
        0 <= x,
    ensures
        (x * pow2(l)) / (pow2(k + l) as int) == x / (pow2(k) as int),
        (x * pow2(l)) / (pow2(l) as int) == x,
        (x * pow2(l)) % (pow2(l) as int) == 0,
{
    lemma_pow2_pos(l);
    lemma_pow2_pos(k);
    let d = pow2(l) as int;
    assert(x * pow2(l) >= 0) by (nonlinear_arith)
        requires
            x >= 0,
            pow2(l) > 0,
    ;
    lemma_div_pow2_twice(x * pow2(l), l, k);
    lemma_fundamental_div_mod_converse(x * pow2(l), d, x, 0);
    assert(l + k == k + l);
}

/// For `x` a multiple of `2^(k+1)`: the block counts of `x` and of
/// `x + 2^k` at each order.
pub proof fn lemma_tile_step(x: int, k: nat)
    requires
        0 <= x,
        x % (pow2(k + 1) as int) == 0,
    ensures
        forall|j: int| 0 <= j <= k ==> (#[trigger] count_at(x, j)) % 2 == 0,
        forall|j: int| 0 <= j < k ==> (#[trigger] count_at(x + pow2(k), j)) % 2 == 0,
        count_at(x + pow2(k), k as int) == count_at(x, k as int) + 1,
        forall|j: int| k < j ==> #[trigger] count_at(x + pow2(k), j) == count_at(x, j),
        (x + pow2(k)) % (pow2(k) as int) == 0,
        x % (pow2(k) as int) == 0,
{
    reveal(count_at);
    let e = pow2(k) as int;
    let d = pow2(k + 1) as int;
    lemma_pow2_double(k);
    let c = x / d;
    lemma_fundamental_div_mod(x, d);
    assert(x == d * c);
    assert(x == e * (2 * c)) by (nonlinear_arith)
        requires
            x == d * c,
            d == 2 * e,
    ;
    assert(x + e == e * (2 * c + 1)) by (nonlinear_arith)
        requires
            x == e * (2 * c),
    ;
    lemma_fundamental_div_mod_converse(x, e, 2 * c, 0);
    lemma_fundamental_div_mod_converse(x + e, e, 2 * c + 1, 0);
    assert(x + e == d * c + e);
    lemma_fundamental_div_mod_converse(x + e, d, c, e);
    assert forall|j: int| 0 <= j <= k implies (#[trigger] count_at(x, j)) % 2 == 0 by {
        lemma_multiple_is_even(x, j as nat, k);
    }
    assert forall|j: int| 0 <= j < k implies (#[trigger] count_at(x + pow2(k), j)) % 2 == 0 by {
        lemma_pow2_double((k - 1) as nat);
        assert(x + e == pow2(k) * (2 * c + 1));
        lemma_mod_multiples_basic(2 * c + 1, e);
        assert(pow2(k) * (2 * c + 1) == (2 * c + 1) * e) by (nonlinear_arith)
            requires
                e == pow2(k),
        ;
        lemma_multiple_is_even(x + e, j as nat, (k - 1) as nat);
    }
    assert forall|j: int| k < j implies #[trigger] count_at(x + pow2(k), j) == count_at(x, j) by {
        lemma_div_pow2_twice(x, k + 1, (j - k - 1) as nat);
        lemma_div_pow2_twice(x + e, k + 1, (j - k - 1) as nat);
        assert(k + 1 + (j - k - 1) as nat == j as nat);
    }
}

/// A multiple of `2^(k+1)`, divided by `2^j` for `j <= k`, is even.
pub proof fn lemma_multiple_is_even(x: int, j: nat, k: nat)
    requires
        0 <= x,
        j <= k,
        x % (pow2(k + 1) as int) == 0,
    ensures
        (x / (pow2(j) as int)) % 2 == 0,
{
    let d = pow2(k + 1) as int;
    let c = x / d;
    lemma_pow2_pos(k + 1);
    lemma_pow2_pos(j);
    lemma_fundamental_div_mod(x, d);
    lemma_pow2_adds(j, (k - j) as nat);
    lemma_pow2_double(k);
    let r = pow2((k - j) as nat) as int;
    let w = pow2(j) as int;
    assert(d == 2 * (w * r));
    assert(x == w * (2 * (r * c))) by (nonlinear_arith)
        requires
            x == d * c,
            d == 2 * (w * r),
    ;
    lemma_fundamental_div_mod_converse(x, w, 2 * (r * c), 0);
}

/// Halving the count of blocks of one order gives that of the next.
pub proof fn lemma_count_step(m: int, k: int)
    requires
        0 <= m,
        0 <= k,
    ensures
        count_at(m, k) / 2 == count_at(m, k + 1),
        0 <= count_at(m, k),
{
    reveal(count_at);
    lemma_div_pow2_twice(m, k as nat, 1);
    lemma2_to64();
    lemma_pow2_pos(k as nat);
    let d = pow2(k as nat) as int;
    assert(m / d >= 0) by (nonlinear_arith)
        requires
            m >= 0,
            d > 0,
    ;
}

/// Offsets of blocks: block `i` of `2^(k+l)` bytes starts at `i * 2^(k+l)`.
pub proof fn lemma_block_offsets(i: int, k: nat, l: nat)
    requires
        0 <= i,
    ensures
        0 <= i * pow2(k + l),
        (i * pow2(k + l)) / (pow2(k + l) as int) == i,
        (i * pow2(k + l)) % (pow2(l) as int) == 0,
        (i + 1) * pow2(k + l) == i * pow2(k + l) + pow2(k + l),
        (2 * i) * pow2(k + l) == i * pow2(k + 1 + l),
        (2 * i + 1) * pow2(k + l) == i * pow2(k + 1 + l) + pow2(k + l),
{
    let b = pow2(k + l) as int;
    let e = pow2(k) as int;
    let d = pow2(l) as int;
    lemma_pow2_pos(k + l);
    lemma_pow2_pos(k);
    lemma_pow2_pos(l);
    lemma_pow2_adds(k, l);
    lemma_pow2_double(k + l);
    assert(k + l + 1 == k + 1 + l);
    assert(i * b >= 0) by (nonlinear_arith)
        requires
            i >= 0,
            b > 0,
    ;
    lemma_fundamental_div_mod_converse(i * b, b, i, 0);
    assert(b * i == i * b) by (nonlinear_arith);
    assert(i * b == d * (i * e)) by (nonlinear_arith)
        requires
            b == e * d,
    ;
    assert(i * e >= 0) by (nonlinear_arith)
        requires
            i >= 0,
            e > 0,
    ;
    lemma_fundamental_div_mod_converse(i * b, d, i * e, 0);
    assert((i + 1) * b == i * b + b) by (nonlinear_arith);
    let g = pow2(k + 1 + l) as int;
    assert((2 * i) * b == i * g) by (nonlinear_arith)
        requires
            g == 2 * b,
    ;
    assert((2 * i + 1) * b == i * g + b) by (nonlinear_arith)
        requires
            g == 2 * b,
    ;
}

/// A whole block of order `k` among `m` leaves ends within them.
pub proof fn lemma_block_within(i: int, k: nat, l: nat, m: int)
    requires
        0 <= i < count_at(m, k as int),
        0 <= m,
    ensures
        (i + 1) * pow2(k + l) <= m * pow2(l),
{
    reveal(count_at);
    let e = pow2(k) as int;
    let d = pow2(l) as int;
    let b = pow2(k + l) as int;
    lemma_pow2_pos(k);
    lemma_pow2_pos(l);
    lemma_pow2_adds(k, l);
    lemma_fundamental_div_mod(m, e);
    let c = m / e;
    assert((i + 1) * e <= c * e) by (nonlinear_arith)
        requires
            i + 1 <= c,
            e > 0,
    ;
    assert(e * c == c * e) by (nonlinear_arith);
    assert(((i + 1) * e) * d <= m * d) by (nonlinear_arith)
        requires
            (i + 1) * e <= m,
            d > 0,
    ;
    assert(((i + 1) * e) * d == (i + 1) * b) by (nonlinear_arith)
        requires
            b == e * d,
    ;
}

/// The number of blocks of order `k` that an engine with `orders` orders
/// keeps a bit for.
#[verifier::opaque]
pub open spec fn nblocks(orders: nat, k: int) -> int {
    pow2((orders - 1 - k) as nat) as int
}

/// How the block counts of neighbouring orders are related.
pub proof fn lemma_levels(orders: nat, m: int)
    requires
        orders >= 1,
        0 <= m < pow2((orders - 1) as nat),
    ensures
        count_at(m, 0) == m,
        nblocks(orders, orders - 1) == 1,
        count_at(m, orders - 1) == 0,
        forall|k: int| 0 <= k < orders ==> 0 <= #[trigger] count_at(m, k) < nblocks(orders, k),
        forall|j: int, k: int|
            0 <= j && k == j + 1 && k < orders ==> #[trigger] nblocks(orders, j) == 2
                * #[trigger] nblocks(orders, k),
        forall|j: int, k: int|
            0 <= j && k == j + 1 ==> #[trigger] count_at(m, j) / 2 == #[trigger] count_at(m, k),
{
    reveal(nblocks);
    reveal(count_at);
    lemma2_to64();
    assert(pow2(0) == 1);
    assert(count_at(m, 0) == m / 1);
    assert forall|k: int| 0 <= k < orders implies 0
        <= #[trigger] count_at(m, k) < nblocks(orders, k) by {
        let d = pow2(k as nat) as int;
        let n = pow2((orders - 1 - k) as nat) as int;
        lemma_pow2_pos(k as nat);
        lemma_pow2_adds((orders - 1 - k) as nat, k as nat);
        vstd::arithmetic::div_mod::lemma_fundamental_div_mod(m, d);
        let q = m / d;
        assert(q >= 0) by (nonlinear_arith)
            requires
                m >= 0,
                d > 0,
                q == m / d,
        ;
        if q >= n {
            assert(d * q >= d * n) by (nonlinear_arith)
                requires
                    q >= n,
                    d > 0,
            ;
            assert(d * n == n * d) by (nonlinear_arith);
        }
    }
    assert forall|j: int, k: int| 0 <= j && k == j + 1 && k < orders
        implies #[trigger] nblocks(orders, j) == 2 * #[trigger] nblocks(orders, k) by {
        lemma_pow2_double((orders - 1 - k) as nat);
    }
    assert forall|j: int, k: int| 0 <= j && k == j + 1 implies #[trigger] count_at(m, j) / 2
        == #[trigger] count_at(m, k) by {
        lemma_div_pow2_twice(m, j as nat, 1);
    }
}

/// The whole blocks of an order are fewer than its bits.
pub proof fn lemma_count_below(orders: nat, m: int, k: int)
    requires
        0 <= m < pow2((orders - 1) as nat),
        0 <= k < orders,
    ensures
        0 <= count_at(m, k) < nblocks(orders, k),
{
    lemma_levels(orders, m);
}

/// Each order keeps twice the bits of the next.
pub proof fn lemma_nblocks_step(orders: nat, k: int)
    requires
        0 <= k,
        k + 1 < orders,
    ensures
        nblocks(orders, k) == 2 * nblocks(orders, k + 1),
        nblocks(orders, k + 1) >= 1,
{
    reveal(nblocks);
    lemma_pow2_double((orders - 2 - k) as nat);
}

} // verus!
