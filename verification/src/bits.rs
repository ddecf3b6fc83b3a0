//! Bit arrays packed into the bytes of a region: bit `i` of the array at
//! address `bits` lives in the byte at `bits + i / 8` under the mask
//! `1 << (i % 8)`.
use crate::region::Region;
use vstd::prelude::*;

verus! {

/// Whether bit `j` of the byte `b` is set, for `j < 8`.
pub open spec fn byte_bit(b: u8, j: u8) -> bool {
    b & (1u8 << j) == (1u8 << j)
}

/// Whether bit `i` of the bit array at address `bits` is set.
#[verifier::opaque]
pub open spec fn bit_at(region: &Region, bits: int, i: int) -> bool {
    byte_bit(region.byte_at(bits + i / 8), (i % 8) as u8)
}

/// No bit of the zero byte is set.
pub proof fn lemma_byte_bit_zero(j: u8)
    requires
        j < 8,
    ensures
        !byte_bit(0u8, j),
{
    assert(0u8 & (1u8 << j) != (1u8 << j)) by (bit_vector)
        requires
            j < 8,
    ;
}

/// Or-ing the mask of bit `j` into a byte sets that bit and keeps the others.
pub proof fn lemma_byte_bit_set(b: u8, j: u8, t: u8)
    requires
        j < 8,
        t < 8,
    ensures
        byte_bit(b | (1u8 << j), t) == (t == j || byte_bit(b, t)),
{
    assert(((b | (1u8 << j)) & (1u8 << t) == (1u8 << t)) == (t == j || (b & (1u8 << t) == (1u8
        << t)))) by (bit_vector)
        requires
            j < 8,
            t < 8,
    ;
}

/// And-ing the complement of the mask of bit `j` clears that bit and keeps
/// the others.
pub proof fn lemma_byte_bit_clear(b: u8, j: u8, t: u8)
    requires
        j < 8,
        t < 8,
    ensures
        byte_bit(b & !(1u8 << j), t) == (t != j && byte_bit(b, t)),
{
    assert(((b & !(1u8 << j)) & (1u8 << t) == (1u8 << t)) == (t != j && (b & (1u8 << t) == (1u8
        << t)))) by (bit_vector)
        requires
            j < 8,
            t < 8,
    ;
}

/// A bit whose byte is zero is not set.
pub proof fn lemma_bit_at_zero(region: &Region, bits: int, i: int)
    requires
        0 <= i,
        region.byte_at(bits + i / 8) == 0u8,
    ensures
        !bit_at(region, bits, i),
{
    reveal(bit_at);
    lemma_byte_bit_zero((i % 8) as u8);
}

/// A bit is the same in two regions that agree on its byte.
pub proof fn lemma_bit_same(a: &Region, b: &Region, bits: int, i: int)
    requires
        a.byte_at(bits + i / 8) == b.byte_at(bits + i / 8),
    ensures
        bit_at(a, bits, i) == bit_at(b, bits, i),
{
    reveal(bit_at);
}

/// Reads bit `i` of the bit array at address `bits`.
pub fn bit_isset(region: &Region, bits: usize, i: usize) -> (r: bool)
    requires
        region.wf(),
        region.holds(bits + i / 8, 1),
    ensures
        r == bit_at(region, bits as int, i as int),
{
    assert(i >> 3 == i / 8) by (bit_vector);
    proof {
        reveal(bit_at);
    }
    let b: u8 = region.read(bits + (i >> 3));
    let m: u8 = 1u8 << ((i % 8) as u8);
    b & m == m
}

/// Sets bit `i` of the bit array at address `bits`; every other bit of the
/// array, and every other byte of the region, keeps its value.
pub fn bit_set(region: &mut Region, bits: usize, i: usize)
    requires
        old(region).wf(),
        old(region).holds(bits + i / 8, 1),
    ensures
        final(region).wf(),
        final(region).same_but(old(region), bits + i / 8, 1),
        bit_at(final(region), bits as int, i as int),
        forall|j: int|
            0 <= j && j != i && old(region).holds(bits + j / 8, 1) ==> #[trigger] bit_at(
                final(region),
                bits as int,
                j,
            ) == bit_at(old(region), bits as int, j),
{
    assert(i >> 3 == i / 8) by (bit_vector);
    let s: u8 = (i % 8) as u8;
    let b: u8 = region.read(bits + (i >> 3));
    let m: u8 = 1u8 << s;
    region.write(bits + (i >> 3), b | m);
    proof {
        reveal(bit_at);
        lemma_byte_bit_set(b, s, s);
        assert forall|j: int|
            0 <= j && j != i && old(region).holds(bits + j / 8, 1) implies #[trigger] bit_at(
            region,
            bits as int,
            j,
        ) == bit_at(old(region), bits as int, j) by {
            if j / 8 == i / 8 {
                lemma_byte_bit_set(b, s, (j % 8) as u8);
            } else {
                assert(region@[bits + j / 8 - region.origin()] == old(region)@[bits + j / 8
                    - region.origin()]);
            }
        }
    }
}

/// Clears bit `i` of the bit array at address `bits`, which must be set;
/// every other bit of the array, and every other byte of the region, keeps
/// its value.
pub fn bit_clear(region: &mut Region, bits: usize, i: usize)
    requires
        old(region).wf(),
        old(region).holds(bits + i / 8, 1),
        bit_at(old(region), bits as int, i as int),
    ensures
        final(region).wf(),
        final(region).same_but(old(region), bits + i / 8, 1),
        !bit_at(final(region), bits as int, i as int),
        forall|j: int|
            0 <= j && j != i && old(region).holds(bits + j / 8, 1) ==> #[trigger] bit_at(
                final(region),
                bits as int,
                j,
            ) == bit_at(old(region), bits as int, j),
{
    assert(i >> 3 == i / 8) by (bit_vector);
    let s: u8 = (i % 8) as u8;
    let b: u8 = region.read(bits + (i >> 3));
    let m: u8 = 1u8 << s;
    region.write(bits + (i >> 3), b & !m);
    proof {
        reveal(bit_at);
        lemma_byte_bit_clear(b, s, s);
        assert forall|j: int|
            0 <= j && j != i && old(region).holds(bits + j / 8, 1) implies #[trigger] bit_at(
            region,
            bits as int,
            j,
        ) == bit_at(old(region), bits as int, j) by {
            if j / 8 == i / 8 {
                lemma_byte_bit_clear(b, s, (j % 8) as u8);
            } else {
                assert(region@[bits + j / 8 - region.origin()] == old(region)@[bits + j / 8
                    - region.origin()]);
            }
        }
    }
}

} // verus!
