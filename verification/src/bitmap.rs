//! Bits of bitmap bytes and blocks.
use vstd::prelude::*;
use vstd::std_specs::bits::{u8_trailing_zeros, axiom_u8_trailing_zeros};

verus! {

/// Whether bit `j` (0 = least significant) of `b` is set.
pub open spec fn bit_set(b: u8, j: u8) -> bool {
    (b >> j) & 1u8 == 1u8
}

/// `b` with bit `j` set.
pub open spec fn set_bit(b: u8, j: u8) -> u8 {
    b | (1u8 << j)
}

/// `b` with bit `j` cleared.
pub open spec fn clear_bit(b: u8, j: u8) -> u8 {
    b & !(1u8 << j)
}

/// Bit `k` of a bitmap block: bit `k % 8` of byte `k / 8`.
pub open spec fn block_bit(s: Seq<u8>, k: int) -> bool {
    bit_set(s[k / 8], (k % 8) as u8)
}

/// The bitmap block `s` with bit `k` set to `v`.
pub open spec fn block_with_bit(s: Seq<u8>, k: int, v: bool) -> Seq<u8> {
    s.update(
        k / 8,
        if v {
            set_bit(s[k / 8], (k % 8) as u8)
        } else {
            clear_bit(s[k / 8], (k % 8) as u8)
        },
    )
}

/// Setting or clearing one bit changes that bit and no other.
pub proof fn lemma_set_clear_bit(b: u8, j: u8, i: u8)
    requires
        j < 8,
        i < 8,
    ensures
        bit_set(set_bit(b, j), i) == (bit_set(b, i) || i == j),
        bit_set(clear_bit(b, j), i) == (bit_set(b, i) && i != j),
{
    assert(((b | (1u8 << j)) >> i) & 1u8 == 1u8 <==> ((b >> i) & 1u8 == 1u8 || i == j))
        by (bit_vector)
        requires
            j < 8,
            i < 8,
    ;
    assert(((b & !(1u8 << j)) >> i) & 1u8 == 1u8 <==> ((b >> i) & 1u8 == 1u8 && i != j))
        by (bit_vector)
        requires
            j < 8,
            i < 8,
    ;
}

/// Changing bit `k` of a bitmap block changes that bit and no other.
pub proof fn lemma_block_with_bit(s: Seq<u8>, k: int, v: bool, k2: int)
    requires
        0 <= k < 8 * s.len(),
        0 <= k2 < 8 * s.len(),
    ensures
        block_with_bit(s, k, v).len() == s.len(),
        block_bit(block_with_bit(s, k, v), k2) == if k2 == k {
            v
        } else {
            block_bit(s, k2)
        },
{
    if k2 / 8 == k / 8 {
        lemma_set_clear_bit(s[k / 8], (k % 8) as u8, (k2 % 8) as u8);
        if k2 % 8 == k % 8 {
            assert(k2 == k);
        }
    }
}

/// Facts about the lowest clear bit of a byte, as isolated by `!b & (b + 1)`.
pub proof fn lemma_lowest_clear_bit(b: u8)
    requires
        b != 0xffu8,
    ensures
        ({
            let t = u8_trailing_zeros(!b & ((b + 1) as u8));
            &&& t < 8
            &&& !bit_set(b, t as u8)
            &&& forall|j: u8| j < t ==> #[trigger] bit_set(b, j)
            &&& (b | ((b + 1) as u8)) == set_bit(b, t as u8)
        }),
{
    let x: u8 = !b & ((b + 1) as u8);
    assert(x != 0u8) by (bit_vector)
        requires
            b != 0xffu8,
            x == !b & ((b + 1) as u8),
    ;
    axiom_u8_trailing_zeros(x);
    let t = u8_trailing_zeros(x) as u8;
    assert(t < 8);
    assert((x >> t) & 1u8 == 1u8);
    assert(((x >> t) & 1u8 == 1u8 && t < 8u8 && x == !b & ((b + 1) as u8)) ==> (
    (b >> t) & 1u8 == 0u8 && (b | ((b + 1) as u8)) == (b | (1u8 << t)))) by (bit_vector);
    assert forall|j: u8| j < t implies #[trigger] bit_set(b, j) by {
        assert((x >> j) & 1u8 == 0u8);
        assert(((x >> t) & 1u8 == 1u8 && t < 8u8 && j < t && (x >> j) & 1u8 == 0u8 && x == !b & ((b
            + 1) as u8)) ==> (b >> j) & 1u8 == 1u8) by (bit_vector);
    }
}

} // verus!
