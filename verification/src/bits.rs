use vstd::prelude::*;

verus! {

/// Whether bit `i` of `x` is set, for an index held in a machine word.
pub open spec fn bit_at(x: u128, i: u8) -> bool {
    (x >> i) & 1u128 == 1u128
}

/// Whether bit `i` of `x` is set. No index outside `0..128` is ever set.
pub open spec fn is_set(x: u128, i: int) -> bool {
    0 <= i < 128 && bit_at(x, i as u8)
}

/// One bit of a union, an intersection, a symmetric difference, a complement, and of zero.
pub proof fn lemma_bit_ops(a: u128, b: u128, i: u8)
    by (bit_vector)
    requires
        i < 128,
    ensures
        bit_at(a | b, i) == (bit_at(a, i) || bit_at(b, i)),
        bit_at(a & b, i) == (bit_at(a, i) && bit_at(b, i)),
        bit_at(a ^ b, i) == (bit_at(a, i) != bit_at(b, i)),
        bit_at(!a, i) == !bit_at(a, i),
        !bit_at(0u128, i),
{
}

/// One bit of a word shifted left or right, and of a word with a single bit.
pub proof fn lemma_bit_shifts(a: u128, k: u8, i: u8)
    by (bit_vector)
    requires
        i < 128,
        k < 128,
    ensures
        bit_at(a << k, i) == (i >= k && bit_at(a, (i - k) as u8)),
        bit_at(a >> k, i) == (i + k < 128 && bit_at(a, (i + k) as u8)),
        bit_at(1u128 << k, i) == (i == k),
{
}

/// Index of the lowest set bit of `x`, found by halving the window; 127 when `x` is zero.
pub open spec fn lsb_index(x: u128) -> u8 {
    let n6: u8 = if x & 0xFFFF_FFFF_FFFF_FFFFu128 == 0 { 64u8 } else { 0u8 };
    let x6: u128 = x >> n6;
    let n5: u8 = if x6 & 0xFFFF_FFFFu128 == 0 { 32u8 } else { 0u8 };
    let x5: u128 = x6 >> n5;
    let n4: u8 = if x5 & 0xFFFFu128 == 0 { 16u8 } else { 0u8 };
    let x4: u128 = x5 >> n4;
    let n3: u8 = if x4 & 0xFFu128 == 0 { 8u8 } else { 0u8 };
    let x3: u128 = x4 >> n3;
    let n2: u8 = if x3 & 0xFu128 == 0 { 4u8 } else { 0u8 };
    let x2: u128 = x3 >> n2;
    let n1: u8 = if x2 & 0x3u128 == 0 { 2u8 } else { 0u8 };
    let x1: u128 = x2 >> n1;
    let n0: u8 = if x1 & 0x1u128 == 0 { 1u8 } else { 0u8 };
    (n6 + n5 + n4 + n3 + n2 + n1 + n0) as u8
}

/// Index of the highest set bit of `x`, found by halving the window; 0 when `x` is zero.
pub open spec fn msb_index(x: u128) -> u8 {
    let n6: u8 = if x >> 64u8 != 0 { 64u8 } else { 0u8 };
    let x6: u128 = x >> n6;
    let n5: u8 = if x6 >> 32u8 != 0 { 32u8 } else { 0u8 };
    let x5: u128 = x6 >> n5;
    let n4: u8 = if x5 >> 16u8 != 0 { 16u8 } else { 0u8 };
    let x4: u128 = x5 >> n4;
    let n3: u8 = if x4 >> 8u8 != 0 { 8u8 } else { 0u8 };
    let x3: u128 = x4 >> n3;
    let n2: u8 = if x3 >> 4u8 != 0 { 4u8 } else { 0u8 };
    let x2: u128 = x3 >> n2;
    let n1: u8 = if x2 >> 2u8 != 0 { 2u8 } else { 0u8 };
    let x1: u128 = x2 >> n1;
    let n0: u8 = if x1 >> 1u8 != 0 { 1u8 } else { 0u8 };
    (n6 + n5 + n4 + n3 + n2 + n1 + n0) as u8
}

/// The lowest set bit of a non-zero word is set, and no bit below it is.
pub proof fn lemma_lsb_index(x: u128, j: u8)
    by (bit_vector)
    requires
        x != 0,
    ensures
        lsb_index(x) < 128,
        bit_at(x, lsb_index(x)),
        j < lsb_index(x) ==> !bit_at(x, j),
{
}

/// The highest set bit of a non-zero word is set, and no bit above it is.
pub proof fn lemma_msb_index(x: u128, j: u8)
    by (bit_vector)
    requires
        x != 0,
    ensures
        msb_index(x) < 128,
        bit_at(x, msb_index(x)),
        msb_index(x) < j < 128 ==> !bit_at(x, j),
{
}

/// One bit of `x & (x - 1)`: that of `x`, but for the lowest set bit, which is gone.
pub proof fn lemma_clear_lowest(x: u128, i: u8)
    by (bit_vector)
    requires
        x != 0,
        i < 128,
    ensures
        bit_at(x & ((x - 1) as u128), i) == (bit_at(x, i) && i != lsb_index(x)),
{
}

/// Two different words differ in some bit.
pub proof fn lemma_xor_nonzero(a: u128, b: u128)
    by (bit_vector)
    requires
        a != b,
    ensures
        a ^ b != 0,
{
}

/// A word within another is not the larger one, and a word without high bits is small.
pub proof fn lemma_word_order(x: u128, y: u128)
    by (bit_vector)
    ensures
        x & !y == 0 ==> x <= y,
        x >> 81u8 == 0 ==> x < 0x2_0000_0000_0000_0000_0000u128,
{
}

/// Reading a bit of a union, an intersection, a symmetric difference or a complement.
pub proof fn lemma_set_ops(a: u128, b: u128)
    ensures
        forall|i: int| #[trigger] is_set(a | b, i) == (is_set(a, i) || is_set(b, i)),
        forall|i: int| #[trigger] is_set(a & b, i) == (is_set(a, i) && is_set(b, i)),
        forall|i: int| #[trigger] is_set(a ^ b, i) == (is_set(a, i) != is_set(b, i)),
        forall|i: int| #[trigger] is_set(!a, i) == (0 <= i < 128 && !is_set(a, i)),
{
    assert forall|i: int| #[trigger] is_set(a | b, i) == (is_set(a, i) || is_set(b, i)) by {
        if 0 <= i < 128 {
            lemma_bit_ops(a, b, i as u8);
        }
    }
    assert forall|i: int| #[trigger] is_set(a & b, i) == (is_set(a, i) && is_set(b, i)) by {
        if 0 <= i < 128 {
            lemma_bit_ops(a, b, i as u8);
        }
    }
    assert forall|i: int| #[trigger] is_set(a ^ b, i) == (is_set(a, i) != is_set(b, i)) by {
        if 0 <= i < 128 {
            lemma_bit_ops(a, b, i as u8);
        }
    }
    assert forall|i: int| #[trigger] is_set(!a, i) == (0 <= i < 128 && !is_set(a, i)) by {
        if 0 <= i < 128 {
            lemma_bit_ops(a, b, i as u8);
        }
    }
}

/// The zero word has no bit.
pub proof fn lemma_set_zero()
    ensures
        forall|i: int| !#[trigger] is_set(0u128, i),
{
    assert forall|i: int| !#[trigger] is_set(0u128, i) by {
        if 0 <= i < 128 {
            lemma_bit_ops(0, 0, i as u8);
        }
    }
}

/// Reading a bit of a word shifted left: bits move up by `k`, and those pushed past 127 are lost.
pub proof fn lemma_set_shl(a: u128, k: u8)
    requires
        k < 128,
    ensures
        forall|i: int| #[trigger] is_set(a << k, i) == (k <= i < 128 && is_set(a, i - k)),
{
    assert forall|i: int| #[trigger] is_set(a << k, i) == (k <= i < 128 && is_set(a, i - k)) by {
        if 0 <= i < 128 {
            lemma_bit_shifts(a, k, i as u8);
        }
    }
}

/// Reading a bit of a word shifted right: bits move down by `k`.
pub proof fn lemma_set_shr(a: u128, k: u8)
    requires
        k < 128,
    ensures
        forall|i: int| #[trigger] is_set(a >> k, i) == (0 <= i && is_set(a, i + k)),
{
    assert forall|i: int| #[trigger] is_set(a >> k, i) == (0 <= i && is_set(a, i + k)) by {
        if 0 <= i < 128 {
            lemma_bit_shifts(a, k, i as u8);
        }
    }
}

/// The word `1 << k` holds bit `k` and no other.
pub proof fn lemma_set_single(k: u8)
    requires
        k < 128,
    ensures
        forall|i: int| #[trigger] is_set(1u128 << k, i) == (i == k),
{
    assert forall|i: int| #[trigger] is_set(1u128 << k, i) == (i == k) by {
        if 0 <= i < 128 {
            lemma_bit_shifts(0, k, i as u8);
        }
    }
}

/// Two words with the same bits are equal.
pub proof fn lemma_set_ext(a: u128, b: u128)
    requires
        forall|i: int| 0 <= i < 128 ==> is_set(a, i) == is_set(b, i),
    ensures
        a == b,
{
    if a != b {
        let x = a ^ b;
        lemma_xor_nonzero(a, b);
        lemma_lsb_index(x, 0);
        let w = lsb_index(x);
        lemma_bit_ops(a, b, w);
        assert(is_set(a, w as int) != is_set(b, w as int));
    }
}

/// A word without bits is zero.
pub proof fn lemma_no_bits_is_zero(a: u128)
    requires
        forall|i: int| 0 <= i < 128 ==> !is_set(a, i),
    ensures
        a == 0,
{
    lemma_set_zero();
    lemma_set_ext(a, 0);
}

/// A word whose bits all belong to another word is not the larger of the two.
pub proof fn lemma_set_subset_le(x: u128, y: u128)
    requires
        forall|i: int| is_set(x, i) ==> is_set(y, i),
    ensures
        x <= y,
{
    lemma_set_ops(y, y);
    lemma_set_ops(x, !y);
    lemma_no_bits_is_zero(x & !y);
    lemma_word_order(x, y);
}

/// A word with no bit from 81 up is a number of at most 81 bits.
pub proof fn lemma_set_no_bits_above(x: u128)
    requires
        forall|i: int| 81 <= i ==> !is_set(x, i),
    ensures
        x < 0x2_0000_0000_0000_0000_0000u128,
{
    lemma_set_shr(x, 81);
    lemma_no_bits_is_zero(x >> 81u8);
    lemma_word_order(x, x);
}

/// The lowest set bit of a non-zero word: it is set, and nothing below it is.
pub proof fn lemma_set_lsb(x: u128)
    requires
        x != 0,
    ensures
        is_set(x, lsb_index(x) as int),
        forall|j: int| 0 <= j < lsb_index(x) ==> !#[trigger] is_set(x, j),
{
    lemma_lsb_index(x, 0);
    assert forall|j: int| 0 <= j < lsb_index(x) implies !#[trigger] is_set(x, j) by {
        lemma_lsb_index(x, j as u8);
    }
}

/// The highest set bit of a non-zero word: it is set, and nothing above it is.
pub proof fn lemma_set_msb(x: u128)
    requires
        x != 0,
    ensures
        is_set(x, msb_index(x) as int),
        forall|j: int| msb_index(x) < j ==> !#[trigger] is_set(x, j),
{
    lemma_msb_index(x, 0);
    assert forall|j: int| msb_index(x) < j implies !#[trigger] is_set(x, j) by {
        if j < 128 {
            lemma_msb_index(x, j as u8);
        }
    }
}

/// `x & (x - 1)` is `x` without its lowest set bit.
pub proof fn lemma_set_clear_lowest(x: u128)
    requires
        x != 0,
    ensures
        forall|i: int| #[trigger]
            is_set(x & ((x - 1) as u128), i) == (is_set(x, i) && i != lsb_index(x)),
{
    assert forall|i: int| #[trigger]
        is_set(x & ((x - 1) as u128), i) == (is_set(x, i) && i != lsb_index(x)) by {
        if 0 <= i < 128 {
            lemma_clear_lowest(x, i as u8);
        }
    }
}

} // verus!
