//! Facts about the 27 low bits of a `u32`, one bit for each cell of the cube.

use vstd::prelude::*;

verus! {

/// One more than the largest mask that has only bits 0 to 26 set.
pub const MASK_LIMIT: u32 = 0x800_0000;

/// Bit `i` of `m` is set, and `i` numbers one of the 27 cells.
pub open spec fn bit_set(m: u32, i: int) -> bool {
    0 <= i < 27 && (m >> (i as u32)) & 1 == 1
}

/// Testing a bit with a one-bit mask is reading that bit.
pub proof fn lemma_bit_test(m: u32, i: u32)
    requires
        i < 27,
    ensures
        (m & (1u32 << i) != 0) == bit_set(m, i as int),
{
    assert((m & (1u32 << i) != 0) == ((m >> i) & 1 == 1)) by (bit_vector)
        requires
            i < 27,
    ;
}

/// Setting bit `i` changes bit `i` and no other, and keeps a mask below the
/// limit.
pub proof fn lemma_bit_or_one(m: u32, i: u32, j: int)
    requires
        i < 27,
    ensures
        bit_set(m | (1u32 << i), j) == (bit_set(m, j) || i == j),
        m < MASK_LIMIT ==> (m | (1u32 << i)) < MASK_LIMIT,
{
    if 0 <= j < 27 {
        let k = j as u32;
        assert((((m | (1u32 << i)) >> k) & 1 == 1) == (((m >> k) & 1 == 1) || i == k))
            by (bit_vector)
            requires
                i < 27,
                k < 27,
        ;
    }
    assert(m < 0x800_0000u32 ==> (m | (1u32 << i)) < 0x800_0000u32) by (bit_vector)
        requires
            i < 27,
    ;
}

/// A bit of a union is set where it is set in either part; a bit of an
/// intersection, where it is set in both.
pub proof fn lemma_bit_or_and(a: u32, b: u32, j: int)
    ensures
        bit_set(a | b, j) == (bit_set(a, j) || bit_set(b, j)),
        bit_set(a & b, j) == (bit_set(a, j) && bit_set(b, j)),
        !bit_set(0, j),
        a < MASK_LIMIT && b < MASK_LIMIT ==> (a | b) < MASK_LIMIT,
        a < MASK_LIMIT ==> (a & b) < MASK_LIMIT,
{
    if 0 <= j < 27 {
        let k = j as u32;
        assert((((a | b) >> k) & 1 == 1) == (((a >> k) & 1 == 1) || ((b >> k) & 1 == 1)))
            by (bit_vector);
        assert((((a & b) >> k) & 1 == 1) == (((a >> k) & 1 == 1) && ((b >> k) & 1 == 1)))
            by (bit_vector);
        assert((0u32 >> k) & 1 == 0) by (bit_vector);
    }
    assert(a < 0x800_0000u32 && b < 0x800_0000u32 ==> (a | b) < 0x800_0000u32) by (bit_vector);
    assert(a < 0x800_0000u32 ==> (a & b) < 0x800_0000u32) by (bit_vector);
}

/// A union with a part that is not empty and shares no bit is larger.
pub proof fn lemma_disjoint_union_grows(a: u32, b: u32)
    requires
        a & b == 0,
        b != 0,
    ensures
        (a | b) > a,
{
    assert(a & b == 0 && b != 0 ==> (a | b) > a) by (bit_vector);
}

/// Two masks joined to a third give the same union in either order, and
/// they are disjoint from what they are joined to in one order exactly when
/// they are in the other.
pub proof fn lemma_union_either_order(h: u32, a: u32, b: u32)
    ensures
        (h | a) | b == (h | b) | a,
        (h & a == 0 && (h | a) & b == 0) <==> (h & b == 0 && (h | b) & a == 0),
{
    assert((h | a) | b == (h | b) | a) by (bit_vector);
    assert((h & a == 0 && (h | a) & b == 0) <==> (h & b == 0 && (h | b) & a == 0))
        by (bit_vector);
}

/// What shares no bit with a union shares none with either part.
pub proof fn lemma_disjoint_from_union(a: u32, b: u32, c: u32)
    ensures
        (a | b) & c == 0 <==> a & c == 0 && b & c == 0,
{
    assert((a | b) & c == 0 <==> a & c == 0 && b & c == 0) by (bit_vector);
}

proof fn lemma_high_parts_agree(a: u32, b: u32, n: u32)
    requires
        a < MASK_LIMIT,
        b < MASK_LIMIT,
        n <= 27,
        forall|j: int| bit_set(a, j) == bit_set(b, j),
    ensures
        a >> n == b >> n,
    decreases 27 - n,
{
    if n == 27 {
        assert(a >> 27u32 == 0) by (bit_vector)
            requires
                a < 0x800_0000u32,
        ;
        assert(b >> 27u32 == 0) by (bit_vector)
            requires
                b < 0x800_0000u32,
        ;
    } else {
        let n1: u32 = (n + 1) as u32;
        lemma_high_parts_agree(a, b, n1);
        assert(bit_set(a, n as int) == bit_set(b, n as int));
        assert(a >> n == b >> n) by (bit_vector)
            requires
                n < 27,
                n1 == n + 1,
                a >> n1 == b >> n1,
                ((a >> n) & 1 == 1) == ((b >> n) & 1 == 1),
        ;
    }
}

/// Two masks below the limit with the same bits are the same mask.
pub proof fn lemma_bits_extensional(a: u32, b: u32)
    requires
        a < MASK_LIMIT,
        b < MASK_LIMIT,
        forall|j: int| bit_set(a, j) == bit_set(b, j),
    ensures
        a == b,
{
    lemma_high_parts_agree(a, b, 0);
    assert(a >> 0u32 == a) by (bit_vector);
    assert(b >> 0u32 == b) by (bit_vector);
}

/// Two masks below the limit intersect exactly when some bit is set in both.
pub proof fn lemma_overlap(a: u32, b: u32)
    requires
        a < MASK_LIMIT,
    ensures
        (a & b != 0) <==> exists|j: int| bit_set(a, j) && bit_set(b, j),
{
    if exists|j: int| bit_set(a, j) && bit_set(b, j) {
        let j = choose|j: int| bit_set(a, j) && bit_set(b, j);
        lemma_bit_or_and(a, b, j);
    } else {
        assert forall|j: int| bit_set(a & b, j) == bit_set(0, j) by {
            lemma_bit_or_and(a, b, j);
        }
        lemma_bit_or_and(a, b, 0);
        lemma_bits_extensional(a & b, 0);
    }
}

/// The mask whose bit `j`, for `j` below `n`, is set exactly when `wanted(j)`.
pub open spec fn mask_of(wanted: spec_fn(int) -> bool, n: int) -> u32
    decreases n,
{
    if n <= 0 {
        0
    } else if wanted(n - 1) {
        mask_of(wanted, n - 1) | (1u32 << ((n - 1) as u32))
    } else {
        mask_of(wanted, n - 1)
    }
}

/// `mask_of` sets the wanted bits below `n` and no others.
pub proof fn lemma_mask_of(wanted: spec_fn(int) -> bool, n: int)
    requires
        0 <= n <= 27,
    ensures
        mask_of(wanted, n) < MASK_LIMIT,
        forall|j: int| bit_set(mask_of(wanted, n), j) == (0 <= j < n && wanted(j)),
    decreases n,
{
    if n == 0 {
        assert forall|j: int| !bit_set(mask_of(wanted, n), j) by {
            lemma_bit_or_and(0, 0, j);
        }
    } else {
        lemma_mask_of(wanted, n - 1);
        let rest = mask_of(wanted, n - 1);
        if wanted(n - 1) {
            assert forall|j: int|
                bit_set(mask_of(wanted, n), j) == (0 <= j < n && wanted(j)) by {
                lemma_bit_or_one(rest, (n - 1) as u32, j);
            }
            lemma_bit_or_one(rest, (n - 1) as u32, 0);
        }
    }
}

} // verus!
