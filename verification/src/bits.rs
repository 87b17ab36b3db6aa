//! Bit-index reasoning for the occupancy bitmaps of the segregated free
//! lists: which bit of a mask is set, and how setting or clearing one bit
//! changes the others.

use vstd::prelude::*;

verus! {

/// True when bit `i` of the 64-bit mask `m` is set.
pub open spec fn bit64(m: u64, i: u32) -> bool {
    i < 64 && ((m >> (i as u64)) & 1u64) == 1u64
}

/// True when bit `i` of the 32-bit mask `m` is set.
pub open spec fn bit32(m: u32, i: u32) -> bool {
    i < 32 && ((m >> i) & 1u32) == 1u32
}

/// Setting bit `i` of `m` leaves every other bit as it was and sets bit `i`.
pub proof fn lemma_bit64_set(m: u64, i: u32)
    requires
        i < 64,
    ensures
        forall|j: u32|
            j < 64 ==> (#[trigger] bit64(m | (1u64 << (i as u64)), j) <==> (bit64(m, j) || j
                == i)),
{
    assert forall|j: u32| j < 64 implies (#[trigger] bit64(m | (1u64 << (i as u64)), j) <==> (
    bit64(m, j) || j == i)) by {
        assert(((m | (1u64 << (i as u64))) >> (j as u64)) & 1u64 == 1u64 <==> ((m >> (j as u64))
            & 1u64 == 1u64 || i == j)) by (bit_vector)
            requires
                i < 64 && j < 64,
        ;
    }
}

/// Clearing bit `i` of `m` leaves every other bit as it was and clears bit `i`.
pub proof fn lemma_bit64_clear(m: u64, i: u32)
    requires
        i < 64,
    ensures
        forall|j: u32|
            j < 64 ==> (#[trigger] bit64(m & !(1u64 << (i as u64)), j) <==> (bit64(m, j) && j
                != i)),
{
    assert forall|j: u32| j < 64 implies (#[trigger] bit64(m & !(1u64 << (i as u64)), j) <==> (
    bit64(m, j) && j != i)) by {
        assert(((m & !(1u64 << (i as u64))) >> (j as u64)) & 1u64 == 1u64 <==> ((m >> (j as u64))
            & 1u64 == 1u64 && i != j)) by (bit_vector)
            requires
                i < 64 && j < 64,
        ;
    }
}

/// Setting bit `i` of a 32-bit mask, bit by bit.
pub proof fn lemma_bit32_set(m: u32, i: u32)
    requires
        i < 32,
    ensures
        forall|j: u32|
            j < 32 ==> (#[trigger] bit32(m | (1u32 << i), j) <==> (bit32(m, j) || j == i)),
{
    assert forall|j: u32| j < 32 implies (#[trigger] bit32(m | (1u32 << i), j) <==> (bit32(m, j)
        || j == i)) by {
        assert(((m | (1u32 << i)) >> j) & 1u32 == 1u32 <==> ((m >> j) & 1u32 == 1u32 || i == j))
            by (bit_vector)
            requires
                i < 32 && j < 32,
        ;
    }
}

/// Clearing bit `i` of a 32-bit mask, bit by bit.
pub proof fn lemma_bit32_clear(m: u32, i: u32)
    requires
        i < 32,
    ensures
        forall|j: u32|
            j < 32 ==> (#[trigger] bit32(m & !(1u32 << i), j) <==> (bit32(m, j) && j != i)),
{
    assert forall|j: u32| j < 32 implies (#[trigger] bit32(m & !(1u32 << i), j) <==> (bit32(m, j)
        && j != i)) by {
        assert(((m & !(1u32 << i)) >> j) & 1u32 == 1u32 <==> ((m >> j) & 1u32 == 1u32 && i != j))
            by (bit_vector)
            requires
                i < 32 && j < 32,
        ;
    }
}

/// A mask is zero exactly when none of its bits is set.
pub proof fn lemma_bit32_zero(m: u32)
    ensures
        m == 0 <==> (forall|j: u32| j < 32 ==> !#[trigger] bit32(m, j)),
{
    if m == 0 {
        assert forall|j: u32| j < 32 implies !#[trigger] bit32(m, j) by {
            assert((0u32 >> j) & 1u32 == 0u32) by (bit_vector);
        }
    } else {
        let tz = vstd::std_specs::bits::u32_trailing_zeros(m);
        vstd::std_specs::bits::axiom_u32_trailing_zeros(m);
        assert(bit32(m, tz));
    }
}

/// Widening a 32-bit mask to 64 bits keeps its bits in place and adds none.
pub proof fn lemma_bit32_widen(m: u32)
    ensures
        forall|j: u32| j < 32 ==> (#[trigger] bit64(m as u64, j) <==> bit32(m, j)),
        forall|j: u32| 32 <= j < 64 ==> !#[trigger] bit64(m as u64, j),
{
    assert forall|j: u32| j < 32 implies (#[trigger] bit64(m as u64, j) <==> bit32(m, j)) by {
        assert(((m as u64) >> (j as u64)) & 1u64 == 1u64 <==> (m >> j) & 1u32 == 1u32)
            by (bit_vector)
            requires
                j < 32,
        ;
    }
    assert forall|j: u32| 32 <= j < 64 implies !#[trigger] bit64(m as u64, j) by {
        assert(((m as u64) >> (j as u64)) & 1u64 == 0u64) by (bit_vector)
            requires
                32 <= j < 64,
        ;
    }
}

} // verus!
