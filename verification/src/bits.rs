//! Elementary bit access over the 64-bit board planes and the packed 8-bit
//! line slices, together with the bit-level lemmas the rest of the engine
//! builds on.

use vstd::prelude::*;

verus! {

/// Bit `i` of a 64-bit plane, for a machine-width index.
pub open spec fn bit_u64(p: u64, i: u64) -> bool {
    i < 64 && (p >> i) & 1u64 == 1u64
}

/// Bit `i` of a packed 8-bit line, for a machine-width index.
pub open spec fn bit_u8(v: u8, i: u8) -> bool {
    i < 8 && (v >> i) & 1u8 == 1u8
}

/// Bit `i` of a plane over mathematical integers; false outside [0, 64).
pub open spec fn plane_bit(p: u64, i: int) -> bool {
    0 <= i < 64 && bit_u64(p, i as u64)
}

/// Bit `i` of a packed line over mathematical integers; false outside [0, 8).
pub open spec fn line_bit(v: u8, i: int) -> bool {
    0 <= i < 8 && bit_u8(v, i as u8)
}

/// Test one bit of a 64-bit plane.
#[inline]
pub fn get_bit(data: u64, pos: u64) -> (r: bool)
    requires
        pos < 64,
    ensures
        r == plane_bit(data, pos as int),
{
    proof {
        assert((data & (1u64 << pos) != 0) == ((data >> pos) & 1u64 == 1u64)) by (bit_vector)
            requires pos < 64;
    }
    data & (1u64 << pos) != 0
}

/// Set one bit of a 64-bit plane in place.
#[inline]
pub fn set_bit(data: &mut u64, pos: u64)
    requires
        pos < 64,
    ensures
        *final(data) == *old(data) | (1u64 << pos),
{
    *data = *data | (1u64 << pos);
}

/// Test one bit of a packed 8-bit line; offsets outside the line read as empty.
#[inline]
pub fn line_bit_at(v: u8, i: i32) -> (r: bool)
    ensures
        r == line_bit(v, i as int),
{
    if 0 <= i && i < 8 {
        let iu = i as u8;
        proof {
            assert((v & (1u8 << iu) != 0) == ((v >> iu) & 1u8 == 1u8)) by (bit_vector)
                requires iu < 8;
        }
        v & (1u8 << iu) != 0
    } else {
        false
    }
}

/// A bitwise or of planes holds the union of their bits.
pub proof fn lemma_u64_or(p: u64, q: u64)
    ensures
        forall|i: int| #[trigger] plane_bit(p | q, i) == (plane_bit(p, i) || plane_bit(q, i)),
{
    assert(forall|i: u64| i < 64 ==> (#[trigger] bit_u64(p | q, i) == (bit_u64(p, i) || bit_u64(
        q,
        i,
    )))) by (bit_vector);
    assert forall|i: int| #[trigger] plane_bit(p | q, i) == (plane_bit(p, i) || plane_bit(q, i)) by {
        if 0 <= i < 64 {
            assert(bit_u64(p | q, i as u64) == (bit_u64(p, i as u64) || bit_u64(q, i as u64)));
        }
    }
}

/// Masking a plane with the complement of another clears exactly the latter's bits.
pub proof fn lemma_u64_and_not(p: u64, q: u64)
    ensures
        forall|i: int| #[trigger] plane_bit(p & !q, i) == (plane_bit(p, i) && !plane_bit(q, i)),
{
    assert(forall|i: u64| i < 64 ==> (#[trigger] bit_u64(p & !q, i) == (bit_u64(p, i) && !bit_u64(
        q,
        i,
    )))) by (bit_vector);
    assert forall|i: int| #[trigger] plane_bit(p & !q, i) == (plane_bit(p, i) && !plane_bit(
        q,
        i,
    )) by {
        if 0 <= i < 64 {
            assert(bit_u64(p & !q, i as u64) == (bit_u64(p, i as u64) && !bit_u64(q, i as u64)));
        }
    }
}

/// A one-bit plane has exactly its one bit.
pub proof fn lemma_u64_single_bit(j: u64)
    requires
        j < 64,
    ensures
        forall|i: int| #[trigger] plane_bit(1u64 << j, i) == (i == j as int),
{
    assert(forall|i: u64| i < 64 ==> (#[trigger] bit_u64(1u64 << j, i) == (i == j))) by (bit_vector)
        requires j < 64;
    assert forall|i: int| #[trigger] plane_bit(1u64 << j, i) == (i == j as int) by {
        if 0 <= i < 64 {
            assert(bit_u64(1u64 << j, i as u64) == (i as u64 == j));
        }
    }
}

/// Planes that agree on every bit are equal.
pub proof fn lemma_u64_bit_ext(p: u64, q: u64)
    requires
        forall|i: int| plane_bit(p, i) == plane_bit(q, i),
    ensures
        p == q,
{
    lemma_u64_shr_ext(p, q, 0);
    assert(p >> 0u64 == p) by (bit_vector);
    assert(q >> 0u64 == q) by (bit_vector);
}

/// The tails of two planes, from bit `n` up, agree once every bit does.
proof fn lemma_u64_shr_ext(p: u64, q: u64, n: u64)
    requires
        n < 64,
        forall|i: int| plane_bit(p, i) == plane_bit(q, i),
    ensures
        p >> n == q >> n,
    decreases 64 - n,
{
    assert(plane_bit(p, n as int) == plane_bit(q, n as int));
    if n == 63 {
        assert(p >> 63u64 == q >> 63u64) by (bit_vector)
            requires ((p >> 63u64) & 1u64 == 1u64) == ((q >> 63u64) & 1u64 == 1u64);
    } else {
        let m: u64 = (n + 1) as u64;
        lemma_u64_shr_ext(p, q, m);
        assert(p >> n == q >> n) by (bit_vector)
            requires
                n < 63,
                m == (n + 1) as u64,
                p >> m == q >> m,
                ((p >> n) & 1u64 == 1u64) == ((q >> n) & 1u64 == 1u64),
        ;
    }
}

/// The empty plane has no bits set.
pub proof fn lemma_u64_zero()
    ensures
        forall|i: int| !plane_bit(0u64, i),
{
    assert(forall|i: u64| i < 64 ==> !(#[trigger] bit_u64(0u64, i))) by (bit_vector);
    assert forall|i: int| !plane_bit(0u64, i) by {
        if 0 <= i < 64 {
            assert(!bit_u64(0u64, i as u64));
        }
    }
}

/// The empty line has no bits set.
pub proof fn lemma_u8_zero()
    ensures
        forall|i: int| !line_bit(0u8, i),
{
    assert(forall|i: u8| i < 8 ==> !(#[trigger] bit_u8(0u8, i))) by (bit_vector);
    assert forall|i: int| !line_bit(0u8, i) by {
        if 0 <= i < 8 {
            assert(!bit_u8(0u8, i as u8));
        }
    }
}

/// Setting one bit of a line keeps the others unchanged.
pub proof fn lemma_u8_set_bit(v: u8, j: u8)
    requires
        j < 8,
    ensures
        forall|i: int| #[trigger] line_bit(v | (1u8 << j), i) == (line_bit(v, i) || i == j as int),
{
    assert(forall|i: u8| i < 8 ==> (#[trigger] bit_u8(v | (1u8 << j), i) == (bit_u8(v, i) || i
        == j))) by (bit_vector)
        requires j < 8;
    assert forall|i: int| #[trigger] line_bit(v | (1u8 << j), i) == (line_bit(v, i) || i
        == j as int) by {
        if 0 <= i < 8 {
            assert(bit_u8(v | (1u8 << j), i as u8) == (bit_u8(v, i as u8) || i as u8 == j));
        }
    }
}

} // verus!
