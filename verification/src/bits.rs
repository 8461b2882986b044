//! Verified helpers for reading and writing single bits and bit ranges of a
//! `u16` word, the representation behind both the leaf bitmap and the cascade
//! summary mask.

use vstd::prelude::*;
use vstd::std_specs::bits::axiom_u16_trailing_zeros;
use vstd::std_specs::bits::u16_trailing_zeros;

verus! {

/// True iff bit `i` of `x` is set; indices at or above the word width count
/// as clear.
pub open spec fn bit16(x: u16, i: u16) -> bool {
    i < 16 && (x >> i) & 1u16 == 1u16
}

/// A word is zero exactly when none of its bits is set.
pub proof fn lemma_bit16_zero(x: u16)
    ensures
        (x == 0) <==> (forall|j: u16| !bit16(x, j)),
{
    axiom_u16_trailing_zeros(x);
    if x != 0 {
        let tz = u16_trailing_zeros(x) as u16;
        assert(bit16(x, tz));
    }
    assert(x == 0 ==> forall|j: u16| !(#[trigger] bit16(x, j))) by (bit_vector);
}

/// The lowest set bit of a non-zero word: `trailing_zeros` names a set bit
/// and every position below it is clear.
pub proof fn lemma_lowest_bit16(x: u16)
    requires
        x != 0,
    ensures
        u16_trailing_zeros(x) < 16,
        bit16(x, u16_trailing_zeros(x) as u16),
        forall|j: u16| j < u16_trailing_zeros(x) ==> !(#[trigger] bit16(x, j)),
{
    axiom_u16_trailing_zeros(x);
}

/// Reads bit `i` of `x`.
pub fn get_bit16(x: u16, i: u16) -> (r: bool)
    requires
        i < 16,
    ensures
        r == bit16(x, i),
{
    (x >> i) & 1u16 == 1u16
}

/// Returns `x` with bit `i` forced to `v` and every other bit unchanged.
pub fn set_bit16(x: u16, i: u16, v: bool) -> (r: u16)
    requires
        i < 16,
    ensures
        forall|j: u16| #![trigger bit16(r, j)] bit16(r, j) <==> (if j == i {
            v
        } else {
            bit16(x, j)
        }),
{
    if v {
        let r = x | (1u16 << i);
        proof {
            assert(forall|j: u16|
                i < 16 ==> ((#[trigger] bit16(x | (1u16 << i), j)) <==> (j == i || bit16(x, j))))
                by (bit_vector);
        }
        r
    } else {
        let r = x & !(1u16 << i);
        proof {
            assert(forall|j: u16|
                i < 16 ==> ((#[trigger] bit16(x & !(1u16 << i), j)) <==> (j != i && bit16(x, j))))
                by (bit_vector);
        }
        r
    }
}

/// A mask whose set bits are exactly the positions in `start..end`.
pub fn mask16(start: u16, end: u16) -> (r: u16)
    requires
        start <= end <= 16,
    ensures
        forall|j: u16| #![trigger bit16(r, j)] bit16(r, j) <==> (start <= j < end),
{
    if start == end {
        proof {
            assert(forall|j: u16| !(#[trigger] bit16(0u16, j))) by (bit_vector);
        }
        0u16
    } else {
        let r = (0xffffu16 >> (16 - (end - start))) << start;
        proof {
            assert(forall|j: u16|
                start < end <= 16 ==> ((#[trigger] bit16(
                    (0xffffu16 >> (16 - (end - start)) as u16) << start,
                    j,
                )) <==> (start <= j < end))) by (bit_vector)
                requires
                    start < end <= 16,
            ;
        }
        r
    }
}

/// Sets every bit in the mask positions: bitwise or.
pub fn or16(x: u16, m: u16) -> (r: u16)
    ensures
        forall|j: u16| #![trigger bit16(r, j)] bit16(r, j) <==> (bit16(x, j) || bit16(m, j)),
{
    let r = x | m;
    proof {
        assert(forall|j: u16|
            (#[trigger] bit16(x | m, j)) <==> (bit16(x, j) || bit16(m, j))) by (bit_vector);
    }
    r
}

/// Clears every bit in the mask positions: bitwise and-not.
pub fn and_not16(x: u16, m: u16) -> (r: u16)
    ensures
        forall|j: u16| #![trigger bit16(r, j)] bit16(r, j) <==> (bit16(x, j) && !bit16(m, j)),
{
    let r = x & !m;
    proof {
        assert(forall|j: u16|
            (#[trigger] bit16(x & !m, j)) <==> (bit16(x, j) && !bit16(m, j))) by (bit_vector);
    }
    r
}

/// True iff `x` and `m` share no set bit.
pub fn disjoint16(x: u16, m: u16) -> (r: bool)
    ensures
        r <==> (forall|j: u16| #![trigger bit16(x, j)] #![trigger bit16(m, j)] !(bit16(x, j)
            && bit16(m, j))),
{
    let r = x & m == 0;
    proof {
        lemma_bit16_zero(x & m);
        assert(forall|j: u16|
            (#[trigger] bit16(x & m, j)) <==> (bit16(x, j) && bit16(m, j))) by (bit_vector);
        if r {
            assert forall|j: u16| !(bit16(x, j) && bit16(m, j)) by {
                assert(!bit16(x & m, j));
            }
        } else {
            let w = choose|j: u16| bit16(x & m, j);
            assert(bit16(x, w) && bit16(m, w));
        }
    }
    r
}

} // verus!
