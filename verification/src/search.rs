//! Generic search for an aligned contiguous run of free slots.
//!
//! Both algorithms drive a node only through [`BitAlloc::next`], so they work
//! unchanged on a bare leaf or on an arbitrarily deep cascade.

use crate::interface::{
    cap_fits, contiguous_result, free_run, no_placement, no_placement_below, placement, BitAlloc,
};
use vstd::arithmetic::div_mod::{lemma_fundamental_div_mod, lemma_mod_bound, lemma_mod_multiples_basic};
use vstd::arithmetic::power2::{lemma_pow2_pos, pow2};
use vstd::bits::{lemma_usize_pow2_no_overflow, lemma_usize_shl_is_mul};
use vstd::prelude::*;

verus! {

/// Rounds `base` up to the next multiple of `2^align_log2`.
pub fn align_up_log2(base: usize, align_log2: usize) -> (r: usize)
    requires
        align_log2 < usize::BITS,
        base + pow2(align_log2 as nat) <= usize::MAX,
    ensures
        r as int % (pow2(align_log2 as nat) as int) == 0,
        base <= r < base + pow2(align_log2 as nat),
        forall|b2: int|
            #[trigger] (b2 % (pow2(align_log2 as nat) as int)) == 0 && b2 < r ==> b2 < base,
{
    proof {
        lemma_usize_pow2_no_overflow(align_log2 as nat);
        lemma_usize_shl_is_mul(1, align_log2 as usize);
        lemma_pow2_pos(align_log2 as nat);
    }
    let align = 1usize << align_log2;
    let q = (base + (align - 1)) / align;
    proof {
        let p = pow2(align_log2 as nat) as int;
        let x = base as int;
        let qi = q as int;
        lemma_fundamental_div_mod(x + p - 1, p);
        lemma_mod_bound(x + p - 1, p);
        assert(qi == (x + p - 1) / p);
        assert(x <= p * qi <= x + p - 1);
        assert(qi * p == p * qi) by (nonlinear_arith);
        lemma_mod_multiples_basic(qi, p);
        assert forall|b2: int| #[trigger] (b2 % p) == 0 && b2 < qi * p implies b2 < x by {
            let m1 = b2 / p;
            lemma_fundamental_div_mod(b2, p);
            assert(b2 == p * m1);
            assert(m1 < qi) by (nonlinear_arith)
                requires
                    p * m1 < qi * p,
                    p > 0,
            ;
            assert(p * m1 <= p * (qi - 1)) by (nonlinear_arith)
                requires
                    m1 <= qi - 1,
                    p > 0,
            ;
            assert(p * (qi - 1) == p * qi - p) by (nonlinear_arith);
        }
    }
    q * align
}

/// True iff `base` is a multiple of `2^align_log2`.
pub fn is_aligned_log2(base: usize, align_log2: usize) -> (r: bool)
    requires
        align_log2 < usize::BITS,
    ensures
        r == (base as int % (pow2(align_log2 as nat) as int) == 0),
{
    proof {
        lemma_usize_pow2_no_overflow(align_log2 as nat);
        lemma_usize_shl_is_mul(1, align_log2 as usize);
        lemma_pow2_pos(align_log2 as nat);
    }
    base % (1usize << align_log2) == 0
}

/// Finds the lowest-numbered legal placement of a free run of `size` slots
/// aligned to `2^align_log2`, scanning only through `ba.next`.
pub fn find_contiguous<T: BitAlloc>(
    ba: &T,
    capacity: usize,
    size: usize,
    align_log2: usize,
) -> (r: Option<usize>)
    requires
        ba.wf(),
        cap_fits::<T>(),
        2 * capacity <= usize::MAX,
        align_log2 < usize::BITS,
    ensures
        match r {
            Some(b) => {
                &&& size >= 1
                &&& pow2(align_log2 as nat) <= capacity
                &&& placement(
                    |q: int| ba.is_free(q),
                    b as int,
                    capacity as int,
                    size as int,
                    align_log2 as nat,
                )
                &&& no_placement_below(
                    |q: int| ba.is_free(q),
                    b as int,
                    capacity as int,
                    size as int,
                    align_log2 as nat,
                )
            },
            None => size == 0 || pow2(align_log2 as nat) > capacity || no_placement(
                |q: int| ba.is_free(q),
                capacity as int,
                size as int,
                align_log2 as nat,
            ),
        },
{
    let ghost a = align_log2 as nat;
    let ghost fr = |q: int| ba.is_free(q);
    proof {
        lemma_usize_pow2_no_overflow(a);
        lemma_usize_shl_is_mul(1, align_log2 as usize);
        lemma_pow2_pos(a);
    }
    let align = 1usize << align_log2;
    if capacity < align || size == 0 {
        return None;
    }
    let start = match ba.next(0) {
        Some(s) => s,
        None => {
            proof {
                assert forall|b2: int| !placement(fr, b2, capacity as int, size as int, a) by {
                    if placement(fr, b2, capacity as int, size as int, a) {
                        assert(fr(b2));
                    }
                }
            }
            return None;
        },
    };
    proof {
        ba.lemma_free_within_cap();
    }
    let mut base = align_up_log2(start, align_log2);
    let mut offset = base;
    proof {
        assert forall|b2: int| 0 <= b2 < base implies !placement(
            fr,
            b2,
            capacity as int,
            size as int,
            a,
        ) by {
            if placement(fr, b2, capacity as int, size as int, a) {
                assert(b2 < start);
                assert(fr(b2));
            }
        }
    }
    while offset < capacity
        invariant
            ba.wf(),
            cap_fits::<T>(),
            2 * capacity <= usize::MAX,
            align_log2 < usize::BITS,
            size >= 1,
            pow2(a) <= capacity,
            a == align_log2 as nat,
            fr == (|q: int| ba.is_free(q)),
            base as int % (pow2(a) as int) == 0,
            base <= offset,
            offset - base < size,
            free_run(fr, base as int, offset - base),
            no_placement_below(fr, base as int, capacity as int, size as int, a),
        decreases (if offset <= capacity { (capacity - offset) as int } else { 0int }),
    {
        match ba.next(offset) {
            Some(next_free) => {
                proof {
                    ba.lemma_free_within_cap();
                }
                if next_free != offset {
                    let new_base = align_up_log2(next_free, align_log2);
                    proof {
                        assert forall|b2: int| 0 <= b2 < new_base implies !placement(
                            fr,
                            b2,
                            capacity as int,
                            size as int,
                            a,
                        ) by {
                            if placement(fr, b2, capacity as int, size as int, a) {
                                if b2 >= base {
                                    assert(b2 < next_free);
                                    if b2 <= offset {
                                        assert(offset < b2 + size);
                                        assert(fr(offset as int));
                                    } else {
                                        assert(fr(b2));
                                    }
                                }
                            }
                        }
                    }
                    base = new_base;
                    offset = new_base;
                } else {
                    offset = offset + 1;
                    if offset - base == size {
                        proof {
                            assert(free_run(fr, base as int, size as int));
                        }
                        return Some(base);
                    }
                }
            },
            None => {
                proof {
                    assert forall|b2: int| !placement(fr, b2, capacity as int, size as int, a) by {
                        if placement(fr, b2, capacity as int, size as int, a) {
                            if b2 < base {
                            } else if b2 <= offset {
                                assert(offset < b2 + size);
                                assert(fr(offset as int));
                            } else {
                                assert(fr(b2));
                            }
                        }
                    }
                }
                return None;
            },
        }
    }
    proof {
        assert forall|b2: int| !placement(fr, b2, capacity as int, size as int, a) by {
            if placement(fr, b2, capacity as int, size as int, a) {
                if b2 >= base {
                    assert(b2 + size > capacity);
                }
            }
        }
    }
    None
}

/// The common body of [`BitAlloc::alloc_contiguous`]: verify the requested
/// placement (or find the lowest one), then claim it with `remove`.
pub(crate) fn alloc_contiguous_in<T: BitAlloc>(
    ba: &mut T,
    base: Option<usize>,
    size: usize,
    align_log2: usize,
) -> (r: Option<usize>)
    requires
        old(ba).wf(),
        cap_fits::<T>(),
        align_log2 < usize::BITS,
    ensures
        final(ba).wf(),
        contiguous_result(*old(ba), *final(ba), r, base, size as int, align_log2 as nat),
{
    let capacity = T::capacity();
    match base {
        Some(b) => {
            if check_contiguous(&*ba, b, capacity, size, align_log2) {
                ba.remove(b..b + size);
                Some(b)
            } else {
                None
            }
        },
        None => {
            match find_contiguous(&*ba, capacity, size, align_log2) {
                Some(b) => {
                    ba.remove(b..b + size);
                    Some(b)
                },
                None => None,
            }
        },
    }
}

/// Verifies one exact placement: `base` aligned and `size` consecutive free
/// slots starting there, all inside `0..capacity`.
pub fn check_contiguous<T: BitAlloc>(
    ba: &T,
    base: usize,
    capacity: usize,
    size: usize,
    align_log2: usize,
) -> (r: bool)
    requires
        ba.wf(),
        cap_fits::<T>(),
        2 * capacity <= usize::MAX,
        align_log2 < usize::BITS,
    ensures
        r == (pow2(align_log2 as nat) <= capacity && size >= 1 && placement(
            |q: int| ba.is_free(q),
            base as int,
            capacity as int,
            size as int,
            align_log2 as nat,
        )),
{
    let ghost a = align_log2 as nat;
    let ghost fr = |q: int| ba.is_free(q);
    proof {
        assert(fr == (|q: int| ba.is_free(q)));
        lemma_usize_pow2_no_overflow(a);
        lemma_usize_shl_is_mul(1, align_log2 as usize);
        lemma_pow2_pos(a);
    }
    let align = 1usize << align_log2;
    if capacity < align || size == 0 {
        return false;
    }
    if !is_aligned_log2(base, align_log2) {
        return false;
    }
    let mut offset = base;
    while offset < capacity
        invariant
            ba.wf(),
            size >= 1,
            a == align_log2 as nat,
            fr == (|q: int| ba.is_free(q)),
            base <= offset,
            offset - base < size,
            free_run(fr, base as int, offset - base),
            cap_fits::<T>(),
            2 * capacity <= usize::MAX,
            pow2(a) <= capacity,
            base as int % (pow2(a) as int) == 0,
        decreases (if offset <= capacity { (capacity - offset) as int } else { 0int }),
    {
        match ba.next(offset) {
            Some(next_free) => {
                if next_free != offset {
                    proof {
                        assert(!fr(offset as int));
                    }
                    return false;
                }
                proof {
                    assert(fr(offset as int));
                }
                offset = offset + 1;
                if offset - base == size {
                    proof {
                        assert(free_run(fr, base as int, size as int));
                    }
                    return true;
                }
            },
            None => {
                proof {
                    assert(!fr(offset as int));
                }
                return false;
            },
        }
    }
    proof {
        assert(base + size > capacity);
    }
    false
}

} // verus!
