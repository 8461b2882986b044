//! The 16-slot leaf node: a flat bitmap in one `u16` word.

use crate::bits::{
    and_not16, bit16, disjoint16, get_bit16, lemma_bit16_zero, lemma_lowest_bit16, mask16, or16,
    set_bit16,
};
use crate::interface::{contiguous_result, BitAlloc};
use crate::search::alloc_contiguous_in;
use core::ops::Range;
use vstd::prelude::*;
use vstd::std_specs::bits::axiom_u16_trailing_zeros;

verus! {

/// A bitmap of 16 slots. Bit `i` of the word set means slot `i` is free;
/// the word starts at zero, the fully-allocated state.
pub struct BitAlloc16(u16);

impl BitAlloc for BitAlloc16 {
    open spec fn cap_spec() -> nat {
        16
    }

    closed spec fn wf(&self) -> bool {
        true
    }

    closed spec fn is_free(&self, k: int) -> bool {
        0 <= k < 16 && bit16(self.0, k as u16)
    }

    proof fn lemma_cap_pos() {
    }

    proof fn lemma_free_within_cap(&self) {
    }

    fn capacity() -> (r: usize) {
        16
    }

    fn new() -> (r: Self) {
        let r = BitAlloc16(0u16);
        proof {
            lemma_bit16_zero(0u16);
        }
        r
    }

    fn allocate(&mut self) -> (r: Option<usize>) {
        let i = self.0.trailing_zeros() as usize;
        proof {
            axiom_u16_trailing_zeros(self.0);
        }
        if i < 16 {
            proof {
                lemma_lowest_bit16(self.0);
            }
            self.0 = set_bit16(self.0, i as u16, false);
            Some(i)
        } else {
            proof {
                lemma_bit16_zero(self.0);
            }
            None
        }
    }

    fn next(&self, key: usize) -> (r: Option<usize>) {
        let mut i = key;
        while i < 16
            invariant
                key <= i,
                forall|j: int| key as int <= j < i as int ==> !self.is_free(j),
            decreases 16 - i as int,
        {
            if get_bit16(self.0, i as u16) {
                return Some(i);
            }
            i = i + 1;
        }
        None
    }

    fn dealloc(&mut self, key: usize) -> (r: bool) {
        let success = !self.test(key);
        self.0 = set_bit16(self.0, key as u16, true);
        success
    }

    fn dealloc_contiguous(&mut self, base: usize, size: usize) -> (r: bool) {
        if base + size <= 16 {
            let m = mask16(base as u16, (base + size) as u16);
            if disjoint16(self.0, m) {
                self.0 = or16(self.0, m);
                return true;
            }
            proof {
                let w = choose|j: u16| bit16(old(self).0, j) && bit16(m, j);
                assert(old(self).is_free(w as int));
            }
            false
        } else {
            false
        }
    }

    fn insert(&mut self, range: Range<usize>) {
        let m = mask16(range.start as u16, range.end as u16);
        self.0 = or16(self.0, m);
    }

    fn remove(&mut self, range: Range<usize>) {
        let m = mask16(range.start as u16, range.end as u16);
        self.0 = and_not16(self.0, m);
    }

    fn any(&self) -> (r: bool) {
        !self.is_empty()
    }

    fn is_empty(&self) -> (r: bool) {
        proof {
            lemma_bit16_zero(self.0);
            if self.0 != 0 {
                let w = choose|j: u16| bit16(self.0, j);
                assert(self.is_free(w as int));
            }
        }
        self.0 == 0
    }

    fn test(&self, key: usize) -> (r: bool) {
        get_bit16(self.0, key as u16)
    }
}

impl Default for BitAlloc16 {
    /// The fully-allocated state: no slot is free.
    fn default() -> (r: Self)
        ensures
            r.wf(),
            forall|k: int| !r.is_free(k),
    {
        Self::new()
    }
}

impl BitAlloc16 {
    /// Allocates a run of `size` consecutive free slots aligned to
    /// `2^align_log2`. With `base` given only that exact placement is
    /// attempted; otherwise the lowest legal placement is taken.
    /// All-or-nothing: on failure nothing changes.
    pub fn alloc_contiguous(&mut self, base: Option<usize>, size: usize, align_log2: usize) -> (r:
        Option<usize>)
        requires
            old(self).wf(),
            2 * Self::cap_spec() <= usize::MAX as nat,
            align_log2 < usize::BITS,
        ensures
            final(self).wf(),
            contiguous_result(*old(self), *final(self), r, base, size as int, align_log2 as nat),
    {
        alloc_contiguous_in(self, base, size, align_log2)
    }
}

} // verus!
