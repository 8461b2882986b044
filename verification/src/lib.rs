//! Hierarchical free-index allocator.
//!
//! A fixed universe of `CAP` numbered slots is tracked as free or allocated.
//! The base case is a 16-slot leaf bitmap; nesting sixteen nodes under a
//! cascade node multiplies the capacity by 16 while keeping every operation
//! sub-linear through a per-node summary mask.

use vstd::prelude::*;

mod bits;
mod cascade;
mod interface;
mod laws;
mod leaf;
mod search;

pub use cascade::{BitAllocCascade16, RangeOp};
pub use interface::BitAlloc;
pub use laws::{lemma_allocations_strictly_increase, lemma_alloc_from_suffix};
pub use leaf::BitAlloc16;
pub use search::{align_up_log2, check_contiguous, find_contiguous, is_aligned_log2};

verus! {

/// A bitmap of 256 bits.
pub type BitAlloc256 = BitAllocCascade16<BitAlloc16>;

/// A bitmap of 4K bits.
pub type BitAlloc4K = BitAllocCascade16<BitAlloc256>;

/// A bitmap of 64K bits.
pub type BitAlloc64K = BitAllocCascade16<BitAlloc4K>;

/// A bitmap of 1M bits.
pub type BitAlloc1M = BitAllocCascade16<BitAlloc64K>;

/// A bitmap of 16M bits.
pub type BitAlloc16M = BitAllocCascade16<BitAlloc1M>;

/// A bitmap of 256M bits.
pub type BitAlloc256M = BitAllocCascade16<BitAlloc16M>;

} // verus!
