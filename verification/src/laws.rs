//! Laws of the allocator that relate several operations.
//!
//! The operations' own contracts describe one call each; the lemmas here
//! state what follows for a sequence of calls, purely over the model
//! predicate [`BitAlloc::is_free`].

use crate::interface::BitAlloc;
use vstd::prelude::*;

verus! {

/// Law: allocations come out in strictly increasing order.
///
/// If one `allocate` call returns `r1` (the lowest free slot, which it then
/// claims), the next successful `allocate` returns a strictly larger slot.
/// `pre` and `post` are the states before and after the first call, `r2` the
/// second call's result.
pub proof fn lemma_allocations_strictly_increase<T: BitAlloc>(pre: T, post: T, r1: int, r2: int)
    requires
        pre.is_free(r1),
        forall|j: int| 0 <= j < r1 ==> !pre.is_free(j),
        forall|k: int| #[trigger] post.is_free(k) <==> (pre.is_free(k) && k != r1),
        post.is_free(r2),
        forall|j: int| 0 <= j < r2 ==> !post.is_free(j),
    ensures
        r2 > r1,
{
    pre.lemma_free_within_cap();
    post.lemma_free_within_cap();
    assert(pre.is_free(r2));
}

/// Law: draining a node whose free slots are exactly `m..CAP` yields
/// `m, m + 1, ...` in order, each slot exactly once.
///
/// One `allocate` step from such a state must return `m` itself and leave
/// exactly the slots `m + 1..CAP` free; by induction the whole drain
/// enumerates every slot once, in strictly increasing order. In particular a
/// node freshly constructed and then `insert(0..CAP)`ed (free set exactly
/// `0..CAP`) is drained as `0, 1, ..., CAP - 1`.
pub proof fn lemma_alloc_from_suffix<T: BitAlloc>(pre: T, post: T, m: int, r: int)
    requires
        0 <= m < T::cap_spec(),
        forall|k: int| #[trigger] pre.is_free(k) <==> m <= k < T::cap_spec(),
        pre.is_free(r),
        forall|j: int| 0 <= j < r ==> !pre.is_free(j),
        forall|k: int| #[trigger] post.is_free(k) <==> (pre.is_free(k) && k != r),
    ensures
        r == m,
        forall|k: int| #[trigger] post.is_free(k) <==> m + 1 <= k < T::cap_spec(),
{
    assert(pre.is_free(m));
}

} // verus!
