//! The shared operation set of every allocator node.
//!
//! A node manages slots `0..CAP` and records which of them are free. Leaf
//! nodes and cascade nodes implement the identical interface, so the
//! contiguous-run search is written once against it and works at every
//! nesting depth.

use core::ops::Range;
use vstd::arithmetic::power2::pow2;
use vstd::prelude::*;

verus! {

/// Twice the node capacity fits in `usize`: the headroom every operation
/// needs for its index arithmetic. It holds for all capacities built by this
/// crate and is inherited by the children of a cascade node.
pub open spec fn cap_fits<T: BitAlloc>() -> bool {
    2 * T::cap_spec() <= usize::MAX as nat
}

/// Every slot of `b..b + size` is free, where `f` tells which slots are.
pub open spec fn free_run(f: spec_fn(int) -> bool, b: int, size: int) -> bool {
    forall|k: int| b <= k < b + size ==> #[trigger] f(k)
}

/// `b` is a legal placement of a free run: aligned to `2^align_log2`, the
/// whole run inside `0..capacity`, and every slot of it free according to
/// the predicate `f`.
pub open spec fn placement(
    f: spec_fn(int) -> bool,
    b: int,
    capacity: int,
    size: int,
    align_log2: nat,
) -> bool {
    &&& b >= 0
    &&& b % (pow2(align_log2) as int) == 0
    &&& b + size <= capacity
    &&& free_run(f, b, size)
}

/// No legal placement exists below `b`.
pub open spec fn no_placement_below(
    f: spec_fn(int) -> bool,
    b: int,
    capacity: int,
    size: int,
    align_log2: nat,
) -> bool {
    forall|b2: int|
        0 <= b2 < b ==> !(#[trigger] placement(f, b2, capacity, size, align_log2))
}

/// No legal placement exists at all.
pub open spec fn no_placement(
    f: spec_fn(int) -> bool,
    capacity: int,
    size: int,
    align_log2: nat,
) -> bool {
    forall|b2: int| !(#[trigger] placement(f, b2, capacity, size, align_log2))
}

/// What `alloc_contiguous` guarantees, relating the state before (`pre`)
/// and after (`post`) to the result `r` and the request.
///
/// On `Some(b)`: `b` was a legal placement of the run, it is the requested
/// base (or the lowest legal one when none was requested), and exactly the
/// slots of the run changed from free to allocated. On `None`: nothing
/// changed, and no legal outcome existed for the request.
pub open spec fn contiguous_result<T: BitAlloc>(
    pre: T,
    post: T,
    r: Option<usize>,
    base: Option<usize>,
    size: int,
    align_log2: nat,
) -> bool {
    match r {
        Some(b) => {
            &&& size >= 1
            &&& pow2(align_log2) <= T::cap_spec()
            &&& placement(
                |q: int| pre.is_free(q),
                b as int,
                T::cap_spec() as int,
                size,
                align_log2,
            )
            &&& forall|k: int|
                #![trigger post.is_free(k)]
                post.is_free(k) <==> (pre.is_free(k) && !(b as int <= k < b as int + size))
            &&& match base {
                Some(rb) => b == rb,
                None => no_placement_below(
                    |q: int| pre.is_free(q),
                    b as int,
                    T::cap_spec() as int,
                    size,
                    align_log2,
                ),
            }
        },
        None => post == pre && match base {
            Some(rb) => !(size >= 1 && pow2(align_log2) <= T::cap_spec() && placement(
                |q: int| pre.is_free(q),
                rb as int,
                T::cap_spec() as int,
                size,
                align_log2,
            )),
            None => size == 0 || pow2(align_log2) > T::cap_spec() || no_placement(
                |q: int| pre.is_free(q),
                T::cap_spec() as int,
                size,
                align_log2,
            ),
        },
    }
}

/// Allocator of a bitmap, able to allocate and free numbered slots.
///
/// The mathematical model of a node is the predicate [`BitAlloc::is_free`]:
/// slot `k` is free exactly when `is_free(k)` holds. A node is constructed
/// fully allocated; callers make slots available with [`BitAlloc::insert`].
pub trait BitAlloc: Sized {
    /// Total number of slots managed by this node type.
    spec fn cap_spec() -> nat;

    /// Structural invariant: established by [`BitAlloc::new`] and preserved
    /// by every operation.
    spec fn wf(&self) -> bool;

    /// Model of the node: true iff slot `k` is currently free.
    spec fn is_free(&self, k: int) -> bool;

    /// A node manages at least one slot.
    proof fn lemma_cap_pos()
        ensures
            Self::cap_spec() >= 1,
    ;

    /// Only slots below the capacity are ever free.
    proof fn lemma_free_within_cap(&self)
        ensures
            forall|k: int| #[trigger] self.is_free(k) ==> 0 <= k < Self::cap_spec(),
    ;

    /// The capacity as a run-time value.
    fn capacity() -> (r: usize)
        requires
            2 * Self::cap_spec() <= usize::MAX as nat,
        ensures
            r == Self::cap_spec(),
    ;

    /// Constructs the node in the fully-allocated state: no slot is free.
    fn new() -> (r: Self)
        ensures
            r.wf(),
            forall|k: int| !r.is_free(k),
    ;

    /// Allocates the lowest-numbered free slot, or returns `None` when no
    /// slot is free.
    fn allocate(&mut self) -> (r: Option<usize>)
        requires
            old(self).wf(),
            2 * Self::cap_spec() <= usize::MAX as nat,
        ensures
            final(self).wf(),
            match r {
                Some(i) => {
                    &&& (i as nat) < Self::cap_spec()
                    &&& old(self).is_free(i as int)
                    &&& forall|j: int| 0 <= j < i as int ==> !old(self).is_free(j)
                    &&& forall|k: int|
                        #![trigger final(self).is_free(k)]
                        final(self).is_free(k) <==> (old(self).is_free(k) && k != i as int)
                },
                None => *final(self) == *old(self) && (forall|k: int| !old(self).is_free(k)),
            },
    ;

    /// The lowest free slot with index at least `key`, or `None`.
    fn next(&self, key: usize) -> (r: Option<usize>)
        requires
            self.wf(),
            2 * Self::cap_spec() <= usize::MAX as nat,
        ensures
            match r {
                Some(n) => {
                    &&& key <= n
                    &&& n < Self::cap_spec()
                    &&& self.is_free(n as int)
                    &&& forall|j: int| key as int <= j < n as int ==> !self.is_free(j)
                },
                None => forall|j: int| j >= key as int ==> !self.is_free(j),
            },
    ;

    /// Marks `key` free. Returns true iff the slot was allocated before, but
    /// the slot ends up free either way.
    fn dealloc(&mut self, key: usize) -> (r: bool)
        requires
            old(self).wf(),
            2 * Self::cap_spec() <= usize::MAX as nat,
            key < Self::cap_spec(),
        ensures
            final(self).wf(),
            r == !old(self).is_free(key as int),
            forall|k: int|
                #![trigger final(self).is_free(k)]
                final(self).is_free(k) <==> (old(self).is_free(k) || k == key as int),
    ;

    /// Marks the whole run `base..base + size` free, provided it lies within
    /// the capacity and every slot of it was allocated; otherwise reports
    /// failure and changes nothing.
    fn dealloc_contiguous(&mut self, base: usize, size: usize) -> (r: bool)
        requires
            old(self).wf(),
            2 * Self::cap_spec() <= usize::MAX as nat,
            base + size <= usize::MAX,
        ensures
            final(self).wf(),
            r == (base + size <= Self::cap_spec() && (forall|k: int|
                base as int <= k < base as int + size as int ==> !old(self).is_free(k))),
            r ==> forall|k: int|
                #![trigger final(self).is_free(k)]
                final(self).is_free(k) <==> (old(self).is_free(k) || (base as int <= k < base as int
                    + size as int)),
            !r ==> *final(self) == *old(self),
    ;

    /// Unconditionally marks every slot of the range free.
    fn insert(&mut self, range: Range<usize>)
        requires
            old(self).wf(),
            2 * Self::cap_spec() <= usize::MAX as nat,
            range.start <= range.end,
            range.end <= Self::cap_spec(),
        ensures
            final(self).wf(),
            forall|k: int|
                #![trigger final(self).is_free(k)]
                final(self).is_free(k) <==> (old(self).is_free(k) || (range.start as int <= k
                    < range.end as int)),
    ;

    /// Unconditionally marks every slot of the range allocated.
    fn remove(&mut self, range: Range<usize>)
        requires
            old(self).wf(),
            2 * Self::cap_spec() <= usize::MAX as nat,
            range.start <= range.end,
            range.end <= Self::cap_spec(),
        ensures
            final(self).wf(),
            forall|k: int|
                #![trigger final(self).is_free(k)]
                final(self).is_free(k) <==> (old(self).is_free(k) && !(range.start as int <= k
                    < range.end as int)),
    ;

    /// Whether some slot is free.
    fn any(&self) -> (r: bool)
        requires
            self.wf(),
        ensures
            r <==> exists|k: int| self.is_free(k),
    ;

    /// True iff no slot is free.
    fn is_empty(&self) -> (r: bool)
        requires
            self.wf(),
        ensures
            r <==> (forall|k: int| !self.is_free(k)),
    ;

    /// Whether slot `key` is free.
    fn test(&self, key: usize) -> (r: bool)
        requires
            self.wf(),
            2 * Self::cap_spec() <= usize::MAX as nat,
            key < Self::cap_spec(),
        ensures
            r == self.is_free(key as int),
    ;
}

} // verus!
