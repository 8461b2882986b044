//! The cascade node: sixteen uniform children plus a 16-bit summary mask.
//!
//! Bit `i` of the summary is a cached, derived value: set exactly when child
//! `i` has at least one free slot. Slot `k` of the cascade lives in child
//! `k / T::CAP` at local index `k % T::CAP`.

use crate::bits::{bit16, get_bit16, lemma_bit16_zero, lemma_lowest_bit16, set_bit16};
use crate::interface::{contiguous_result, BitAlloc};
use crate::search::alloc_contiguous_in;
use core::ops::Range;
use vstd::arithmetic::div_mod::{
    lemma_div_is_ordered, lemma_fundamental_div_mod, lemma_fundamental_div_mod_converse,
    lemma_mod_bound,
};
use vstd::prelude::*;

verus! {

/// How `BitAllocCascade16::for_range` marks the slots of a range.
#[derive(Clone, Copy)]
pub enum RangeOp {
    /// Mark the range free, as `insert` does.
    Insert,
    /// Mark the range allocated, as `remove` does.
    Remove,
}

/// A node built from sixteen children of type `T`, with capacity
/// `16 * T::CAP`, implementing the bit allocator by segment tree.
pub struct BitAllocCascade16<T: BitAlloc> {
    /// Summary mask: bit `i` set iff child `i` has at least one free slot.
    bitset: u16,
    /// The sixteen children; always exactly 16 once constructed.
    sub: Vec<T>,
}

/// Chunk arithmetic: splitting a slot index into child and local index.
proof fn lemma_chunk_split(c: int, k: int)
    requires
        c >= 1,
        0 <= k < 16 * c,
    ensures
        0 <= k / c < 16,
        0 <= k % c < c,
        k == c * (k / c) + (k % c),
{
    lemma_fundamental_div_mod(k, c);
    lemma_mod_bound(k, c);
    assert(0 <= k / c < 16) by (nonlinear_arith)
        requires
            c >= 1,
            0 <= k < 16 * c,
            k == c * (k / c) + (k % c),
            0 <= k % c < c,
    ;
}

/// Chunk arithmetic: a child index and a local index name one slot.
proof fn lemma_chunk_combine(c: int, i: int, l: int)
    requires
        c >= 1,
        0 <= i < 16,
        0 <= l < c,
    ensures
        0 <= c * i + l < 16 * c,
        (c * i + l) / c == i,
        (c * i + l) % c == l,
{
    assert(c * i + l == i * c + l) by (nonlinear_arith);
    lemma_fundamental_div_mod_converse(c * i + l, c, i, l);
    assert(0 <= c * i && c * i + l < 16 * c) by (nonlinear_arith)
        requires
            c >= 1,
            0 <= i < 16,
            0 <= l < c,
    ;
}

impl<T: BitAlloc> BitAllocCascade16<T> {
    /// Slots of children other than `i` are untouched when only child `i`
    /// changes (and the summary word may change freely).
    proof fn lemma_other_children(pre: Self, post: Self, i: int)
        requires
            pre.sub@.len() == 16,
            post.sub@.len() == 16,
            0 <= i < 16,
            forall|j: int| 0 <= j < 16 && j != i ==> post.sub@[j] == pre.sub@[j],
        ensures
            forall|k: int|
                #![trigger post.is_free(k)]
                #![trigger pre.is_free(k)]
                k / (T::cap_spec() as int) != i ==> (post.is_free(k) <==> pre.is_free(k)),
    {
        T::lemma_cap_pos();
        let c = T::cap_spec() as int;
        assert forall|k: int| k / c != i implies (post.is_free(k) <==> pre.is_free(k)) by {
            if 0 <= k < 16 * c {
                lemma_chunk_split(c, k);
            }
        }
    }

    /// The invariant survives an update of one child whose summary bit was
    /// refreshed to its new emptiness.
    proof fn lemma_wf_one_child(pre: Self, post: Self, i: int, e: bool)
        requires
            pre.wf(),
            post.sub@.len() == 16,
            0 <= i < 16,
            forall|j: int| 0 <= j < 16 && j != i ==> post.sub@[j] == pre.sub@[j],
            post.sub@[i].wf(),
            e <==> (forall|q: int| !(#[trigger] post.sub@[i].is_free(q))),
            forall|j: u16|
                #![trigger bit16(post.bitset, j)]
                bit16(post.bitset, j) <==> (if j == i as u16 {
                    !e
                } else {
                    bit16(pre.bitset, j)
                }),
        ensures
            post.wf(),
    {
        assert forall|j: int| #![trigger post.sub@[j]] 0 <= j < 16 implies post.sub@[j].wf() by {
            if j != i {
                assert(post.sub@[j] == pre.sub@[j]);
            }
        }
        assert forall|j: int|
            #![trigger post.sub@[j]]
            #![trigger bit16(post.bitset, j as u16)]
            0 <= j < 16 implies (bit16(post.bitset, j as u16) <==> exists|q: int|
            post.sub@[j].is_free(q)) by {
            if j == i {
                if !e {
                    assert(exists|q: int| post.sub@[i].is_free(q)) by {
                        assert(!(forall|q: int| !post.sub@[i].is_free(q)));
                    }
                }
            } else {
                assert(post.sub@[j] == pre.sub@[j]);
                assert(bit16(post.bitset, j as u16) == bit16(pre.bitset, j as u16));
                if bit16(pre.bitset, j as u16) {
                    let w = choose|q: int| pre.sub@[j].is_free(q);
                    assert(post.sub@[j].is_free(w));
                }
            }
        }
    }
}

impl<T: BitAlloc> BitAlloc for BitAllocCascade16<T> {
    open spec fn cap_spec() -> nat {
        16 * T::cap_spec()
    }

    closed spec fn wf(&self) -> bool {
        &&& self.sub@.len() == 16
        &&& forall|i: int| #![trigger self.sub@[i]] 0 <= i < 16 ==> self.sub@[i].wf()
        &&& forall|i: int|
            #![trigger self.sub@[i]]
            0 <= i < 16 ==> (bit16(self.bitset, i as u16) <==> exists|q: int|
                self.sub@[i].is_free(q))
    }

    closed spec fn is_free(&self, k: int) -> bool {
        let c = T::cap_spec() as int;
        0 <= k < 16 * c && self.sub@[k / c].is_free(k % c)
    }

    proof fn lemma_cap_pos() {
        T::lemma_cap_pos();
    }

    proof fn lemma_free_within_cap(&self) {
        T::lemma_cap_pos();
    }

    fn capacity() -> (r: usize) {
        proof {
            T::lemma_cap_pos();
        }
        16 * T::capacity()
    }

    fn new() -> (r: Self) {
        let mut sub: Vec<T> = Vec::new();
        let mut n: usize = 0;
        while n < 16
            invariant
                sub@.len() == n,
                n <= 16,
                forall|j: int| #![trigger sub@[j]] 0 <= j < n as int ==> sub@[j].wf(),
                forall|j: int, q: int| 0 <= j < n as int ==> !(#[trigger] sub@[j].is_free(q)),
            decreases 16 - n,
        {
            sub.push(T::new());
            n = n + 1;
        }
        let r = BitAllocCascade16 { bitset: 0u16, sub };
        proof {
            T::lemma_cap_pos();
            lemma_bit16_zero(0u16);
            let c = T::cap_spec() as int;
            assert forall|k: int| !r.is_free(k) by {
                if 0 <= k < 16 * c {
                    lemma_chunk_split(c, k);
                }
            }
        }
        r
    }

    fn allocate(&mut self) -> (r: Option<usize>) {
        proof {
            T::lemma_cap_pos();
        }
        if self.bitset == 0 {
            proof {
                lemma_bit16_zero(self.bitset);
                let c = T::cap_spec() as int;
                assert forall|k: int| !old(self).is_free(k) by {
                    if 0 <= k < 16 * c {
                        lemma_chunk_split(c, k);
                    }
                }
            }
            None
        } else {
            let ghost pre = *self;
            let ghost c = T::cap_spec() as int;
            let i = self.bitset.trailing_zeros() as usize;
            proof {
                lemma_lowest_bit16(self.bitset);
            }
            proof {
                assert(pre.sub@[i as int].wf());
            }
            let cap1 = T::capacity();
            let r = self.sub[i].allocate();
            let x = match r {
                Some(x) => x,
                None => {
                    // The summary bit promised a free slot in this child.
                    proof {
                        assert(false);
                    }
                    0
                },
            };
            let e = self.sub[i].is_empty();
            self.bitset = set_bit16(self.bitset, i as u16, !e);
            proof {
                let ii = i as int;
                let res = c * ii + x as int;
                pre.sub@[ii].lemma_free_within_cap();
                lemma_chunk_combine(c, ii, x as int);
                Self::lemma_other_children(pre, *self, ii);
                assert forall|j: int| 0 <= j < res implies !pre.is_free(j) by {
                    if pre.is_free(j) {
                        lemma_chunk_split(c, j);
                        assert(j / c <= ii) by (nonlinear_arith)
                            requires
                                c >= 1,
                                j < c * ii + (x as int),
                                (x as int) < c,
                                j == c * (j / c) + j % c,
                                0 <= j % c < c,
                        ;
                        if j / c < ii {
                            assert(!bit16(pre.bitset, (j / c) as u16));
                        } else {
                            assert(j % c < x as int);
                        }
                    }
                }
                assert forall|k: int| #![trigger self.is_free(k)] self.is_free(k) <==> (
                pre.is_free(k) && k != res) by {
                    if 0 <= k < 16 * c {
                        lemma_chunk_split(c, k);
                    }
                }
                Self::lemma_wf_one_child(pre, *self, ii, e);
                assert((x + i * cap1) as int == res);
                assert(old(self).is_free(res));
            }
            Some(x + i * cap1)
        }
    }

    fn next(&self, key: usize) -> (r: Option<usize>) {
        proof {
            T::lemma_cap_pos();
        }
        let c = T::capacity();
        let ghost ci = T::cap_spec() as int;
        let idx = key / c;
        proof {
            lemma_fundamental_div_mod(key as int, ci);
            lemma_mod_bound(key as int, ci);
        }
        let mut i = idx;
        while i < 16
            invariant
                self.wf(),
                T::cap_spec() >= 1,
                32 * T::cap_spec() <= usize::MAX as nat,
                c == T::cap_spec(),
                ci == c as int,
                idx == key as int / ci,
                idx <= i,
                i <= 16 || i == idx,
                key as int == ci * (idx as int) + key as int % ci,
                0 <= key as int % ci < ci,
                forall|j: int| key as int <= j < ci * i as int ==> !self.is_free(j),
            decreases 16 - i,
        {
            if get_bit16(self.bitset, i as u16) {
                let local = if i == idx {
                    key - c * idx
                } else {
                    0
                };
                match self.sub[i].next(local) {
                    Some(x) => {
                        let ghost ii = i as int;
                        proof {
                            lemma_chunk_combine(ci, ii, x as int);
                            if idx < i {
                                assert(ci * (idx as int + 1) <= ci * ii) by (nonlinear_arith)
                                    requires
                                        idx as int + 1 <= ii,
                                        ci >= 1,
                                ;
                            }
                            assert((x + c * i) as int == ci * ii + x as int) by (nonlinear_arith)
                                requires
                                    ci == c as int,
                                    ii == i as int,
                                    x + c * i <= usize::MAX,
                            ;
                            assert(key as int <= ci * ii + x as int) by {
                                if i == idx {
                                    assert(local <= x);
                                    assert(local as int == key as int - ci * (idx as int));
                                } else {
                                    assert((key as int) < ci * (idx as int) + ci);
                                    assert(ci * (idx as int) + ci == ci * (idx as int + 1))
                                        by (nonlinear_arith);
                                }
                            }
                            assert forall|j: int|
                                key as int <= j < ci * ii + x as int implies !self.is_free(j) by {
                                if j >= ci * ii && self.is_free(j) {
                                    lemma_chunk_split(ci, j);
                                    assert(j / ci == ii) by (nonlinear_arith)
                                        requires
                                            ci >= 1,
                                            ci * ii <= j,
                                            j < ci * ii + x as int,
                                            (x as int) < ci,
                                            j == ci * (j / ci) + j % ci,
                                            0 <= j % ci < ci,
                                    ;
                                }
                            }
                        }
                        return Some(x + c * i);
                    },
                    None => {
                        proof {
                            let ii = i as int;
                            assert forall|j: int|
                                key as int <= j < ci * (ii + 1) implies !self.is_free(j) by {
                                if j >= ci * ii && self.is_free(j) {
                                    lemma_chunk_split(ci, j);
                                    assert(j / ci == ii) by (nonlinear_arith)
                                        requires
                                            ci >= 1,
                                            ci * ii <= j < ci * (ii + 1),
                                            j == ci * (j / ci) + j % ci,
                                            0 <= j % ci < ci,
                                    ;
                                }
                            }
                        }
                    },
                }
            } else {
                proof {
                    let ii = i as int;
                    assert forall|j: int| key as int <= j < ci * (ii + 1) implies !self.is_free(
                        j,
                    ) by {
                        if j >= ci * ii && self.is_free(j) {
                            lemma_chunk_split(ci, j);
                            assert(j / ci == ii) by (nonlinear_arith)
                                requires
                                    ci >= 1,
                                    ci * ii <= j < ci * (ii + 1),
                                    j == ci * (j / ci) + j % ci,
                                    0 <= j % ci < ci,
                            ;
                            assert(exists|q: int| self.sub@[ii].is_free(q));
                        }
                    }
                }
            }
            i = i + 1;
        }
        proof {
            assert forall|j: int| j >= key as int implies !self.is_free(j) by {
                if self.is_free(j) {
                    assert(j < 16 * ci);
                    if i == 16 {
                        assert(ci * (i as int) == 16 * ci) by (nonlinear_arith)
                            requires
                                i as int == 16,
                        ;
                    } else {
                        assert(16 * ci <= ci * (idx as int)) by (nonlinear_arith)
                            requires
                                idx as int >= 16,
                                ci >= 1,
                        ;
                    }
                }
            }
        }
        None
    }

    fn dealloc(&mut self, key: usize) -> (r: bool) {
        proof {
            T::lemma_cap_pos();
        }
        let ghost pre = *self;
        let ghost c = T::cap_spec() as int;
        let cap1 = T::capacity();
        let i = key / cap1;
        let local = key % cap1;
        proof {
            lemma_chunk_split(c, key as int);
        }
        self.bitset = set_bit16(self.bitset, i as u16, true);
        let r = self.sub[i].dealloc(local);
        proof {
            let ii = i as int;
            Self::lemma_other_children(pre, *self, ii);
            assert(self.sub@[ii].is_free(local as int));
            Self::lemma_wf_one_child(pre, *self, ii, false);
            assert forall|k: int| #![trigger self.is_free(k)] self.is_free(k) <==> (pre.is_free(
                k,
            ) || k == key as int) by {
                if 0 <= k < 16 * c {
                    lemma_chunk_split(c, k);
                }
            }
            assert(self.is_free(key as int));
        }
        r
    }

    fn dealloc_contiguous(&mut self, base: usize, size: usize) -> (r: bool) {
        proof {
            T::lemma_cap_pos();
        }
        let cap = Self::capacity();
        if base + size > cap {
            return false;
        }
        if size == 0 {
            return true;
        }
        match self.next(base) {
            Some(n) => {
                if n < base + size {
                    return false;
                }
            },
            None => {},
        }
        self.insert(base..base + size);
        true
    }

    fn insert(&mut self, range: Range<usize>) {
        self.for_range(range, RangeOp::Insert);
    }

    fn remove(&mut self, range: Range<usize>) {
        self.for_range(range, RangeOp::Remove);
    }

    fn any(&self) -> (r: bool) {
        !self.is_empty()
    }

    fn is_empty(&self) -> (r: bool) {
        proof {
            T::lemma_cap_pos();
            let c = T::cap_spec() as int;
            lemma_bit16_zero(self.bitset);
            if self.bitset == 0 {
                assert forall|k: int| !self.is_free(k) by {
                    if 0 <= k < 16 * c {
                        lemma_chunk_split(c, k);
                    }
                }
            } else {
                let w = choose|j: u16| bit16(self.bitset, j);
                let q = choose|q: int| self.sub@[w as int].is_free(q);
                self.sub@[w as int].lemma_free_within_cap();
                lemma_chunk_combine(c, w as int, q);
                assert(self.is_free(c * (w as int) + q));
            }
        }
        self.bitset == 0
    }

    fn test(&self, key: usize) -> (r: bool) {
        proof {
            T::lemma_cap_pos();
            lemma_chunk_split(T::cap_spec() as int, key as int);
        }
        let cap1 = T::capacity();
        self.sub[key / cap1].test(key % cap1)
    }
}

impl<T: BitAlloc> Default for BitAllocCascade16<T> {
    /// The fully-allocated state: no slot is free.
    fn default() -> (r: Self)
        ensures
            r.wf(),
            forall|k: int| !r.is_free(k),
    {
        Self::new()
    }
}

impl<T: BitAlloc> BitAllocCascade16<T> {
    /// Applies `op` to every slot of `range`, delegating the clipped
    /// sub-range of each spanned child and refreshing that child's summary
    /// bit afterwards.
    pub fn for_range(&mut self, range: Range<usize>, op: RangeOp)
        requires
            old(self).wf(),
            2 * Self::cap_spec() <= usize::MAX as nat,
            range.start <= range.end,
            range.end <= Self::cap_spec(),
        ensures
            final(self).wf(),
            forall|k: int|
                #![trigger final(self).is_free(k)]
                final(self).is_free(k) <==> (if range.start as int <= k < range.end as int {
                    op is Insert
                } else {
                    old(self).is_free(k)
                }),
    {
        proof {
            T::lemma_cap_pos();
        }
        let start = range.start;
        let end = range.end;
        if start == end {
            return;
        }
        let ghost c = T::cap_spec() as int;
        let cap1 = T::capacity();
        let i0 = start / cap1;
        let i1 = (end - 1) / cap1;
        proof {
            lemma_chunk_split(c, start as int);
            lemma_chunk_split(c, end as int - 1);
            lemma_div_is_ordered(start as int, end as int - 1, c);
        }
        let mut i = i0;
        while i <= i1
            invariant
                self.wf(),
                2 * T::cap_spec() <= usize::MAX as nat,
                c == T::cap_spec() as int,
                cap1 == T::cap_spec(),
                start < end <= 16 * c,
                i0 == start as int / c,
                i1 == (end as int - 1) / c,
                i0 <= i <= i1 + 1,
                i1 < 16,
                forall|k: int|
                    #![trigger self.is_free(k)]
                    self.is_free(k) <==> (if start as int <= k < end as int && k < c * i as int {
                        op is Insert
                    } else {
                        old(self).is_free(k)
                    }),
            decreases i1 + 1 - i,
        {
            let ghost pre = *self;
            let ghost ii = i as int;
            let begin = if start / cap1 == i {
                start % cap1
            } else {
                0
            };
            let endl = if end / cap1 == i {
                end % cap1
            } else {
                cap1
            };
            proof {
                lemma_fundamental_div_mod(start as int, c);
                lemma_mod_bound(start as int, c);
                lemma_fundamental_div_mod(end as int, c);
                lemma_mod_bound(end as int, c);
                lemma_fundamental_div_mod(end as int - 1, c);
                lemma_mod_bound(end as int - 1, c);
                // The clipped local range covers the chunk's part of the range.
                assert(begin <= endl <= c && c * ii + begin as int == (if start as int > c * ii {
                    start as int
                } else {
                    c * ii
                }) && c * ii + endl as int == (if (end as int) < c * (ii + 1) {
                    end as int
                } else {
                    c * (ii + 1)
                })) by (nonlinear_arith)
                    requires
                        c >= 1,
                        0 < end as int,
                        (start as int) < end as int,
                        end as int <= 16 * c,
                        i0 == start as int / c,
                        i1 == (end as int - 1) / c,
                        i0 <= ii <= i1,
                        i1 < 16,
                        start as int == c * i0 + start as int % c,
                        0 <= start as int % c < c,
                        end as int == c * (end as int / c) + end as int % c,
                        0 <= end as int % c < c,
                        end as int - 1 == c * i1 + (end as int - 1) % c,
                        0 <= (end as int - 1) % c < c,
                        begin as int == (if i0 == ii {
                            start as int % c
                        } else {
                            0
                        }),
                        endl as int == (if end as int / c == ii {
                            end as int % c
                        } else {
                            c
                        }),
                ;
            }
            match op {
                RangeOp::Insert => self.sub[i].insert(begin..endl),
                RangeOp::Remove => self.sub[i].remove(begin..endl),
            }
            let e = self.sub[i].is_empty();
            self.bitset = set_bit16(self.bitset, i as u16, !e);
            proof {
                Self::lemma_other_children(pre, *self, ii);
                assert(self.sub@ == pre.sub@.update(ii, self.sub@[ii]));
                assert(e <==> (forall|q: int| !(#[trigger] self.sub@[ii].is_free(q))));
                Self::lemma_wf_one_child(pre, *self, ii, e);
                assert forall|k: int| #![trigger self.is_free(k)] self.is_free(k) <==> (
                if start as int <= k < end as int && k < c * (ii + 1) {
                    op is Insert
                } else {
                    old(self).is_free(k)
                }) by {
                    assert(pre.is_free(k) <==> (if start as int <= k < end as int && k < c
                        * ii as int {
                        op is Insert
                    } else {
                        old(self).is_free(k)
                    }));
                    if 0 <= k < 16 * c {
                        lemma_chunk_split(c, k);
                        if k / c == ii {
                            assert(c * ii <= k < c * (ii + 1)) by (nonlinear_arith)
                                requires
                                    c >= 1,
                                    k / c == ii,
                                    k == c * (k / c) + k % c,
                                    0 <= k % c < c,
                            ;
                            assert(self.sub@[ii].is_free(k % c) <==> (if begin as int <= k % c
                                < endl as int {
                                op is Insert
                            } else {
                                pre.sub@[ii].is_free(k % c)
                            }));
                            assert((begin as int <= k % c < endl as int) <==> (start as int <= k
                                < end as int));
                        } else {
                            assert(!(c * ii <= k < c * (ii + 1))) by (nonlinear_arith)
                                requires
                                    c >= 1,
                                    k / c != ii,
                                    k == c * (k / c) + k % c,
                                    0 <= k % c < c,
                            ;
                            assert(self.is_free(k) <==> pre.is_free(k));
                        }
                    } else {
                        assert(!self.is_free(k));
                        assert(!pre.is_free(k));
                    }
                }
            }
            i = i + 1;
        }
        proof {
            assert(end as int <= c * (i1 + 1)) by (nonlinear_arith)
                requires
                    c >= 1,
                    end as int - 1 == c * i1 + (end as int - 1) % c,
                    0 <= (end as int - 1) % c < c,
            ;
            assert(c * (i1 + 1) == c * (i as int)) by (nonlinear_arith)
                requires
                    i as int == i1 + 1,
            ;
        }
    }

    /// Allocates a run of `size` consecutive free slots aligned to
    /// `2^align_log2`. With `base` given only that exact placement is
    /// attempted; otherwise the lowest legal placement is taken.
    /// All-or-nothing: on failure nothing changes.
    pub fn alloc_contiguous(&mut self, base: Option<usize>, size: usize, align_log2: usize) -> (r:
        Option<usize>)
        requires
            old(self).wf(),
            2 * Self::cap_spec() <= usize::MAX as nat,
            align_log2 < usize::BITS,
        ensures
            final(self).wf(),
            contiguous_result(*old(self), *final(self), r, base, size as int, align_log2 as nat),
    {
        alloc_contiguous_in(self, base, size, align_log2)
    }
}

} // verus!
