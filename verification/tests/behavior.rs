use bitmap_allocator::{
    align_up_log2, check_contiguous, is_aligned_log2, BitAlloc, BitAlloc16, BitAlloc16M,
    BitAlloc1M, BitAlloc256, BitAlloc256M, BitAlloc4K, BitAlloc64K, BitAllocCascade16, RangeOp,
};

#[test]
fn capacities_compose() {
    assert_eq!(BitAlloc16::capacity(), 16);
    assert_eq!(BitAlloc256::capacity(), 256);
    assert_eq!(BitAlloc4K::capacity(), 4096);
    assert_eq!(BitAlloc64K::capacity(), 65536);
    assert_eq!(BitAlloc1M::capacity(), 1 << 20);
    assert_eq!(BitAlloc16M::capacity(), 1 << 24);
    assert_eq!(BitAlloc256M::capacity(), 1 << 28);
}

#[test]
fn fresh_node_is_fully_allocated() {
    let mut leaf = BitAlloc16::new();
    assert!(leaf.is_empty());
    assert!(!leaf.any());
    assert_eq!(leaf.allocate(), None);
    assert_eq!(leaf.next(0), None);
    for i in 0..16 {
        assert!(!leaf.test(i));
    }

    let mut big = BitAlloc256::new();
    assert!(big.is_empty());
    assert_eq!(big.allocate(), None);
    assert_eq!(big.next(0), None);
}

#[test]
fn drain_yields_every_slot_in_increasing_order() {
    // A freshly inserted node hands out 0, 1, ..., CAP - 1, each once.
    let mut leaf = BitAlloc16::default();
    leaf.insert(0..16);
    for expected in 0..16 {
        assert_eq!(leaf.allocate(), Some(expected));
    }
    assert!(leaf.is_empty());
    assert_eq!(leaf.allocate(), None);

    let mut ba = BitAlloc256::default();
    ba.insert(0..256);
    for expected in 0..256 {
        assert_eq!(ba.allocate(), Some(expected));
    }
    assert!(ba.is_empty());
    assert_eq!(ba.allocate(), None);
}

#[test]
fn allocate_only_returns_free_slots() {
    let mut ba = BitAlloc256::default();
    ba.insert(32..48);
    let got = ba.allocate().unwrap();
    assert_eq!(got, 32);
    // The slot is claimed: no longer free, and not handed out twice.
    assert!(!ba.test(got));
    assert_eq!(ba.allocate(), Some(33));
}

#[test]
fn aligned_allocation_skips_misaligned_free_runs() {
    let mut ba = BitAlloc16::default();
    ba.insert(0..16);
    assert_eq!(ba.allocate(), Some(0));
    assert_eq!(ba.alloc_contiguous(None, 2, 0), Some(1));
    // Slot 3 is free but 3 is odd, so 2-aligned search lands on 4.
    assert_eq!(ba.alloc_contiguous(None, 2, 1), Some(4));
    assert!(ba.test(3));
    assert!(!ba.test(4));
    assert!(!ba.test(5));
}

#[test]
fn explicit_base_fails_without_mutating() {
    let mut ba = BitAlloc16::default();
    ba.insert(0..16);
    ba.remove(5..6);
    // Slot 5 of the requested run is allocated.
    assert_eq!(ba.alloc_contiguous(Some(4), 2, 0), None);
    assert!(ba.test(4));
    // A misaligned base is rejected outright.
    assert_eq!(ba.alloc_contiguous(Some(3), 2, 1), None);
    assert!(ba.test(3));
    for i in 0..16 {
        assert_eq!(ba.test(i), i != 5);
    }
}

#[test]
fn dealloc_reports_prior_state_and_frees() {
    let mut ba = BitAlloc256::default();
    ba.insert(0..8);
    assert!(!ba.dealloc(3));
    assert!(ba.test(3));
    ba.remove(3..4);
    assert!(ba.dealloc(3));
    assert!(ba.test(3));
}

#[test]
fn dealloc_contiguous_is_all_or_nothing() {
    let mut ba = BitAlloc256::default();
    ba.insert(0..256);
    ba.remove(0..256);
    assert!(ba.dealloc(100));
    // The range 90..110 spans two children and contains the free slot 100.
    assert!(!ba.dealloc_contiguous(90, 20));
    for i in 90..110 {
        assert_eq!(ba.test(i), i == 100);
    }
    // A fully allocated range spanning two children is freed in one call.
    assert!(ba.dealloc_contiguous(60, 40));
    for i in 60..100 {
        assert!(ba.test(i));
    }
    // Out of range: rejected, nothing changes.
    assert!(!ba.dealloc_contiguous(250, 10));
    // Freeing an already-free range fails.
    assert!(!ba.dealloc_contiguous(60, 40));
}

#[test]
fn for_range_applies_both_operations() {
    let mut ba: BitAllocCascade16<BitAlloc16> = BitAllocCascade16::new();
    ba.for_range(3..35, RangeOp::Insert);
    for i in 0..64 {
        assert_eq!(ba.test(i), (3..35).contains(&i));
    }
    ba.for_range(10..20, RangeOp::Remove);
    for i in 0..64 {
        assert_eq!(ba.test(i), (3..10).contains(&i) || (20..35).contains(&i));
    }
}

#[test]
fn alignment_helpers_compute_exact_values() {
    assert_eq!(align_up_log2(5, 0), 5);
    assert_eq!(align_up_log2(5, 1), 6);
    assert_eq!(align_up_log2(5, 3), 8);
    assert_eq!(align_up_log2(8, 3), 8);
    assert_eq!(align_up_log2(0, 4), 0);
    assert!(is_aligned_log2(0, 7));
    assert!(is_aligned_log2(12, 2));
    assert!(!is_aligned_log2(13, 2));
    assert!(!is_aligned_log2(8, 4));
}

#[test]
fn check_contiguous_verifies_exact_placement() {
    let mut ba = BitAlloc16::default();
    ba.insert(4..12);
    assert!(check_contiguous(&ba, 4, 16, 8, 2));
    assert!(!check_contiguous(&ba, 3, 16, 2, 0));
    assert!(!check_contiguous(&ba, 4, 16, 9, 2));
    // Capacity below the alignment always fails.
    assert!(!check_contiguous(&ba, 4, 16, 1, 5));
}

#[test]
fn next_scans_from_key() {
    let mut ba = BitAlloc4K::default();
    ba.insert(100..105);
    ba.insert(1000..1001);
    assert_eq!(ba.next(0), Some(100));
    assert_eq!(ba.next(100), Some(100));
    assert_eq!(ba.next(105), Some(1000));
    assert_eq!(ba.next(1001), None);
    assert_eq!(ba.next(4096), None);
}
