use bitmap_allocator::{
    find_contiguous, BitAlloc, BitAlloc16, BitAlloc4K,
};

#[test]
fn bitalloc16() {
    let mut ba = BitAlloc16::default();
    assert_eq!(BitAlloc16::capacity(), 16);
    ba.insert(0..16);
    for i in 0..16 {
        assert!(ba.test(i));
    }
    ba.remove(2..8);
    assert_eq!(ba.allocate(), Some(0));
    assert_eq!(ba.allocate(), Some(1));
    assert_eq!(ba.allocate(), Some(8));
    ba.dealloc(0);
    ba.dealloc(1);
    ba.dealloc(8);

    assert!(!ba.is_empty());
    for _ in 0..10 {
        assert!(ba.allocate().is_some());
    }
    assert!(ba.is_empty());
    assert!(ba.allocate().is_none());

    for key in 0..16 {
        assert!(ba.dealloc(key));
    }

    assert!(!ba.dealloc(10));
    assert!(!ba.dealloc(0));

    assert_eq!(ba.allocate(), Some(0));
    assert_eq!(ba.test(0), false);
    assert_eq!(ba.alloc_contiguous(None, 2, 0), Some(1));
    assert_eq!(ba.test(1), false);
    assert_eq!(ba.test(2), false);

    // Test alloc alignment.
    assert_eq!(ba.alloc_contiguous(None, 2, 1), Some(4));
    // Bit 3 is free due to alignment.
    assert_eq!(ba.test(3), true);
    assert_eq!(ba.test(4), false);
    assert_eq!(ba.test(5), false);
    assert_eq!(ba.next(5), Some(6));

    // Test alloc alignment.
    assert_eq!(ba.alloc_contiguous(None, 3, 3), Some(8));
    assert_eq!(ba.next(8), Some(11));

    assert_eq!(ba.alloc_contiguous(Some(2), 2, 1), None);
    assert_eq!(ba.alloc_contiguous(Some(6), 2, 1), Some(6));
    assert_eq!(ba.alloc_contiguous(Some(6), 2, 1), None);

    assert!(ba.dealloc_contiguous(8, 3));

    assert_eq!(ba.alloc_contiguous(Some(8), 3, 2), Some(8));
    assert_eq!(ba.next(8), Some(11));
    assert_eq!(ba.alloc_contiguous(Some(11), 1, 0), Some(11));
    assert_eq!(ba.next(11), Some(12));

    assert_eq!(ba.alloc_contiguous(Some(12), 3, 2), Some(12));

    assert_eq!(ba.next(12), Some(15));

    assert_eq!(ba.allocate(), Some(3));
    assert_eq!(ba.allocate(), Some(15));

    assert!(ba.is_empty());
    assert!(ba.allocate().is_none());

    assert!(ba.dealloc_contiguous(6, 2));
    assert!(ba.dealloc_contiguous(8, 3));
    assert!(ba.dealloc_contiguous(11, 1));
    assert!(ba.dealloc_contiguous(12, 3));
}

#[test]
fn bitalloc4k() {
    let mut ba = BitAlloc4K::default();
    assert_eq!(BitAlloc4K::capacity(), 4096);
    ba.insert(0..4096);
    for i in 0..4096 {
        assert!(ba.test(i));
    }
    ba.remove(2..4094);
    for i in 0..4096 {
        assert_eq!(ba.test(i), !(2..4094).contains(&i));
    }
    assert_eq!(ba.allocate(), Some(0));
    assert_eq!(ba.allocate(), Some(1));
    assert_eq!(ba.allocate(), Some(4094));
    ba.dealloc(0);
    ba.dealloc(1);
    ba.dealloc(4094);

    assert!(!ba.is_empty());
    for _ in 0..4 {
        assert!(ba.allocate().is_some());
    }
    assert!(ba.is_empty());
    assert!(ba.allocate().is_none());
}

#[test]
fn bitalloc_contiguous() {
    let mut ba0 = BitAlloc16::default();
    ba0.insert(0..BitAlloc16::capacity());
    ba0.remove(3..6);
    assert_eq!(ba0.next(0), Some(0));
    assert_eq!(ba0.alloc_contiguous(None, 1, 1), Some(0));
    assert_eq!(find_contiguous(&ba0, BitAlloc4K::capacity(), 2, 0), Some(1));

    let mut ba = BitAlloc4K::default();
    assert_eq!(BitAlloc4K::capacity(), 4096);
    ba.insert(0..BitAlloc4K::capacity());
    ba.remove(3..6);
    assert_eq!(ba.next(0), Some(0));
    assert_eq!(ba.alloc_contiguous(None, 1, 1), Some(0));
    assert_eq!(ba.next(0), Some(1));
    assert_eq!(ba.next(1), Some(1));
    assert_eq!(ba.next(2), Some(2));
    assert_eq!(find_contiguous(&ba, BitAlloc4K::capacity(), 2, 0), Some(1));
    assert_eq!(ba.alloc_contiguous(None, 2, 0), Some(1));
    assert_eq!(ba.alloc_contiguous(None, 2, 3), Some(8));
    ba.remove(0..4096 - 64);
    assert_eq!(ba.alloc_contiguous(None, 128, 7), None);
    assert_eq!(ba.alloc_contiguous(None, 7, 3), Some(4096 - 64));
    ba.insert(321..323);
    assert_eq!(ba.alloc_contiguous(None, 2, 1), Some(4096 - 64 + 8));
    assert_eq!(ba.alloc_contiguous(None, 2, 0), Some(321));
    assert_eq!(ba.alloc_contiguous(None, 64, 6), None);
    assert_eq!(ba.alloc_contiguous(None, 32, 4), Some(4096 - 48));
    for i in 0..4096 - 64 + 7 {
        assert!(ba.dealloc(i));
    }
    for i in 4096 - 64 + 8..4096 - 64 + 10 {
        assert!(ba.dealloc(i));
    }
    for i in 4096 - 48..4096 - 16 {
        assert!(ba.dealloc(i));
    }
}
