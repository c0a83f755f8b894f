//! The buddy byte heap: layouts, feeding, allocation, freeing, counters.
use kernel_alloc::heap::{AllocError, Heap, Layout};

#[test]
fn test_empty_heap() {
    let mut heap = Heap::new();
    assert!(heap.allocate(Layout::from_size_align(1, 1).unwrap()).is_err());
}

#[test]
fn test_heap_add() {
    let mut heap = Heap::new();
    assert!(heap.allocate(Layout::from_size_align(1, 1).unwrap()).is_err());

    // a region of one hundred words
    let base: usize = 0x1000;
    heap.add_to_heap(base, base + 100 * 8);
    let addr = heap.allocate(Layout::from_size_align(1, 1).unwrap());
    assert!(addr.is_ok());
}

#[test]
fn test_heap_oom() {
    let mut heap = Heap::new();
    let base: usize = 0x1000;
    heap.add_to_heap(base, base + 100 * 8);

    // the whole extent cannot come out as one block: rounding to a power of
    // two exceeds what any single free block holds
    assert!(heap.allocate(Layout::from_size_align(100 * 8, 1).unwrap()).is_err());
    assert!(heap.allocate(Layout::from_size_align(1, 1).unwrap()).is_ok());
}

#[test]
fn test_heap_alloc_and_free() {
    let mut heap = Heap::new();
    assert!(heap.allocate(Layout::from_size_align(1, 1).unwrap()).is_err());

    let base: usize = 0x1000;
    heap.add_to_heap(base, base + 100 * 8);
    let initial = heap.stats();
    for _ in 0..100 {
        let addr = heap.allocate(Layout::from_size_align(1, 1).unwrap()).unwrap();
        heap.dealloc(addr, Layout::from_size_align(1, 1).unwrap());
    }
    assert_eq!(heap.stats(), initial);
}

#[test]
fn heap_alignment_greater_than_size() {
    let mut heap = Heap::new();
    let base: usize = 0x10000;
    heap.add_to_heap(base, base + 4096);
    // alignment 256 with size 1: the request is promoted to the alignment
    let layout = Layout::from_size_align(1, 256).unwrap();
    let addr = heap.allocate(layout).unwrap();
    assert_eq!(addr % 256, 0);
    let (user, allocated, total) = heap.stats();
    assert_eq!(user, 1);
    assert_eq!(allocated, 256);
    assert_eq!(total, 4096);
    heap.dealloc(addr, layout);
    assert_eq!(heap.stats(), (0, 0, 4096));
}

#[test]
fn heap_layout_rejects_bad_alignment() {
    assert!(Layout::from_size_align(8, 0).is_none());
    assert!(Layout::from_size_align(8, 3).is_none());
    assert!(Layout::from_size_align(8, 12).is_none());
    assert!(Layout::from_size_align(8, 8).is_some());
}

#[test]
fn heap_error_is_out_of_memory() {
    let mut heap = Heap::new();
    let err = heap.allocate(Layout::from_size_align(1, 1).unwrap()).unwrap_err();
    assert_eq!(err, AllocError::OutOfMemory);
}

#[test]
fn heap_counters_track_requests() {
    let mut heap = Heap::new();
    let base: usize = 0x2000;
    heap.add_to_heap(base, base + 1024);
    assert_eq!(heap.stats(), (0, 0, 1024));
    // 24 bytes round up to a 32-byte block
    let layout = Layout::from_size_align(24, 8).unwrap();
    let addr = heap.allocate(layout).unwrap();
    assert_eq!(addr % 32, 0);
    assert_eq!(heap.stats(), (24, 32, 1024));
    heap.dealloc(addr, layout);
    assert_eq!(heap.stats(), (0, 0, 1024));
}

#[test]
fn heap_word_alignment_of_feed() {
    let mut heap = Heap::new();
    // unaligned ends are trimmed inward to word boundaries
    heap.add_to_heap(0x1003, 0x1003 + 64);
    let (_, _, total) = heap.stats();
    assert_eq!(total, 56);
}

#[test]
fn heap_coalesces_on_free() {
    let mut heap = Heap::new();
    let base: usize = 0x4000;
    heap.add_to_heap(base, base + 64);
    // carve the block into two halves, then free both: the block coalesces
    let l32 = Layout::from_size_align(32, 8).unwrap();
    let a = heap.allocate(l32).unwrap();
    let b = heap.allocate(l32).unwrap();
    assert_ne!(a, b);
    heap.dealloc(a, l32);
    heap.dealloc(b, l32);
    let l64 = Layout::from_size_align(64, 8).unwrap();
    assert_eq!(heap.allocate(l64), Ok(base));
}
