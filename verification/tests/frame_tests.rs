//! The frame allocator: creation, feeding, allocation and coalescing.
use kernel_alloc::frame::FrameAllocator;

#[test]
fn test_empty_frame_allocator() {
    let mut frame = FrameAllocator::new();
    assert!(frame.allocate(1).is_none());
}

#[test]
fn test_frame_allocator_add() {
    let mut frame = FrameAllocator::new();
    assert!(frame.allocate(1).is_none());

    frame.insert(0..3);
    let num = frame.allocate(1);
    assert_eq!(num, Some(2));
    let num = frame.allocate(2);
    assert_eq!(num, Some(0));
    assert!(frame.allocate(1).is_none());
    assert!(frame.allocate(2).is_none());
}

#[test]
fn test_frame_allocator_alloc_and_free() {
    let mut frame = FrameAllocator::new();
    assert!(frame.allocate(1).is_none());

    frame.add_frame(0, 1024);
    let initial = frame.stats();
    for _ in 0..100 {
        let addr = frame.allocate(512).unwrap();
        frame.dealloc(addr, 512);
    }
    assert_eq!(frame.stats(), initial);
    // the restored state serves the same block again
    assert_eq!(frame.allocate(512), Some(0));
}

#[test]
fn test_frame_allocator_alloc_and_free_complex() {
    let mut frame = FrameAllocator::new();
    frame.add_frame(100, 1024);
    for _ in 0..10 {
        let addr = frame.allocate(1).unwrap();
        frame.dealloc(addr, 1);
    }
    let addr1 = frame.allocate(1).unwrap();
    let addr2 = frame.allocate(1).unwrap();
    assert_ne!(addr1, addr2);
}

#[test]
fn frame_request_exceeding_total_fails() {
    let mut frame = FrameAllocator::new();
    frame.add_frame(0, 4);
    assert!(frame.allocate(8).is_none());
    assert!(frame.allocate(4).is_some());
}

#[test]
fn frame_request_at_max_order() {
    let mut frame = FrameAllocator::new();
    // one block of the highest order: 2^31 frames starting at 0
    frame.add_frame(0, 1 << 31);
    assert_eq!(frame.allocate(1 << 31), Some(0));
    assert!(frame.allocate(1).is_none());
    frame.dealloc(0, 1 << 31);
    assert_eq!(frame.allocate(1 << 31), Some(0));
}

#[test]
fn frame_count_rounds_to_power_of_two() {
    let mut frame = FrameAllocator::new();
    frame.add_frame(0, 8);
    // a request for 3 frames takes a block of 4
    let addr = frame.allocate(3).unwrap();
    assert_eq!(addr % 4, 0);
    assert_eq!(frame.stats(), (4, 8));
    frame.dealloc(addr, 3);
    assert_eq!(frame.stats(), (0, 8));
}

#[test]
fn frame_single_frame_region() {
    let mut frame = FrameAllocator::new();
    frame.add_frame(5, 6);
    assert_eq!(frame.allocate(1), Some(5));
    assert!(frame.allocate(1).is_none());
    frame.dealloc(5, 1);
    assert_eq!(frame.allocate(1), Some(5));
}

#[test]
fn frame_feeding_order_does_not_matter() {
    let mut ab = FrameAllocator::new();
    ab.add_frame(0, 4);
    ab.add_frame(8, 12);
    let mut ba = FrameAllocator::new();
    ba.add_frame(8, 12);
    ba.add_frame(0, 4);
    assert_eq!(ab.stats(), ba.stats());
    // both serve the same sequence of blocks
    for _ in 0..2 {
        let x = ab.allocate(4);
        let y = ba.allocate(4);
        assert_eq!(x, y);
    }
    assert_eq!(ab.allocate(1), ba.allocate(1));
}
