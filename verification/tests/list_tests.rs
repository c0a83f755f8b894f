//! The first-fit linked-list heap: feeding, first fit, splitting, freeing.
use kernel_alloc::heap::Layout;
use kernel_alloc::list::{Allocator, Node};

#[test]
fn list_empty_alloc_fails() {
    let mut a = Allocator::new();
    assert!(a.allocate(Layout::from_size_align(1, 1).unwrap()).is_none());
}

#[test]
fn list_alloc_and_free_cycle() {
    let mut a = Allocator::new();
    let base: usize = 0x1000;
    a.init(base, 100 * 8);
    let layout = Layout::from_size_align(1, 1).unwrap();
    for _ in 0..100 {
        let p = a.allocate(layout).unwrap();
        a.dealloc(p, layout);
    }
    assert!(a.allocate(layout).is_some());
}

#[test]
fn list_first_fit_takes_front_region() {
    let mut a = Allocator::new();
    a.init(0x1000, 64);
    a.init(0x2000, 64);
    // the most recently fed region sits at the head of the chain
    let layout = Layout::from_size_align(16, 8).unwrap();
    let p = a.allocate(layout).unwrap();
    assert_eq!(p, 0x2000);
}

#[test]
fn list_splits_trailing_excess() {
    let mut a = Allocator::new();
    a.init(0x1000, 64);
    let layout = Layout::from_size_align(16, 8).unwrap();
    let p = a.allocate(layout).unwrap();
    assert_eq!(p, 0x1000);
    // the remainder was chained, so a second request succeeds
    let q = a.allocate(layout).unwrap();
    assert_eq!(q, 0x1010);
}

#[test]
fn list_region_too_small_is_skipped() {
    let mut a = Allocator::new();
    a.init(0x1000, 16);
    // 16 bytes cannot serve 24 bytes
    assert!(a.allocate(Layout::from_size_align(24, 8).unwrap()).is_none());
    // but they serve 16
    assert_eq!(a.allocate(Layout::from_size_align(16, 8).unwrap()), Some(0x1000));
}

#[test]
fn list_no_sliver_left_behind() {
    let mut a = Allocator::new();
    a.init(0x1000, 24);
    // taking 16 would leave 8 bytes, too small for a header: refused
    assert!(a.allocate(Layout::from_size_align(16, 8).unwrap()).is_none());
    // taking all 24 works
    assert_eq!(a.allocate(Layout::from_size_align(24, 8).unwrap()), Some(0x1000));
}

#[test]
fn list_alignment_is_honored() {
    let mut a = Allocator::new();
    a.init(0x1008, 0x100 - 8);
    let layout = Layout::from_size_align(16, 64).unwrap();
    let p = a.allocate(layout).unwrap();
    assert_eq!(p % 64, 0);
}

#[test]
fn list_size_align_adjusts_requests() {
    // sizes round up to the header alignment and to a header's size
    assert_eq!(Allocator::size_align(Layout::from_size_align(1, 1).unwrap()), (16, 8));
    assert_eq!(Allocator::size_align(Layout::from_size_align(20, 8).unwrap()), (24, 8));
    assert_eq!(Allocator::size_align(Layout::from_size_align(1, 32).unwrap()), (32, 32));
}

#[test]
fn list_node_addresses() {
    let n = Node::new(0x1000, 48);
    assert_eq!(n.start_address(), 0x1000);
    assert_eq!(n.end_address(), 0x1030);
}

#[test]
fn list_alloc_from_region_checks_fit() {
    let n = Node::new(0x1000, 32);
    assert_eq!(Allocator::alloc_from_region(&n, 32, 8), Ok(0x1000));
    assert!(Allocator::alloc_from_region(&n, 24, 8).is_err());
    assert_eq!(Allocator::alloc_from_region(&n, 16, 8), Ok(0x1000));
}
