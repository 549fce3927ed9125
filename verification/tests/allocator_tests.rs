use sv39_mm::addr::PhysPage;
use sv39_mm::frame_allocator::{
    frame_alloc, frame_alloc_more, frame_dealloc, init, init_frame_allocator, FrameTracker,
    StackFrameAllocator,
};
use sv39_mm::phys_mem::PhysMemory;
use sv39_mm::pte::PTE;

#[test]
fn alloc_recycle_lifo_and_exhaustion() {
    let mut a = StackFrameAllocator::new();
    a.init(PhysPage::new(100), PhysPage::new(103));
    assert_eq!(a.alloc_frame(), Some(PhysPage::new(100)));
    assert_eq!(a.alloc_frame(), Some(PhysPage::new(101)));
    a.dealloc(PhysPage::new(100));
    // the most recently freed page comes back first
    assert_eq!(a.alloc_frame(), Some(PhysPage::new(100)));
    assert_eq!(a.alloc_frame(), Some(PhysPage::new(102)));
    assert_eq!(a.alloc_frame(), None);
}

#[test]
fn double_free_is_refused() {
    let mut a = StackFrameAllocator::new();
    a.init(PhysPage::new(100), PhysPage::new(103));
    assert_eq!(a.alloc_frame(), Some(PhysPage::new(100)));
    assert!(a.try_dealloc(PhysPage::new(100)));
    // freeing again without an intervening alloc is rejected
    assert!(!a.try_dealloc(PhysPage::new(100)));
    // a page never handed out is rejected too
    assert!(!a.try_dealloc(PhysPage::new(102)));
}

#[test]
fn conservation_over_alloc_dealloc() {
    let mut a = StackFrameAllocator::new();
    a.init(PhysPage::new(10), PhysPage::new(14));
    let p1 = a.alloc_frame().unwrap();
    let p2 = a.alloc_frame().unwrap();
    assert_ne!(p1, p2);
    a.dealloc(p1);
    let p3 = a.alloc_frame().unwrap();
    let p4 = a.alloc_frame().unwrap();
    // no page is live twice: p2, p3, p4 are pairwise distinct
    assert_ne!(p2, p3);
    assert_ne!(p2, p4);
    assert_ne!(p3, p4);
}

#[test]
fn alloc_more_bumps_descending() {
    let mut a = StackFrameAllocator::new();
    a.init(PhysPage::new(100), PhysPage::new(110));
    let v = a.alloc_more(3).unwrap();
    assert_eq!(v, vec![PhysPage::new(102), PhysPage::new(101), PhysPage::new(100)]);
    assert_eq!(a.current, 103);
}

#[test]
fn alloc_more_needs_strictly_more_room() {
    let mut a = StackFrameAllocator::new();
    a.init(PhysPage::new(100), PhysPage::new(103));
    // three pages remain but the bump must stay strictly below the end
    assert!(a.alloc_more(3).is_none());
    assert!(a.alloc_more(2).is_some());
}

#[test]
fn alloc_more_ignores_recycled() {
    let mut a = StackFrameAllocator::new();
    a.init(PhysPage::new(100), PhysPage::new(110));
    let p = a.alloc_frame().unwrap();
    a.dealloc(p);
    let v = a.alloc_more(2).unwrap();
    // recycled pages are not consulted: the bump range is used
    assert_eq!(v, vec![PhysPage::new(102), PhysPage::new(101)]);
}

#[test]
fn boot_allocator_rounds_to_whole_pages() {
    let a = init_frame_allocator(0xffff_ffc0_8020_1234, 0x8800_0000);
    assert_eq!(a.current, 0x80202);
    assert_eq!(a.end, 0x88000);
    let b = init(0xffff_ffc0_8020_1234, 0x8800_0000);
    assert_eq!(b.current, a.current);
    assert_eq!(b.end, a.end);
}

#[test]
fn frame_tracker_zeroes_and_returns() {
    let mut mem = PhysMemory::new(100, 4);
    let mut a = StackFrameAllocator::new();
    a.init(PhysPage::new(100), PhysPage::new(104));
    let p = frame_alloc(&mut a).unwrap();
    mem.write_pte(p.0, 0, PTE(0xdead));
    let tracker = FrameTracker::new(p, &mut mem);
    assert_eq!(mem.read_pte(p.0, 0), PTE(0));
    assert_eq!(tracker.ppn, p);
    tracker.release(&mut a);
    // the released frame is handed out again
    assert_eq!(a.alloc_frame(), Some(p));
}

#[test]
fn frame_dealloc_returns_page() {
    let mut a = StackFrameAllocator::new();
    a.init(PhysPage::new(50), PhysPage::new(53));
    let p = a.alloc_frame().unwrap();
    frame_dealloc(&mut a, p);
    assert_eq!(a.alloc_frame(), Some(p));
}

#[test]
fn frame_alloc_more_wraps_zeroed_trackers() {
    let mut mem = PhysMemory::new(100, 8);
    let mut a = StackFrameAllocator::new();
    a.init(PhysPage::new(100), PhysPage::new(106));
    mem.write_pte(100, 3, PTE(0x1234));
    let trackers = frame_alloc_more(&mut a, &mut mem, 2).unwrap();
    assert_eq!(trackers.len(), 2);
    assert_eq!(trackers[0].ppn, PhysPage::new(101));
    assert_eq!(trackers[1].ppn, PhysPage::new(100));
    // the wrapped frames were zeroed
    assert_eq!(mem.read_pte(100, 3), PTE(0));
}

#[test]
fn copy_frame_duplicates_contents() {
    let mut mem = PhysMemory::new(100, 4);
    mem.write_pte(101, 7, PTE(0xabcd));
    mem.write_pte(101, 511, PTE(0x42));
    mem.copy_frame(102, 101);
    assert_eq!(mem.read_pte(102, 7), PTE(0xabcd));
    assert_eq!(mem.read_pte(102, 511), PTE(0x42));
    assert_eq!(mem.read_pte(102, 0), PTE(0));
    // the source keeps its contents
    assert_eq!(mem.read_pte(101, 7), PTE(0xabcd));
}
