use sv39_mm::addr::{PhysPage, VirtAddr, VirtPage};
use sv39_mm::frame_allocator::StackFrameAllocator;
use sv39_mm::memory_set::{map_range, unmap_range, MemorySet};
use sv39_mm::phys_mem::PhysMemory;
use sv39_mm::pte::{MappingFlags, MAP_R, MAP_U, MAP_W};

const TRX_ADDR: u64 = 0x8030_0000;

fn setup() -> (PhysMemory, StackFrameAllocator, MemorySet) {
    let mut mem = PhysMemory::new(100, 40);
    let mut allocator = StackFrameAllocator::new();
    allocator.init(PhysPage::new(100), PhysPage::new(140));
    let ms = MemorySet::new_kernel(&mut mem, &mut allocator, TRX_ADDR);
    (mem, allocator, ms)
}

#[test]
fn kernel_space_starts_empty() {
    let (mem, _allocator, ms) = setup();
    assert_eq!(ms.areas.len(), 0);
    assert_eq!(ms.token(), 0x8000_0000_0000_0000 | 100);
    assert!(ms.page_table.translate(&mem, VirtPage::new(0x10)).is_none());
}

#[test]
fn framed_area_maps_every_page() {
    let (mut mem, mut allocator, mut ms) = setup();
    // three pages: [0x10000, 0x13000) rounds to pages 0x10..0x13
    ms.insert_framed_area(
        &mut mem,
        &mut allocator,
        VirtAddr::new(0x10000),
        VirtAddr::new(0x12001),
        MappingFlags(MAP_R | MAP_W | MAP_U),
    );
    assert_eq!(ms.areas.len(), 1);
    assert_eq!(ms.areas[0].vpn_range.l, VirtPage::new(0x10));
    assert_eq!(ms.areas[0].vpn_range.r, VirtPage::new(0x13));
    assert_eq!(ms.areas[0].frames.len(), 3);
    for k in 0..3u64 {
        let leaf = ms.page_table.translate(&mem, VirtPage::new(0x10 + k)).unwrap();
        assert_eq!(leaf.to_ppn(), ms.areas[0].frames[k as usize].ppn);
    }
    assert!(ms.page_table.translate(&mem, VirtPage::new(0x13)).is_none());
    assert!(ms.page_table.translate(&mem, VirtPage::new(0x0f)).is_none());
}

#[test]
fn two_areas_coexist() {
    let (mut mem, mut allocator, mut ms) = setup();
    ms.insert_framed_area(
        &mut mem,
        &mut allocator,
        VirtAddr::new(0x10000),
        VirtAddr::new(0x11000),
        MappingFlags(MAP_R),
    );
    ms.insert_framed_area(
        &mut mem,
        &mut allocator,
        VirtAddr::new(0x40000000),
        VirtAddr::new(0x40002000),
        MappingFlags(MAP_R | MAP_W),
    );
    assert_eq!(ms.areas.len(), 2);
    assert!(ms.page_table.translate(&mem, VirtPage::new(0x10)).is_some());
    assert!(ms.page_table.translate(&mem, VirtPage::new(0x40000)).is_some());
    assert!(ms.page_table.translate(&mem, VirtPage::new(0x40001)).is_some());
}

#[test]
fn removing_an_area_unmaps_and_frees() {
    let (mut mem, mut allocator, mut ms) = setup();
    ms.insert_framed_area(
        &mut mem,
        &mut allocator,
        VirtAddr::new(0x10000),
        VirtAddr::new(0x12000),
        MappingFlags(MAP_R | MAP_W),
    );
    ms.insert_framed_area(
        &mut mem,
        &mut allocator,
        VirtAddr::new(0x80000),
        VirtAddr::new(0x81000),
        MappingFlags(MAP_R),
    );
    let live_before = allocator.current - 100 - allocator.recycled.len() as u64;
    let found = ms.remove_area_with_start_vpn(&mut mem, &mut allocator, VirtPage::new(0x10));
    assert!(found);
    assert_eq!(ms.areas.len(), 1);
    // the removed pages are gone, the other area stays
    assert!(ms.page_table.translate(&mem, VirtPage::new(0x10)).is_none());
    assert!(ms.page_table.translate(&mem, VirtPage::new(0x11)).is_none());
    assert!(ms.page_table.translate(&mem, VirtPage::new(0x80)).is_some());
    // both data frames of the removed area came back
    let live_after = allocator.current - 100 - allocator.recycled.len() as u64;
    assert_eq!(live_before - live_after, 2);
    // removing again finds nothing and changes nothing
    let again = ms.remove_area_with_start_vpn(&mut mem, &mut allocator, VirtPage::new(0x10));
    assert!(!again);
    assert_eq!(ms.areas.len(), 1);
}

#[test]
fn map_range_then_unmap_range() {
    let mut mem = PhysMemory::new(100, 40);
    let mut allocator = StackFrameAllocator::new();
    allocator.init(PhysPage::new(100), PhysPage::new(140));
    let ms = MemorySet::new_kernel(&mut mem, &mut allocator, TRX_ADDR);
    let trackers = map_range(
        &ms.page_table,
        &mut mem,
        &mut allocator,
        VirtPage::new(0x20),
        VirtPage::new(0x24),
        MappingFlags(MAP_R),
    );
    assert_eq!(trackers.len(), 4);
    for t in &trackers {
        // backing frames are real allocator pages
        assert!(t.ppn.0 >= 100 && t.ppn.0 < 140);
    }
    assert!(ms.page_table.translate(&mem, VirtPage::new(0x22)).is_some());
    unmap_range(&ms.page_table, &mut mem, VirtPage::new(0x20), VirtPage::new(0x24));
    for k in 0..4u64 {
        assert!(ms.page_table.translate(&mem, VirtPage::new(0x20 + k)).is_none());
    }
}
