use sv39_mm::addr::{PhysAddr, PhysPage, VirtAddr, VirtPage};
use sv39_mm::frame_allocator::StackFrameAllocator;
use sv39_mm::page_table::PageTable;
use sv39_mm::phys_mem::PhysMemory;
use sv39_mm::pte::{MappingFlags, PTEFlags, FLAG_VRWX, MAP_R, MAP_U, MAP_W, PTE};

const TRX_ADDR: u64 = 0x8030_0000;

fn setup() -> (PhysMemory, StackFrameAllocator, PageTable) {
    let mut mem = PhysMemory::new(100, 20);
    let mut allocator = StackFrameAllocator::new();
    allocator.init(PhysPage::new(100), PhysPage::new(110));
    let pt = PageTable::alloc_table(&mut mem, &mut allocator, TRX_ADDR);
    (mem, allocator, pt)
}

#[test]
fn satp_round_trip() {
    let pt = PageTable::from_satp(0x8000_0000_0000_0000 | 0x80123);
    assert_eq!(pt.0, PhysAddr::new(0x80123 << 12));
    assert_eq!(pt.get_satp(), 0x8000_0000_0000_0000 | 0x80123);
    assert_eq!(pt.root_ppn(), 0x80123);
}

#[test]
fn restore_installs_kernel_skeleton() {
    let (mem, _allocator, pt) = setup();
    let root = pt.root_ppn();
    assert_eq!(root, 100);
    // the user half is empty
    for i in 0..256 {
        assert_eq!(mem.read_pte(root, i), PTE(0));
    }
    // the five fixed high slots direct-map the kernel regions
    assert_eq!(mem.read_pte(root, 0x100), PTE::from_addr(0x0000_0000, PTEFlags(0xef)));
    assert_eq!(mem.read_pte(root, 0x101), PTE::from_addr(0x4000_0000, PTEFlags(0xef)));
    assert_eq!(mem.read_pte(root, 0x102), PTE::from_addr(0x8000_0000, PTEFlags(0xef)));
    assert_eq!(mem.read_pte(root, 0x104), PTE::from_addr(TRX_ADDR, PTEFlags(0x01)));
    assert_eq!(mem.read_pte(root, 0x106), PTE::from_addr(0x8000_0000, PTEFlags(0xef)));
    // other high slots stay zero (the root frame was zeroed first)
    assert_eq!(mem.read_pte(root, 0x103), PTE(0));
    assert_eq!(mem.read_pte(root, 0x1ff), PTE(0));
}

#[test]
fn map_then_translate_walks_to_the_leaf() {
    let (mut mem, mut allocator, pt) = setup();
    let vpn = VirtAddr::new(0x12345).floor();
    assert_eq!(vpn, VirtPage::new(0x12));
    pt.map(
        &mut mem,
        &mut allocator,
        PhysPage::new(0xCAFE),
        vpn,
        MappingFlags(MAP_R | MAP_W | MAP_U),
        3,
    );
    let leaf = pt.translate(&mem, vpn).unwrap();
    assert_eq!(leaf.to_ppn(), PhysPage::new(0xCAFE));
    // V|R|W|U plus the forced A and D
    assert_eq!(leaf.flags().bits(), 0xd7);
    assert_eq!(
        pt.translate_va(&mem, VirtAddr::new(0x12000)),
        Some(PhysAddr::new(0xCAFE << 12)),
    );
    assert_eq!(
        pt.translate_va(&mem, VirtAddr::new(0x12abc)),
        Some(PhysAddr::new((0xCAFE << 12) | 0xabc)),
    );
    assert_eq!(
        pt.virt_to_phys(&mem, VirtAddr::new(0x12abc)),
        Some(PhysAddr::new((0xCAFE << 12) | 0xabc)),
    );
    // a neighbouring page stays unmapped
    assert_eq!(pt.translate(&mem, VirtPage::new(0x13)), None);
    assert_eq!(pt.translate_va(&mem, VirtAddr::new(0x13000)), None);
}

#[test]
fn huge_entry_translates_with_wide_offset() {
    let (mut mem, _allocator, pt) = setup();
    // install a 1 GiB mapping by hand in a high slot
    mem.write_pte(pt.root_ppn(), 0x100, PTE::from_ppn(0x99999, PTEFlags(FLAG_VRWX)));
    let va = VirtAddr::new((0x100u64 << 30) | 0x1234_5678);
    assert_eq!(
        pt.virt_to_phys(&mem, va),
        Some(PhysAddr::new((0x99999 << 12) | 0x1234_5678)),
    );
}

#[test]
fn unmap_clears_and_is_idempotent() {
    let (mut mem, mut allocator, pt) = setup();
    let vpn = VirtPage::new(0x12);
    pt.map(
        &mut mem,
        &mut allocator,
        PhysPage::new(0xCAFE),
        vpn,
        MappingFlags(MAP_R | MAP_W),
        3,
    );
    assert!(pt.translate(&mem, vpn).is_some());
    pt.unmap(&mut mem, vpn);
    assert_eq!(pt.translate(&mem, vpn), None);
    // the hardware walker misses too: the leaf word is zero, not flag junk
    assert_eq!(pt.virt_to_phys(&mem, VirtAddr::new(0x12000)), None);
    assert_eq!(pt.find_pte(&mem, vpn), Some(PTE(0)));
    // unmapping again succeeds and leaves the page unmapped
    pt.unmap(&mut mem, vpn);
    assert_eq!(pt.translate(&mem, vpn), None);
    assert_eq!(pt.virt_to_phys(&mem, VirtAddr::new(0x12abc)), None);
    // unmapping a page that was never mapped is a no-op
    pt.unmap(&mut mem, VirtPage::new(0x999));
    assert_eq!(pt.translate(&mem, VirtPage::new(0x999)), None);
}

#[test]
fn map_keeps_other_mappings() {
    let (mut mem, mut allocator, pt) = setup();
    pt.map(
        &mut mem,
        &mut allocator,
        PhysPage::new(0x1111),
        VirtPage::new(0x12),
        MappingFlags(MAP_R),
        3,
    );
    pt.map(
        &mut mem,
        &mut allocator,
        PhysPage::new(0x2222),
        VirtPage::new(0x13),
        MappingFlags(MAP_R),
        3,
    );
    assert_eq!(
        pt.translate(&mem, VirtPage::new(0x12)).unwrap().to_ppn(),
        PhysPage::new(0x1111),
    );
    assert_eq!(
        pt.translate(&mem, VirtPage::new(0x13)).unwrap().to_ppn(),
        PhysPage::new(0x2222),
    );
}

#[test]
fn release_returns_every_table_frame() {
    let (mut mem, mut allocator, pt) = setup();
    // two mappings in different 1 GiB regions: two level-1 and two level-0
    // frames besides the root
    pt.map(
        &mut mem,
        &mut allocator,
        PhysPage::new(0x1111),
        VirtPage::new(0x12),
        MappingFlags(MAP_R | MAP_W),
        3,
    );
    pt.map(
        &mut mem,
        &mut allocator,
        PhysPage::new(0x2222),
        VirtPage::new(0x40000),
        MappingFlags(MAP_R),
        3,
    );
    assert_eq!(allocator.current, 105);
    assert_eq!(allocator.recycled.len(), 0);
    pt.release(&mem, &mut allocator);
    // the root, both interior levels of both mappings: five frames in all
    assert_eq!(allocator.recycled.len(), 5);
    assert_eq!(allocator.current, 105);
    // the freed frames can be handed out again
    let p = allocator.alloc_frame().unwrap();
    assert_eq!(p, PhysPage::new(100));
}

#[test]
fn kernel_half_survives_map_and_unmap() {
    let (mut mem, mut allocator, pt) = setup();
    let root = pt.root_ppn();
    let before: Vec<PTE> = (256..512).map(|i| mem.read_pte(root, i)).collect();
    pt.map(
        &mut mem,
        &mut allocator,
        PhysPage::new(0x3333),
        VirtPage::new(0x77),
        MappingFlags(MAP_R | MAP_W),
        3,
    );
    pt.unmap(&mut mem, VirtPage::new(0x77));
    for i in 256..512 {
        assert_eq!(mem.read_pte(root, i), before[i - 256]);
    }
}

#[test]
fn translate_misses_without_interior_tables() {
    let (mem, _allocator, pt) = setup();
    assert_eq!(pt.find_pte(&mem, VirtPage::new(0x12)), None);
    assert_eq!(pt.translate(&mem, VirtPage::new(0x12)), None);
    assert_eq!(pt.virt_to_phys(&mem, VirtAddr::new(0x12000)), None);
}
