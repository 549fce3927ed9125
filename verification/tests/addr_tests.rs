use sv39_mm::addr::{
    PhysAddr, PhysPage, SimpleRange, SimpleRangeIterator, StepByOne, VirtAddr, VirtPage,
};

#[test]
fn phys_addr_floor_and_round_trip() {
    let a = PhysAddr::new(5000);
    assert_eq!(a.floor(), PhysPage::new(1));
    assert!(PhysPage::new(1).to_addr() <= 5000);
    assert!(5000 < PhysPage::new(1).to_addr() + 4096);
    assert_eq!(a.page_offset(), 5000 - 4096);
    assert!(!a.aligned());
    assert!(PhysAddr::new(0x2000).aligned());
    assert_eq!(PhysAddr::new(0x2000).addr(), 0x2000);
}

#[test]
fn ceil_law_values() {
    assert_eq!(PhysAddr::new(0).ceil(), PhysPage::new(0));
    assert_eq!(PhysAddr::new(1).ceil(), PhysPage::new(1));
    assert_eq!(PhysAddr::new(4096).ceil(), PhysPage::new(1));
    assert_eq!(PhysAddr::new(4097).ceil(), PhysPage::new(2));
    // on an aligned address ceil is exact
    assert_eq!(PhysAddr::new(0x8000).ceil().to_addr(), 0x8000);
    // for positive w, ceil(w) == floor(w + 4095)
    let w: u64 = 123456;
    assert_eq!(PhysAddr::new(w).ceil(), PhysAddr::new(w + 4095).floor());
    assert_eq!(VirtAddr::new(0).ceil(), VirtPage::new(0));
    assert_eq!(VirtAddr::new(8191).ceil(), VirtPage::new(2));
}

#[test]
fn virt_addr_paging() {
    let v = VirtAddr::new(0x12abc);
    assert_eq!(v.floor(), VirtPage::new(0x12));
    assert_eq!(v.page_offset(), 0xabc);
    assert!(!v.aligned());
    assert_eq!(VirtPage::from_addr(0x12abc), VirtPage::new(0x12));
    assert_eq!(VirtPage::new(0x12).to_addr(), 0x12000);
    assert_eq!(PhysPage::from_addr(0x12345), PhysPage::new(0x12));
    assert_eq!(PhysPage::new(0x12).to_addr(), 0x12000);
}

#[test]
fn vpn_indexes_reassemble() {
    let vpn = VirtPage::new((3 << 18) | (5 << 9) | 7);
    let idx = vpn.indexes();
    assert_eq!(idx, [3, 5, 7]);
    let rebuilt = (((idx[0] as u64) << 9 | (idx[1] as u64)) << 9) | (idx[2] as u64);
    assert_eq!(rebuilt, (3 << 18) | (5 << 9) | 7);
    // every index keeps to nine bits
    let vpn2 = VirtPage::new(0x7ff_ffff);
    let idx2 = vpn2.indexes();
    assert!(idx2[0] < 512 && idx2[1] < 512 && idx2[2] < 512);
}

#[test]
fn simple_range_yields_each_step() {
    let range = SimpleRange::new(VirtPage::new(5), VirtPage::new(8));
    assert_eq!(range.get_start(), VirtPage::new(5));
    assert_eq!(range.get_end(), VirtPage::new(8));
    let items = range.to_vec();
    assert_eq!(items.len(), 3);
    assert_eq!(items, vec![VirtPage::new(5), VirtPage::new(6), VirtPage::new(7)]);
}

#[test]
fn empty_range_yields_nothing() {
    let range = SimpleRange::new(VirtPage::new(9), VirtPage::new(9));
    assert_eq!(range.to_vec().len(), 0);
    let mut it = SimpleRangeIterator::new(VirtPage::new(9), VirtPage::new(9));
    assert_eq!(it.next(), None);
}

#[test]
fn range_iterator_steps_in_order() {
    let mut it = SimpleRangeIterator::new(PhysPage::new(100), PhysPage::new(102));
    assert_eq!(it.next(), Some(PhysPage::new(100)));
    assert_eq!(it.next(), Some(PhysPage::new(101)));
    assert_eq!(it.next(), None);
    assert_eq!(it.next(), None);
}

#[test]
fn step_by_one_increments() {
    let mut p = VirtPage::new(41);
    p.step();
    assert_eq!(p, VirtPage::new(42));
    let mut q = PhysPage::new(7);
    q.step();
    assert_eq!(q, PhysPage::new(8));
}
