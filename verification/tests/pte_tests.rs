use sv39_mm::addr::PhysPage;
use sv39_mm::pte::{
    MappingFlags, PTEFlags, FLAG_A, FLAG_ADGVRWX, FLAG_D, FLAG_R, FLAG_V, FLAG_VRWX, FLAG_W,
    FLAG_X, MAP_R, MAP_U, MAP_W, MAP_X, PTE,
};

#[test]
fn encode_read_exec_sets_accessed() {
    let flags = PTEFlags::from_mapping(MappingFlags(MAP_R | MAP_X));
    assert_eq!(flags.bits(), FLAG_V | FLAG_R | FLAG_X);
    let pte = PTE::from_ppn(0xABCDE, flags);
    assert_eq!(pte.0, (0xABCDE << 10) | FLAG_V | FLAG_R | FLAG_X | FLAG_A);
}

#[test]
fn encode_write_sets_dirty() {
    let pte = PTE::from_ppn(0xABCDE, PTEFlags::from_mapping(MappingFlags(MAP_W)));
    assert_eq!(pte.0 & FLAG_D, FLAG_D);
    assert_eq!(pte.0, (0xABCDE << 10) | FLAG_V | FLAG_W | FLAG_D);
}

#[test]
fn ppn_round_trip() {
    let pte = PTE::from_ppn(0xABCDE, PTEFlags(FLAG_VRWX));
    assert_eq!(pte.to_ppn(), PhysPage::new(0xABCDE));
    // requested flags are kept; only A and D may join them
    assert_eq!(pte.flags().bits() & FLAG_VRWX, FLAG_VRWX);
    assert_eq!(pte.flags().bits() & !(FLAG_VRWX | FLAG_A | FLAG_D), 0);
    let large = PTE::from_ppn(0xfff_ffff_fff, PTEFlags(FLAG_V));
    assert_eq!(large.to_ppn(), PhysPage::new(0xfff_ffff_fff));
}

#[test]
fn from_addr_uses_the_page() {
    let pte = PTE::from_addr(0x8000_0000, PTEFlags(FLAG_ADGVRWX));
    assert_eq!(pte.to_ppn(), PhysPage::new(0x80000));
}

#[test]
fn validity_needs_more_than_flags() {
    // a flag-only word (page number zero) is rejected as valid
    assert!(!PTE::from_ppn(0, PTEFlags(FLAG_VRWX)).is_valid());
    assert!(PTE::from_ppn(1, PTEFlags(FLAG_V)).is_valid());
    assert!(!PTE::new().is_valid());
    assert!(!PTE::from_ppn(5, PTEFlags(FLAG_R)).is_valid());
}

#[test]
fn huge_and_leaf_predicates() {
    let huge = PTE::from_ppn(0x80000, PTEFlags(FLAG_ADGVRWX));
    assert!(huge.is_valid());
    assert!(huge.is_huge());
    assert!(!huge.is_leaf());
    let interior = PTE::from_ppn(0x80000, PTEFlags(FLAG_V));
    assert!(interior.is_valid());
    assert!(!interior.is_huge());
    assert!(interior.is_leaf());
}

#[test]
fn mapping_none_yields_empty_flags() {
    assert_eq!(PTEFlags::from_mapping(MappingFlags(0)).bits(), 0);
    let pte = PTE::from_ppn(0x1234, PTEFlags::from_mapping(MappingFlags(0)));
    assert!(!pte.is_valid());
}

#[test]
fn mapping_translation_covers_each_bit() {
    let m = MappingFlags(MAP_R | MAP_W | MAP_U);
    assert!(m.contains(MappingFlags(MAP_R)));
    assert!(!m.contains(MappingFlags(MAP_X)));
    let f = PTEFlags::from_mapping(m);
    assert_eq!(f.bits(), FLAG_V | FLAG_R | FLAG_W | 0x10);
    let all = MappingFlags(MAP_R).union(MappingFlags(MAP_W));
    assert_eq!(all.0, MAP_R | MAP_W);
}

#[test]
fn set_overwrites_exactly() {
    let mut pte = PTE::from_ppn(7, PTEFlags(FLAG_VRWX));
    pte.set(9, PTEFlags(FLAG_V));
    assert_eq!(pte.0, (9 << 10) | FLAG_V);
    // no A or D auto-set on this path
    pte.set(9, PTEFlags(FLAG_V | FLAG_W));
    assert_eq!(pte.0 & FLAG_D, 0);
}

#[test]
fn flags_truncate_to_low_byte() {
    let pte = PTE((0x123 << 10) | 0xff);
    assert_eq!(pte.flags().bits(), 0xff);
    assert!(pte.flags().contains(PTEFlags(FLAG_V | FLAG_R)));
    assert_eq!(PTEFlags::from_bits_truncate(0xabcd).bits(), 0xcd);
    assert_eq!(PTEFlags(FLAG_V).union(PTEFlags(FLAG_R)).bits(), FLAG_V | FLAG_R);
}
