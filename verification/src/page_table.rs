//! The Sv39 three-level page table: building, walking, mutating and tearing
//! down tables over the explicit frame model.
//!
//! A `PageTable` owns the physical frame holding its root table and nothing
//! else; interior frames are discovered by walking. The table's frames live
//! in a `PhysMemory`, and interior frames are taken from a
//! `StackFrameAllocator`. User mappings live in the low half of the root
//! table (level-2 indexes below `0x100`); the high half carries the kernel's
//! fixed direct-map entries installed by `restore`.

use vstd::prelude::*;

use crate::addr::{PhysAddr, PhysPage, VirtAddr, VirtPage};
use crate::frame_allocator::StackFrameAllocator;
use crate::phys_mem::PhysMemory;
use crate::pte::{PTEFlags, MappingFlags, PTE, FLAG_ADGVRWX, FLAG_V};
use crate::pte::{spec_flags_of_mapping, spec_pte_word};

verus! {

/// The level-2 (root) table index of a virtual page number.
pub open spec fn idx2(vpn: u64) -> u64 {
    (vpn >> 18) & 0x1ff
}

/// The level-1 table index of a virtual page number.
pub open spec fn idx1(vpn: u64) -> u64 {
    (vpn >> 9) & 0x1ff
}

/// The level-0 (leaf) table index of a virtual page number.
pub open spec fn idx0(vpn: u64) -> u64 {
    vpn & 0x1ff
}

/// The level-1 table frame on `vpn`'s walk: the page number held in the
/// root slot the walk reads.
pub open spec fn walk_l1_ppn(mem: PhysMemory, root: u64, vpn: u64) -> u64 {
    mem.spec_entry(root, idx2(vpn) as int).spec_ppn()
}

/// The level-0 table frame on `vpn`'s walk: the page number held in the
/// level-1 slot the walk reads.
pub open spec fn walk_l0_ppn(mem: PhysMemory, root: u64, vpn: u64) -> u64 {
    mem.spec_entry(walk_l1_ppn(mem, root, vpn), idx1(vpn) as int).spec_ppn()
}

/// Whether an entry points at a next-level table: valid and none of R/W/X.
pub open spec fn table_ptr(e: PTE) -> bool {
    e.spec_is_valid() && !e.spec_is_huge()
}

/// The leaf entry reached by walking `vpn` from the root frame `root`:
/// descend two valid entries (whose targets must be modeled frames), then
/// read the leaf slot. `None` when an interior entry is invalid or leads
/// outside the modeled frames.
pub open spec fn spec_find_pte(mem: PhysMemory, root: u64, vpn: u64) -> Option<PTE> {
    if !mem.contains_ppn(root) {
        Option::None
    } else {
        let e2 = mem.spec_entry(root, idx2(vpn) as int);
        if !e2.spec_is_valid() || !mem.contains_ppn(e2.spec_ppn()) {
            Option::None
        } else {
            let e1 = mem.spec_entry(e2.spec_ppn(), idx1(vpn) as int);
            if !e1.spec_is_valid() || !mem.contains_ppn(e1.spec_ppn()) {
                Option::None
            } else {
                Option::Some(mem.spec_entry(e1.spec_ppn(), idx0(vpn) as int))
            }
        }
    }
}

/// The live leaf entry of `vpn`: the walked leaf if it is valid.
pub open spec fn spec_translate(mem: PhysMemory, root: u64, vpn: u64) -> Option<PTE> {
    match spec_find_pte(mem, root, vpn) {
        Option::Some(l) => if l.spec_is_valid() {
            Option::Some(l)
        } else {
            Option::None
        },
        Option::None => Option::None,
    }
}

/// The physical address that the hardware walker yields for `vaddr`:
/// at each level an invalid entry stops the walk, a huge (R/W/X) entry
/// returns its frame base plus the in-page offset of that level, and an
/// interior entry descends. At the last level the entry's frame base plus
/// the byte offset comes back.
pub open spec fn spec_virt_to_phys(mem: PhysMemory, root: u64, vaddr: u64) -> Option<u64> {
    if !mem.contains_ppn(root) {
        Option::None
    } else {
        let e2 = mem.spec_entry(root, ((vaddr >> 30) & 0x1ff) as int);
        if e2.spec_flag_bits() & FLAG_V != FLAG_V {
            Option::None
        } else if e2.spec_is_huge() {
            Option::Some((e2.spec_ppn() << 12) | (vaddr % 0x4000_0000))
        } else if !mem.contains_ppn(e2.spec_ppn()) {
            Option::None
        } else {
            let e1 = mem.spec_entry(e2.spec_ppn(), ((vaddr >> 21) & 0x1ff) as int);
            if e1.spec_flag_bits() & FLAG_V != FLAG_V {
                Option::None
            } else if e1.spec_is_huge() {
                Option::Some((e1.spec_ppn() << 12) | (vaddr % 0x20_0000))
            } else if !mem.contains_ppn(e1.spec_ppn()) {
                Option::None
            } else {
                let e0 = mem.spec_entry(e1.spec_ppn(), ((vaddr >> 12) & 0x1ff) as int);
                if e0.spec_flag_bits() & FLAG_V != FLAG_V {
                    Option::None
                } else {
                    Option::Some((e0.spec_ppn() << 12) | (vaddr % 0x1000))
                }
            }
        }
    }
}


/// Whether root index `i` (in the user low half) holds a pointer to a
/// level-1 table.
pub open spec fn l2_slot(mem: PhysMemory, root: u64, i: int) -> bool {
    0 <= i < 256 && table_ptr(mem.spec_entry(root, i))
}

/// The level-1 table frame named by root index `i`.
pub open spec fn l1_ppn(mem: PhysMemory, root: u64, i: int) -> u64 {
    mem.spec_entry(root, i).spec_ppn()
}

/// Whether root index `i` and level-1 index `j` chain to a level-0 table.
pub open spec fn l1_chain(mem: PhysMemory, root: u64, i: int, j: int) -> bool {
    l2_slot(mem, root, i) && mem.contains_ppn(l1_ppn(mem, root, i)) && 0 <= j < 512 && table_ptr(
        mem.spec_entry(l1_ppn(mem, root, i), j),
    )
}

/// The level-0 table frame named by the chain `(i, j)`.
pub open spec fn l0_ppn(mem: PhysMemory, root: u64, i: int, j: int) -> u64 {
    mem.spec_entry(l1_ppn(mem, root, i), j).spec_ppn()
}

/// Whether `p` is one of the table's level-1 frames.
pub open spec fn is_l1_of(mem: PhysMemory, root: u64, p: u64) -> bool {
    exists|i: int| #[trigger] l2_slot(mem, root, i) && l1_ppn(mem, root, i) == p
}

/// Whether `p` is one of the table's level-0 frames.
pub open spec fn is_l0_of(mem: PhysMemory, root: u64, p: u64) -> bool {
    exists|i: int, j: int| #[trigger] l1_chain(mem, root, i, j) && l0_ppn(mem, root, i, j) == p
}

/// Whether `p` is one of the table's frames: the root, a level-1 frame or a
/// level-0 frame of the user low half.
pub open spec fn is_table_of(mem: PhysMemory, root: u64, p: u64) -> bool {
    p == root || is_l1_of(mem, root, p) || is_l0_of(mem, root, p)
}

/// Well-formedness of the user low half of a table rooted at `root`:
/// valid low-half entries are never huge; interior pointers stay inside the
/// modeled frames, never point back at the root, and are injective level by
/// level, so the root, the level-1 frames and the level-0 frames are
/// pairwise distinct.
pub open spec fn pt_wf(mem: PhysMemory, root: u64) -> bool {
    &&& mem.wf()
    &&& mem.contains_ppn(root)
    &&& forall|i: int|
        0 <= i < 256 && (#[trigger] mem.spec_entry(root, i)).spec_is_valid()
            ==> !mem.spec_entry(root, i).spec_is_huge()
    &&& forall|i: int|
        #[trigger] l2_slot(mem, root, i) ==> mem.contains_ppn(l1_ppn(mem, root, i)) && l1_ppn(
            mem,
            root,
            i,
        ) != root
    &&& forall|i: int, j: int|
        #[trigger] l2_slot(mem, root, i) && #[trigger] l2_slot(mem, root, j) && i != j ==> l1_ppn(
            mem,
            root,
            i,
        ) != l1_ppn(mem, root, j)
    &&& forall|i: int, j: int|
        l2_slot(mem, root, i) && 0 <= j < 512 && (#[trigger] mem.spec_entry(
            l1_ppn(mem, root, i),
            j,
        )).spec_is_valid() ==> !mem.spec_entry(l1_ppn(mem, root, i), j).spec_is_huge()
    &&& forall|i: int, j: int|
        #[trigger] l1_chain(mem, root, i, j) ==> mem.contains_ppn(l0_ppn(mem, root, i, j))
            && l0_ppn(mem, root, i, j) != root && !is_l1_of(mem, root, l0_ppn(mem, root, i, j))
    &&& forall|i: int, j: int, k: int, l: int|
        #[trigger] l1_chain(mem, root, i, j) && #[trigger] l1_chain(mem, root, k, l) && !(i == k
            && j == l) ==> l0_ppn(mem, root, i, j) != l0_ppn(mem, root, k, l)
}

/// Every page the allocator may still hand out is a modeled frame and not
/// one of the table's frames: fresh interior frames never alias the table.
pub open spec fn alloc_disjoint(mem: PhysMemory, root: u64, a: StackFrameAllocator) -> bool {
    forall|p: u64|
        #[trigger] a.spec_avail().contains(p) ==> mem.contains_ppn(p) && !is_table_of(
            mem,
            root,
            p,
        )
}

/// Every frame of the table is currently handed out by the allocator, so
/// tearing the table down may return each one exactly once.
pub open spec fn tables_live(mem: PhysMemory, root: u64, a: StackFrameAllocator) -> bool {
    forall|p: u64| #[trigger] is_table_of(mem, root, p) ==> a.spec_live().contains(p)
}

/// A page table, named by the physical address of its root frame.
pub struct PageTable(pub PhysAddr);

impl PageTable {
    /// The page number of the root frame.
    pub open spec fn spec_root_ppn(self) -> u64 {
        self.0.0 >> 12
    }

    /// The page number of the root frame.
    pub fn root_ppn(&self) -> (r: u64)
        ensures
            r == self.spec_root_ppn(),
    {
        self.0.0 >> 12
    }

    /// The SATP register word that installs this table: mode 8 (Sv39) in
    /// the top nibble, the root page number in the low bits.
    pub fn get_satp(&self) -> (r: u64)
        ensures
            r == 0x8000_0000_0000_0000u64 | self.spec_root_ppn(),
    {
        0x8000_0000_0000_0000u64 | (self.0.0 >> 12)
    }

    /// The table a SATP word names: its 44-bit root page number field.
    pub fn from_satp(satp: u64) -> (r: Self)
        ensures
            r.0.0 == (satp & 0x0fff_ffff_ffff) << 12,
            r.spec_root_ppn() == ((satp & 0x0fff_ffff_ffff) << 12) >> 12,
    {
        proof {
            lemma_ppn_addr_round_trip(satp & 0x0fff_ffff_ffff);
        }
        Self(PhysAddr((satp & 0x0fff_ffff_ffff) << 12))
    }

    /// Walk `vpn` to its leaf slot and return the entry there, valid or not.
    pub fn find_pte(&self, mem: &PhysMemory, vpn: VirtPage) -> (r: Option<PTE>)
        requires
            mem.wf(),
        ensures
            r == spec_find_pte(*mem, self.spec_root_ppn(), vpn.0),
    {
        let root = self.root_ppn();
        if !mem.check_contains(root) {
            return None;
        }
        let idxs = vpn.indexes();
        let e2 = mem.read_pte(root, idxs[0]);
        if !e2.is_valid() {
            return None;
        }
        let p1 = e2.to_ppn().0;
        if !mem.check_contains(p1) {
            return None;
        }
        let e1 = mem.read_pte(p1, idxs[1]);
        if !e1.is_valid() {
            return None;
        }
        let p0 = e1.to_ppn().0;
        if !mem.check_contains(p0) {
            return None;
        }
        Some(mem.read_pte(p0, idxs[2]))
    }

    /// The live leaf entry mapping `vpn`, or `None` when the walk misses or
    /// the leaf slot is invalid.
    pub fn translate(&self, mem: &PhysMemory, vpn: VirtPage) -> (r: Option<PTE>)
        requires
            mem.wf(),
        ensures
            r == spec_translate(*mem, self.spec_root_ppn(), vpn.0),
    {
        match self.find_pte(mem, vpn) {
            Some(pte) => {
                if pte.is_valid() {
                    Some(pte)
                } else {
                    None
                }
            },
            None => None,
        }
    }

    /// The physical address backing `va` through its 4 KiB leaf mapping:
    /// the leaf frame base plus the page offset. `None` when `va` has no
    /// live leaf entry.
    pub fn translate_va(&self, mem: &PhysMemory, va: VirtAddr) -> (r: Option<PhysAddr>)
        requires
            mem.wf(),
        ensures
            r == match spec_translate(*mem, self.spec_root_ppn(), (va.0 / 4096) as u64) {
                Option::Some(l) => Option::Some(
                    PhysAddr((l.spec_ppn() << 12) | (va.0 % 4096)),
                ),
                Option::None => Option::None::<PhysAddr>,
            },
    {
        let vpn = va.floor();
        let off = va.page_offset();
        proof {
            lemma_page_offset_is_mod(va.0);
        }
        match self.translate(mem, vpn) {
            Some(pte) => Some(PhysAddr((pte.to_ppn().0 << 12) | off)),
            None => None,
        }
    }

    /// The hardware walker's result for `vaddr`, huge mappings included.
    pub fn virt_to_phys(&self, mem: &PhysMemory, vaddr: VirtAddr) -> (r: Option<PhysAddr>)
        requires
            mem.wf(),
        ensures
            r == match spec_virt_to_phys(*mem, self.spec_root_ppn(), vaddr.0) {
                Option::Some(pa) => Option::Some(PhysAddr(pa)),
                Option::None => Option::None::<PhysAddr>,
            },
    {
        let root = self.root_ppn();
        if !mem.check_contains(root) {
            return None;
        }
        proof {
            lemma_va_index_bounds(vaddr.0);
        }
        let e2 = mem.read_pte(root, (((vaddr.0 >> 30) & 0x1ff) as usize));
        if !e2.flags().contains(PTEFlags(FLAG_V)) {
            return None;
        }
        if e2.is_huge() {
            return Some(PhysAddr((e2.to_ppn().0 << 12) | (vaddr.0 % 0x4000_0000)));
        }
        let p1 = e2.to_ppn().0;
        if !mem.check_contains(p1) {
            return None;
        }
        let e1 = mem.read_pte(p1, (((vaddr.0 >> 21) & 0x1ff) as usize));
        if !e1.flags().contains(PTEFlags(FLAG_V)) {
            return None;
        }
        if e1.is_huge() {
            return Some(PhysAddr((e1.to_ppn().0 << 12) | (vaddr.0 % 0x20_0000)));
        }
        let p0 = e1.to_ppn().0;
        if !mem.check_contains(p0) {
            return None;
        }
        let e0 = mem.read_pte(p0, (((vaddr.0 >> 12) & 0x1ff) as usize));
        if !e0.flags().contains(PTEFlags(FLAG_V)) {
            return None;
        }
        Some(PhysAddr((e0.to_ppn().0 << 12) | (vaddr.0 % 0x1000)))
    }
}

impl PageTable {
    /// Install the kernel's fixed high-half entries into the root frame and
    /// zero the user low half. The five high slots direct-map the kernel's
    /// 1 GiB physical regions; the slot at `0x104` points at the
    /// platform-supplied trampoline table at physical `trx_addr`. The user
    /// half maps nothing afterwards.
    pub fn restore(&self, mem: &mut PhysMemory, trx_addr: u64)
        requires
            old(mem).wf(),
            old(mem).contains_ppn(self.spec_root_ppn()),
        ensures
            final(mem).wf(),
            final(mem).base == old(mem).base,
            final(mem).frames@.len() == old(mem).frames@.len(),
            final(mem).same_except(*old(mem), self.spec_root_ppn()),
            forall|i: int|
                0 <= i < 256 ==> #[trigger] final(mem).spec_entry(self.spec_root_ppn(), i) == PTE(
                    0,
                ),
            final(mem).spec_entry(self.spec_root_ppn(), 0x100) == PTE(
                spec_pte_word(0x0000_0000u64 >> 12, FLAG_ADGVRWX),
            ),
            final(mem).spec_entry(self.spec_root_ppn(), 0x101) == PTE(
                spec_pte_word(0x4000_0000u64 >> 12, FLAG_ADGVRWX),
            ),
            final(mem).spec_entry(self.spec_root_ppn(), 0x102) == PTE(
                spec_pte_word(0x8000_0000u64 >> 12, FLAG_ADGVRWX),
            ),
            final(mem).spec_entry(self.spec_root_ppn(), 0x104) == PTE(
                spec_pte_word(trx_addr >> 12, FLAG_V),
            ),
            final(mem).spec_entry(self.spec_root_ppn(), 0x106) == PTE(
                spec_pte_word(0x8000_0000u64 >> 12, FLAG_ADGVRWX),
            ),
            forall|i: int|
                256 <= i < 512 && i != 0x100 && i != 0x101 && i != 0x102 && i != 0x104 && i
                    != 0x106 ==> #[trigger] final(mem).spec_entry(self.spec_root_ppn(), i) == old(
                    mem,
                ).spec_entry(self.spec_root_ppn(), i),
            pt_wf(*final(mem), self.spec_root_ppn()),
            forall|w: u64|
                w < 0x400_0000 ==> #[trigger] spec_translate(
                    *final(mem),
                    self.spec_root_ppn(),
                    w,
                ) is None,
    {
        let root = self.root_ppn();
        mem.write_pte(root, 0x100, PTE::from_addr(0x0000_0000, PTEFlags(FLAG_ADGVRWX)));
        mem.write_pte(root, 0x101, PTE::from_addr(0x4000_0000, PTEFlags(FLAG_ADGVRWX)));
        mem.write_pte(root, 0x102, PTE::from_addr(0x8000_0000, PTEFlags(FLAG_ADGVRWX)));
        mem.write_pte(root, 0x104, PTE::from_addr(trx_addr, PTEFlags(FLAG_V)));
        mem.write_pte(root, 0x106, PTE::from_addr(0x8000_0000, PTEFlags(FLAG_ADGVRWX)));
        let ghost mid = *mem;
        let mut i: usize = 0;
        while i < 256
            invariant
                i <= 256,
                mem.wf(),
                mem.base == mid.base,
                mem.frames@.len() == mid.frames@.len(),
                mem.contains_ppn(root),
                root == self.spec_root_ppn(),
                mem.same_except(mid, root),
                mem.spec_frame(root).len() == 512,
                forall|j: int| 0 <= j < i ==> #[trigger] mem.spec_entry(root, j) == PTE(0),
                forall|j: int|
                    i <= j < 512 ==> #[trigger] mem.spec_entry(root, j) == mid.spec_entry(root, j),
            decreases 256 - i,
        {
            let ghost before = *mem;
            mem.write_pte(root, i, PTE::new());
            proof {
                assert(mem.spec_frame(root) == before.spec_frame(root).update(i as int, PTE(0)));
                assert(mem.spec_entry(root, i as int) == PTE(0));
                assert forall|j: int| 0 <= j < 512 && j != i implies #[trigger] mem.spec_entry(
                    root,
                    j,
                ) == before.spec_entry(root, j) by {
                    assert(mem.spec_frame(root)[j] == before.spec_frame(root)[j]);
                }
            }
            i = i + 1;
        }
        proof {
            assert forall|w: u64| w < 0x400_0000 implies #[trigger] spec_translate(
                *mem,
                self.spec_root_ppn(),
                w,
            ) is None by {
                lemma_user_vpn_index_bounds(w);
            }
            assert forall|ii: int|
                0 <= ii < 256 implies !(#[trigger] mem.spec_entry(root, ii)).spec_is_valid() by {
                assert(mem.spec_entry(root, ii) == PTE(0));
            }
        }
    }

    /// Build a fresh page table: take one frame from the allocator for the
    /// root, zero it, and install the kernel skeleton via `restore`. The
    /// new root becomes live in the allocator, the user half maps nothing,
    /// and the table's only frame is the root.
    pub fn alloc_table(mem: &mut PhysMemory, allocator: &mut StackFrameAllocator, trx_addr: u64) -> (pt:
        PageTable)
        requires
            old(mem).wf(),
            old(allocator).wf(),
            forall|p: u64|
                #[trigger] old(allocator).spec_avail().contains(p) ==> old(mem).contains_ppn(p),
            old(allocator).recycled@.len() + old(allocator).end - old(allocator).current >= 1,
        ensures
            final(mem).wf(),
            final(mem).base == old(mem).base,
            final(mem).frames@.len() == old(mem).frames@.len(),
            final(allocator).wf(),
            final(allocator).base@ == old(allocator).base@,
            final(allocator).end == old(allocator).end,
            final(allocator).recycled@.len() + final(allocator).end - final(allocator).current
                == old(allocator).recycled@.len() + old(allocator).end - old(allocator).current
                - 1,
            final(mem).contains_ppn(pt.spec_root_ppn()),
            pt.0.0 == pt.spec_root_ppn() << 12,
            pt_wf(*final(mem), pt.spec_root_ppn()),
            final(mem).same_except(*old(mem), pt.spec_root_ppn()),
            alloc_disjoint(*final(mem), pt.spec_root_ppn(), *final(allocator)),
            tables_live(*final(mem), pt.spec_root_ppn(), *final(allocator)),
            !old(allocator).spec_live().contains(pt.spec_root_ppn()),
            final(allocator).spec_live() =~= old(allocator).spec_live().insert(
                pt.spec_root_ppn(),
            ),
            forall|p: u64|
                #[trigger] final(allocator).spec_avail().contains(p) ==> old(
                    allocator,
                ).spec_avail().contains(p),
            forall|w: u64|
                w < 0x400_0000 ==> #[trigger] spec_translate(
                    *final(mem),
                    pt.spec_root_ppn(),
                    w,
                ) is None,
            forall|i: int|
                0 <= i < 256 ==> #[trigger] final(mem).spec_entry(pt.spec_root_ppn(), i) == PTE(
                    0,
                ),
            final(mem).spec_entry(pt.spec_root_ppn(), 0x104) == PTE(
                spec_pte_word(trx_addr >> 12, FLAG_V),
            ),
            forall|p: u64|
                is_table_of(*final(mem), pt.spec_root_ppn(), p) ==> p == pt.spec_root_ppn(),
    {
        proof {
            if old(allocator).recycled@.len() > 0 {
                assert(old(allocator).spec_avail().contains(old(allocator).recycled@.last()));
            } else {
                assert(old(allocator).spec_avail().contains(old(allocator).current));
            }
        }
        let opt = allocator.alloc_frame();
        let rp = match opt {
            Some(p) => p,
            None => PhysPage(0),
        };
        proof {
            assert(old(allocator).spec_avail().contains(rp.0));
            lemma_ppn_addr_round_trip(rp.0);
        }
        mem.zero_frame(rp.0);
        let pt = PageTable(PhysAddr(rp.0 << 12));
        pt.restore(mem, trx_addr);
        proof {
            let root = pt.spec_root_ppn();
            assert forall|p: u64| is_table_of(*mem, root, p) implies p == root by {
                if is_l1_of(*mem, root, p) {
                    let i = choose|i: int| #[trigger] l2_slot(*mem, root, i) && l1_ppn(*mem, root, i) == p;
                    assert(mem.spec_entry(root, i) == PTE(0));
                } else if is_l0_of(*mem, root, p) {
                    let (i, j) = choose|i: int, j: int|
                        #[trigger] l1_chain(*mem, root, i, j) && l0_ppn(*mem, root, i, j) == p;
                    assert(mem.spec_entry(root, i) == PTE(0));
                }
            }
        }
        pt
    }

    /// Install the 4 KiB mapping `vpn -> ppn` with the given permissions,
    /// creating (zeroed) interior table frames from the allocator as the
    /// walk needs them. `level` is the table depth and is always 3 here;
    /// huge mappings are recognized when reading but never installed.
    /// `vpn` lies in the user half, whose level-2 index is below `0x100`.
    pub fn map(
        &self,
        mem: &mut PhysMemory,
        allocator: &mut StackFrameAllocator,
        ppn: PhysPage,
        vpn: VirtPage,
        flags: MappingFlags,
        level: usize,
    )
        requires
            level == 3,
            vpn.0 < 0x400_0000,
            0 < old(mem).base,
            pt_wf(*old(mem), self.spec_root_ppn()),
            old(allocator).wf(),
            alloc_disjoint(*old(mem), self.spec_root_ppn(), *old(allocator)),
            old(allocator).recycled@.len() + old(allocator).end - old(allocator).current >= 2,
        ensures
            pt_wf(*final(mem), self.spec_root_ppn()),
            final(mem).base == old(mem).base,
            final(mem).frames@.len() == old(mem).frames@.len(),
            final(allocator).wf(),
            final(allocator).base@ == old(allocator).base@,
            final(allocator).end == old(allocator).end,
            final(allocator).recycled@.len() + final(allocator).end - final(allocator).current
                >= old(allocator).recycled@.len() + old(allocator).end - old(allocator).current
                - 2,
            spec_find_pte(*final(mem), self.spec_root_ppn(), vpn.0) == Option::Some(
                PTE(spec_pte_word(ppn.0, spec_flags_of_mapping(flags.0))),
            ),
            forall|w: u64|
                w < 0x400_0000 && w != vpn.0 ==> #[trigger] spec_translate(
                    *final(mem),
                    self.spec_root_ppn(),
                    w,
                ) == spec_translate(*old(mem), self.spec_root_ppn(), w),
            alloc_disjoint(*final(mem), self.spec_root_ppn(), *final(allocator)),
            forall|p: u64|
                #[trigger] is_table_of(*old(mem), self.spec_root_ppn(), p) ==> is_table_of(
                    *final(mem),
                    self.spec_root_ppn(),
                    p,
                ),
            forall|p: u64|
                #[trigger] is_table_of(*final(mem), self.spec_root_ppn(), p) && !is_table_of(
                    *old(mem),
                    self.spec_root_ppn(),
                    p,
                ) ==> old(allocator).spec_avail().contains(p),
            forall|p: u64|
                #[trigger] final(allocator).spec_avail().contains(p) ==> old(
                    allocator,
                ).spec_avail().contains(p),
            forall|p: u64|
                #[trigger] final(allocator).spec_live().contains(p) <==> (old(
                    allocator,
                ).spec_live().contains(p) || (is_table_of(*final(mem), self.spec_root_ppn(), p)
                    && !is_table_of(*old(mem), self.spec_root_ppn(), p))),
            forall|q: u64|
                old(mem).contains_ppn(q) && !is_table_of(*final(mem), self.spec_root_ppn(), q)
                    ==> #[trigger] final(mem).spec_frame(q) == old(mem).spec_frame(q),
            tables_live(*old(mem), self.spec_root_ppn(), *old(allocator)) ==> tables_live(
                *final(mem),
                self.spec_root_ppn(),
                *final(allocator),
            ),
            forall|i: int|
                0 <= i < 512 && i != idx2(vpn.0) ==> #[trigger] final(mem).spec_entry(
                    self.spec_root_ppn(),
                    i,
                ) == old(mem).spec_entry(self.spec_root_ppn(), i),
            ({
                let root = self.spec_root_ppn();
                let i2 = idx2(vpn.0) as int;
                let i1 = idx1(vpn.0) as int;
                let i0 = idx0(vpn.0) as int;
                let e2o = old(mem).spec_entry(root, i2);
                let e2n = final(mem).spec_entry(root, i2);
                let p1 = e2n.spec_ppn();
                let e1o = old(mem).spec_entry(e2o.spec_ppn(), i1);
                let e1n = final(mem).spec_entry(p1, i1);
                let p0 = e1n.spec_ppn();
                // the walked root slot: reused when it held a pointer, else a
                // fresh interior frame drawn from the available pages
                &&& (e2o.spec_is_valid() ==> e2n == e2o)
                &&& (!e2o.spec_is_valid() ==> table_ptr(e2n) && !is_table_of(
                    *old(mem),
                    root,
                    p1,
                ) && old(allocator).spec_avail().contains(p1))
                &&& table_ptr(e1n)
                &&& (e2o.spec_is_valid() && e1o.spec_is_valid() ==> e1n == e1o)
                &&& (!(e2o.spec_is_valid() && e1o.spec_is_valid()) ==> !is_table_of(
                    *old(mem),
                    root,
                    p0,
                ) && old(allocator).spec_avail().contains(p0))
                // the level-1 frame: off the walked slot it is as before when
                // reused, and zero when fresh
                &&& (forall|j: int|
                    0 <= j < 512 && j != i1 ==> #[trigger] final(mem).spec_entry(p1, j) == (
                    if e2o.spec_is_valid() {
                        old(mem).spec_entry(p1, j)
                    } else {
                        PTE(0)
                    }))
                // the level-0 frame likewise
                &&& (forall|j: int|
                    0 <= j < 512 && j != i0 ==> #[trigger] final(mem).spec_entry(p0, j) == (
                    if e2o.spec_is_valid() && e1o.spec_is_valid() {
                        old(mem).spec_entry(p0, j)
                    } else {
                        PTE(0)
                    }))
                // the leaf slot holds exactly the new mapping
                &&& final(mem).spec_entry(p0, i0) == PTE(
                    spec_pte_word(ppn.0, spec_flags_of_mapping(flags.0)),
                )
                // every frame off the walked path keeps its words
                &&& (forall|q: u64|
                    old(mem).contains_ppn(q) && q != root && q != p1 && q != p0
                        ==> #[trigger] final(mem).spec_frame(q) == old(mem).spec_frame(q))
                // exactly one frame is drawn per missing interior level
                &&& final(allocator).recycled@.len() + final(allocator).end - final(allocator).current
                    == old(allocator).recycled@.len() + old(allocator).end - old(allocator).current
                    - (if e2o.spec_is_valid() {
                    0int
                } else {
                    1
                }) - (if e2o.spec_is_valid() && e1o.spec_is_valid() {
                    0int
                } else {
                    1
                })
            }),
    {
        let root = self.root_ppn();
        proof {
            lemma_user_vpn_index_bounds(vpn.0);
        }
        let ghost m0 = *mem;
        let ghost a0 = *allocator;
        let idxs = vpn.indexes();
        let e2 = mem.read_pte(root, idxs[0]);
        let ghost mut fresh1: Option<u64> = Option::None;
        let p1: u64;
        if !e2.is_valid() {
            proof {
                lemma_avail_witness(*allocator);
            }
            let np = match allocator.alloc_frame() {
                Some(p) => p,
                None => PhysPage(0),
            };
            p1 = np.0;
            proof {
                fresh1 = Option::Some(p1);
                assert(a0.spec_avail().contains(p1));
            }
            mem.zero_frame(p1);
            proof {
                lemma_nontable_write(m0, *mem, root, p1);
                lemma_fresh_write_preserves_walk(m0, *mem, root, p1);
            }
            let ghost mz = *mem;
            mem.write_pte(root, idxs[0], PTE::from_ppn(p1, PTEFlags(FLAG_V)));
            proof {
                lemma_install_l1_preserves_translate(mz, *mem, root, idxs[0] as int, p1);
                assert forall|w: u64| w < 0x400_0000 implies #[trigger] spec_translate(
                    *mem,
                    root,
                    w,
                ) == spec_translate(m0, root, w) by {
                    assert(spec_find_pte(mz, root, w) == spec_find_pte(m0, root, w));
                    assert(spec_translate(mz, root, w) == spec_translate(m0, root, w));
                    assert(spec_translate(*mem, root, w) == spec_translate(mz, root, w));
                }
                assert(mz.spec_entry(root, idxs[0] as int) == m0.spec_entry(
                    root,
                    idxs[0] as int,
                ));
                assert forall|j: int| 0 <= j < 512 implies #[trigger] mz.spec_entry(p1, j) == PTE(
                    0,
                ) by {}
                assert(!is_table_of(mz, root, p1));
                lemma_install_l1(mz, *mem, root, idxs[0] as int, p1);
                assert forall|p: u64| true implies #[trigger] is_table_of(*mem, root, p) == (
                is_table_of(m0, root, p) || p == p1) by {
                    assert(is_table_of(mz, root, p) == is_table_of(m0, root, p));
                    assert(is_table_of(*mem, root, p) == (is_table_of(mz, root, p) || p == p1));
                }
            }
        } else {
            p1 = e2.to_ppn().0;
            proof {
                assert(l2_slot(m0, root, idxs[0] as int));
            }
        }
        let ghost mb = *mem;
        let ghost ab = *allocator;
        proof {
            assert(pt_wf(mb, root));
            assert(l2_slot(mb, root, idxs[0] as int));
            assert(l1_ppn(mb, root, idxs[0] as int) == p1);
            assert forall|p: u64| true implies #[trigger] is_table_of(mb, root, p) == (is_table_of(
                m0,
                root,
                p,
            ) || fresh1 == Option::Some(p)) by {}
            assert(alloc_disjoint(mb, root, ab)) by {
                assert forall|p: u64| #[trigger] ab.spec_avail().contains(p) implies
                    mb.contains_ppn(p) && !is_table_of(mb, root, p) by {
                    assert(a0.spec_avail().contains(p));
                }
            }
            assert(ab.recycled@.len() + ab.end - ab.current >= 1);
            assert forall|w: u64| w < 0x400_0000 implies #[trigger] spec_translate(mb, root, w)
                == spec_translate(m0, root, w) by {}
        }
        let e1 = mem.read_pte(p1, idxs[1]);
        let ghost mut fresh0: Option<u64> = Option::None;
        let p0: u64;
        if !e1.is_valid() {
            proof {
                lemma_avail_witness(*allocator);
            }
            let np = match allocator.alloc_frame() {
                Some(p) => p,
                None => PhysPage(0),
            };
            p0 = np.0;
            proof {
                fresh0 = Option::Some(p0);
                assert(ab.spec_avail().contains(p0));
                assert(!is_l1_of(mb, root, p0));
            }
            mem.zero_frame(p0);
            proof {
                lemma_nontable_write(mb, *mem, root, p0);
                lemma_fresh_write_preserves_walk(mb, *mem, root, p0);
            }
            let ghost mz = *mem;
            mem.write_pte(p1, idxs[1], PTE::from_ppn(p0, PTEFlags(FLAG_V)));
            proof {
                lemma_install_l0_preserves_translate(
                    mz,
                    *mem,
                    root,
                    idxs[0] as int,
                    idxs[1] as int,
                    p0,
                );
                assert forall|w: u64| w < 0x400_0000 implies #[trigger] spec_translate(
                    *mem,
                    root,
                    w,
                ) == spec_translate(mb, root, w) by {
                    assert(spec_find_pte(mz, root, w) == spec_find_pte(mb, root, w));
                    assert(spec_translate(mz, root, w) == spec_translate(mb, root, w));
                    assert(spec_translate(*mem, root, w) == spec_translate(mz, root, w));
                }
                assert(mz.spec_entry(p1, idxs[1] as int) == mb.spec_entry(p1, idxs[1] as int)) by {
                    assert(is_l1_of(mb, root, p1)) by {
                        assert(l2_slot(mb, root, idxs[0] as int) && l1_ppn(
                            mb,
                            root,
                            idxs[0] as int,
                        ) == p1);
                    }
                    assert(mz.spec_frame(p1) == mb.spec_frame(p1));
                }
                assert forall|j: int| 0 <= j < 512 implies #[trigger] mz.spec_entry(p0, j) == PTE(
                    0,
                ) by {}
                assert(l2_slot(mz, root, idxs[0] as int));
                assert(l1_ppn(mz, root, idxs[0] as int) == p1);
                assert(!is_table_of(mz, root, p0));
                lemma_install_l0(mz, *mem, root, idxs[0] as int, idxs[1] as int, p0);
                assert forall|p: u64| true implies #[trigger] is_table_of(*mem, root, p) == (
                is_table_of(mb, root, p) || p == p0) by {
                    assert(is_table_of(mz, root, p) == is_table_of(mb, root, p));
                    assert(is_table_of(*mem, root, p) == (is_table_of(mz, root, p) || p == p0));
                }
            }
        } else {
            p0 = e1.to_ppn().0;
            proof {
                assert(l1_chain(mb, root, idxs[0] as int, idxs[1] as int));
            }
        }
        let ghost mc = *mem;
        let ghost ac = *allocator;
        proof {
            assert(pt_wf(mc, root));
            assert(l1_chain(mc, root, idxs[0] as int, idxs[1] as int));
            assert(l0_ppn(mc, root, idxs[0] as int, idxs[1] as int) == p0);
            assert(mc.contains_ppn(p0) && p0 != root && !is_l1_of(mc, root, p0));
            assert forall|p: u64| true implies #[trigger] is_table_of(mc, root, p) == (is_table_of(
                m0,
                root,
                p,
            ) || fresh1 == Option::Some(p) || fresh0 == Option::Some(p)) by {}
            assert(alloc_disjoint(mc, root, ac)) by {
                assert forall|p: u64| #[trigger] ac.spec_avail().contains(p) implies
                    mc.contains_ppn(p) && !is_table_of(mc, root, p) by {
                    assert(ab.spec_avail().contains(p));
                    assert(a0.spec_avail().contains(p));
                }
            }
            assert forall|w: u64| w < 0x400_0000 implies #[trigger] spec_translate(mc, root, w)
                == spec_translate(m0, root, w) by {}
        }
        mem.write_pte(p0, idxs[2], PTE::from_ppn(ppn.0, PTEFlags::from_mapping(flags)));
        proof {
            lemma_nontable_write(mc, *mem, root, p0);
            let leaf = PTE(spec_pte_word(ppn.0, spec_flags_of_mapping(flags.0)));
            assert(mem.spec_entry(p0, idxs[2] as int) == leaf) by {
                assert(mem.spec_frame(p0) == mc.spec_frame(p0).update(idxs[2] as int, leaf));
            }
            assert(spec_find_pte(*mem, root, vpn.0) == Option::Some(leaf)) by {
                assert(mem.spec_entry(root, idx2(vpn.0) as int) == mc.spec_entry(
                    root,
                    idxs[0] as int,
                ));
                assert(l2_slot(*mem, root, idxs[0] as int));
                assert(l1_ppn(*mem, root, idxs[0] as int) == p1);
                assert(l1_chain(*mem, root, idxs[0] as int, idxs[1] as int));
                assert(mem.spec_entry(p1, idx1(vpn.0) as int) == mc.spec_entry(
                    p1,
                    idxs[1] as int,
                )) by {
                    assert(is_l1_of(mc, root, p1)) by {
                        assert(l2_slot(mc, root, idxs[0] as int) && l1_ppn(
                            mc,
                            root,
                            idxs[0] as int,
                        ) == p1);
                    }
                    assert(mem.spec_frame(p1) == mc.spec_frame(p1));
                }
                assert(table_ptr(mem.spec_entry(root, idx2(vpn.0) as int)));
                assert(table_ptr(mem.spec_entry(p1, idx1(vpn.0) as int)));
            }
            assert forall|w: u64| w < 0x400_0000 && w != vpn.0 implies #[trigger] spec_translate(
                *mem,
                root,
                w,
            ) == spec_translate(m0, root, w) by {
                lemma_user_vpn_index_bounds(w);
                assert(mem.spec_frame(root) == mc.spec_frame(root));
                let e2w = mc.spec_entry(root, idx2(w) as int);
                assert(mem.spec_entry(root, idx2(w) as int) == e2w);
                if e2w.spec_is_valid() && mc.contains_ppn(e2w.spec_ppn()) {
                    let p1w = e2w.spec_ppn();
                    assert(l2_slot(mc, root, idx2(w) as int));
                    assert(is_l1_of(mc, root, p1w)) by {
                        assert(l2_slot(mc, root, idx2(w) as int) && l1_ppn(
                            mc,
                            root,
                            idx2(w) as int,
                        ) == p1w);
                    }
                    assert(mem.spec_frame(p1w) == mc.spec_frame(p1w));
                    let e1w = mc.spec_entry(p1w, idx1(w) as int);
                    assert(mem.spec_entry(p1w, idx1(w) as int) == e1w);
                    if e1w.spec_is_valid() && mc.contains_ppn(e1w.spec_ppn()) {
                        let p0w = e1w.spec_ppn();
                        assert(l1_chain(mc, root, idx2(w) as int, idx1(w) as int));
                        if p0w == p0 {
                            assert(idx2(w) == idxs[0] && idx1(w) == idxs[1]) by {
                                assert(l0_ppn(mc, root, idx2(w) as int, idx1(w) as int) == p0w);
                            }
                            assert(idx0(w) != idx0(vpn.0)) by {
                                if idx0(w) == idx0(vpn.0) {
                                    lemma_vpn_tuple_injective(w, vpn.0);
                                }
                            }
                            assert(mem.spec_entry(p0, idx0(w) as int) == mc.spec_entry(
                                p0,
                                idx0(w) as int,
                            )) by {
                                assert(mem.spec_frame(p0)[idx0(w) as int] == mc.spec_frame(p0)[idx0(
                                    w,
                                ) as int]);
                            }
                        } else {
                            assert(mem.spec_entry(p0w, idx0(w) as int) == mc.spec_entry(
                                p0w,
                                idx0(w) as int,
                            )) by {
                                assert(mem.spec_frame(p0w) == mc.spec_frame(p0w));
                            }
                        }
                    }
                }
            }
            // the final table set and the allocator's live set
            assert forall|p: u64| true implies #[trigger] is_table_of(*mem, root, p) == (
            is_table_of(m0, root, p) || fresh1 == Option::Some(p) || fresh0 == Option::Some(
                p,
            )) by {
                assert(is_table_of(*mem, root, p) == is_table_of(mc, root, p));
            }
            assert forall|p: u64| true implies (#[trigger] allocator.spec_live().contains(p) <==> (
            a0.spec_live().contains(p) || (is_table_of(*mem, root, p) && !is_table_of(
                m0,
                root,
                p,
            )))) by {
                if fresh1 == Option::Some(p) || fresh0 == Option::Some(p) {
                    assert(!a0.spec_live().contains(p)) by {
                        if fresh1 == Option::Some(p) {
                        } else {
                            assert(ab.spec_avail().contains(p));
                            assert(a0.spec_avail().contains(p));
                        }
                    }
                }
            }
            assert(alloc_disjoint(*mem, root, *allocator)) by {
                assert forall|p: u64| #[trigger] allocator.spec_avail().contains(p) implies
                    mem.contains_ppn(p) && !is_table_of(*mem, root, p) by {
                    assert(ac.spec_avail().contains(p));
                    assert(ab.spec_avail().contains(p));
                    assert(a0.spec_avail().contains(p));
                }
            }
            assert forall|q: u64|
                m0.contains_ppn(q) && !is_table_of(*mem, root, q) implies #[trigger] mem.spec_frame(
                q,
            ) == m0.spec_frame(q) by {
                assert(q != p0 && fresh1 != Option::Some(q) && fresh0 != Option::Some(q));
                assert(mem.spec_frame(q) == mc.spec_frame(q));
                assert(mc.spec_frame(q) == mb.spec_frame(q));
                assert(mb.spec_frame(q) == m0.spec_frame(q));
            }
            if tables_live(m0, root, a0) {
                assert forall|p: u64| #[trigger] is_table_of(*mem, root, p) implies
                    allocator.spec_live().contains(p) by {}
            }
        }
    }
    /// Clear the 4 KiB mapping of `vpn` by zeroing its leaf slot; when the
    /// walk misses (the page was never mapped, or was already unmapped)
    /// nothing changes and the call simply returns, so unmapping twice is a
    /// no-op. Interior frames are not freed here; they are recovered when
    /// the whole table is released.
    pub fn unmap(&self, mem: &mut PhysMemory, vpn: VirtPage)
        requires
            vpn.0 < 0x400_0000,
            pt_wf(*old(mem), self.spec_root_ppn()),
        ensures
            pt_wf(*final(mem), self.spec_root_ppn()),
            final(mem).base == old(mem).base,
            final(mem).frames@.len() == old(mem).frames@.len(),
            spec_translate(*final(mem), self.spec_root_ppn(), vpn.0) is None,
            forall|w: u64|
                w < 0x400_0000 && w != vpn.0 ==> #[trigger] spec_find_pte(
                    *final(mem),
                    self.spec_root_ppn(),
                    w,
                ) == spec_find_pte(*old(mem), self.spec_root_ppn(), w),
            forall|p: u64|
                #[trigger] is_table_of(*final(mem), self.spec_root_ppn(), p) == is_table_of(
                    *old(mem),
                    self.spec_root_ppn(),
                    p,
                ),
            spec_find_pte(*old(mem), self.spec_root_ppn(), vpn.0) is None ==> *final(mem) == *old(
                mem,
            ),
            spec_find_pte(*final(mem), self.spec_root_ppn(), vpn.0) == (
            if spec_find_pte(*old(mem), self.spec_root_ppn(), vpn.0) is None {
                Option::<PTE>::None
            } else {
                Option::Some(PTE(0))
            }),
            spec_find_pte(*old(mem), self.spec_root_ppn(), vpn.0) is Some ==> ({
                let p0 = walk_l0_ppn(*old(mem), self.spec_root_ppn(), vpn.0);
                &&& final(mem).same_except(*old(mem), p0)
                &&& final(mem).spec_frame(p0) == old(mem).spec_frame(p0).update(
                    idx0(vpn.0) as int,
                    PTE(0),
                )
            }),
            forall|i: int|
                256 <= i < 512 ==> #[trigger] final(mem).spec_entry(self.spec_root_ppn(), i)
                    == old(mem).spec_entry(self.spec_root_ppn(), i),
            spec_find_pte(*old(mem), self.spec_root_ppn(), vpn.0) is Some ==> forall|va: u64|
                va >> 12 == vpn.0 ==> #[trigger] spec_virt_to_phys(
                    *final(mem),
                    self.spec_root_ppn(),
                    va,
                ) is None,
    {
        let root = self.root_ppn();
        proof {
            lemma_user_vpn_index_bounds(vpn.0);
        }
        let ghost m0 = *mem;
        let idxs = vpn.indexes();
        let e2 = mem.read_pte(root, idxs[0]);
        if !e2.is_valid() {
            return ;
        }
        let p1 = e2.to_ppn().0;
        proof {
            assert(l2_slot(m0, root, idxs[0] as int));
            assert(m0.contains_ppn(p1));
        }
        let e1 = mem.read_pte(p1, idxs[1]);
        if !e1.is_valid() {
            return ;
        }
        let p0 = e1.to_ppn().0;
        proof {
            assert(l1_chain(m0, root, idxs[0] as int, idxs[1] as int));
            assert(l0_ppn(m0, root, idxs[0] as int, idxs[1] as int) == p0);
            assert(m0.contains_ppn(p0) && p0 != root && !is_l1_of(m0, root, p0));
        }
        mem.write_pte(p0, idxs[2], PTE::new());
        proof {
            lemma_nontable_write(m0, *mem, root, p0);
            assert(mem.spec_entry(p0, idxs[2] as int) == PTE(0)) by {
                assert(mem.spec_frame(p0) == m0.spec_frame(p0).update(idxs[2] as int, PTE(0)));
            }
            assert(spec_translate(*mem, root, vpn.0) is None) by {
                assert(mem.spec_entry(root, idx2(vpn.0) as int) == m0.spec_entry(
                    root,
                    idxs[0] as int,
                ));
                assert(mem.spec_entry(p1, idx1(vpn.0) as int) == m0.spec_entry(
                    p1,
                    idxs[1] as int,
                )) by {
                    assert(is_l1_of(m0, root, p1)) by {
                        assert(l2_slot(m0, root, idxs[0] as int) && l1_ppn(
                            m0,
                            root,
                            idxs[0] as int,
                        ) == p1);
                    }
                    assert(mem.spec_frame(p1) == m0.spec_frame(p1));
                }
            }
            assert forall|va: u64| va >> 12 == vpn.0 implies #[trigger] spec_virt_to_phys(
                *mem,
                root,
                va,
            ) is None by {
                lemma_va_indexes_of_page(va, vpn.0);
                let e2 = mem.spec_entry(root, ((va >> 30) & 0x1ff) as int);
                assert(e2 == m0.spec_entry(root, idxs[0] as int));
                assert(e2.spec_is_valid());
                assert(!e2.spec_is_huge());
                assert(e2.spec_ppn() == p1 && mem.contains_ppn(p1));
                let e1 = mem.spec_entry(p1, ((va >> 21) & 0x1ff) as int);
                assert(e1 == m0.spec_entry(p1, idxs[1] as int));
                assert(e1.spec_is_valid());
                assert(!e1.spec_is_huge()) by {
                    assert(l2_slot(m0, root, idxs[0] as int));
                    assert(m0.spec_entry(l1_ppn(m0, root, idxs[0] as int), idxs[1] as int)
                        == e1);
                }
                assert(e1.spec_ppn() == p0 && mem.contains_ppn(p0));
                let e0 = mem.spec_entry(p0, ((va >> 12) & 0x1ff) as int);
                assert(e0 == PTE(0));
                assert(e0.spec_flag_bits() & crate::pte::FLAG_V != crate::pte::FLAG_V) by {
                    assert((0u64 & 0xff) & 0x01 != 0x01) by (bit_vector);
                }
            }
            assert forall|w: u64| w < 0x400_0000 && w != vpn.0 implies #[trigger] spec_find_pte(
                *mem,
                root,
                w,
            ) == spec_find_pte(m0, root, w) by {
                lemma_user_vpn_index_bounds(w);
                assert(mem.spec_entry(root, idx2(w) as int) == m0.spec_entry(
                    root,
                    idx2(w) as int,
                )) by {
                    assert(mem.spec_frame(root) == m0.spec_frame(root));
                }
                let e2w = m0.spec_entry(root, idx2(w) as int);
                if e2w.spec_is_valid() && m0.contains_ppn(e2w.spec_ppn()) {
                    let p1w = e2w.spec_ppn();
                    assert(l2_slot(m0, root, idx2(w) as int));
                    assert(is_l1_of(m0, root, p1w)) by {
                        assert(l2_slot(m0, root, idx2(w) as int) && l1_ppn(
                            m0,
                            root,
                            idx2(w) as int,
                        ) == p1w);
                    }
                    assert(mem.spec_entry(p1w, idx1(w) as int) == m0.spec_entry(
                        p1w,
                        idx1(w) as int,
                    )) by {
                        assert(mem.spec_frame(p1w) == m0.spec_frame(p1w));
                    }
                    let e1w = m0.spec_entry(p1w, idx1(w) as int);
                    if e1w.spec_is_valid() && m0.contains_ppn(e1w.spec_ppn()) {
                        let p0w = e1w.spec_ppn();
                        assert(l1_chain(m0, root, idx2(w) as int, idx1(w) as int));
                        if p0w == p0 {
                            assert(idx2(w) == idxs[0] && idx1(w) == idxs[1]) by {
                                assert(l0_ppn(m0, root, idx2(w) as int, idx1(w) as int) == p0w);
                            }
                            assert(idx0(w) != idx0(vpn.0)) by {
                                if idx0(w) == idx0(vpn.0) {
                                    lemma_vpn_tuple_injective(w, vpn.0);
                                }
                            }
                            assert(mem.spec_entry(p0, idx0(w) as int) == m0.spec_entry(
                                p0,
                                idx0(w) as int,
                            )) by {
                                assert(mem.spec_frame(p0) == m0.spec_frame(p0).update(
                                    idxs[2] as int,
                                    PTE(0),
                                ));
                            }
                        } else {
                            assert(mem.spec_entry(p0w, idx0(w) as int) == m0.spec_entry(
                                p0w,
                                idx0(w) as int,
                            )) by {
                                assert(mem.spec_frame(p0w) == m0.spec_frame(p0w));
                            }
                        }
                    }
                }
            }
        }
    }
    /// Tear the table down and give its frames back to the allocator: for
    /// each live pointer among the root's user-half slots, return that
    /// level-1 frame's level-0 frames, then the level-1 frame itself, and
    /// finally the root frame. The kernel high half is not walked; the
    /// frames it names outlive any one table. Afterwards the allocator's
    /// live set has lost exactly the table's frames.
    pub fn release(self, mem: &PhysMemory, allocator: &mut StackFrameAllocator)
        requires
            pt_wf(*mem, self.spec_root_ppn()),
            old(allocator).wf(),
            tables_live(*mem, self.spec_root_ppn(), *old(allocator)),
        ensures
            final(allocator).wf(),
            final(allocator).base@ == old(allocator).base@,
            final(allocator).end == old(allocator).end,
            final(allocator).current == old(allocator).current,
            forall|p: u64|
                #[trigger] final(allocator).spec_live().contains(p) <==> (old(
                    allocator,
                ).spec_live().contains(p) && !is_table_of(*mem, self.spec_root_ppn(), p)),
    {
        let root = self.root_ppn();
        let ghost a0 = *allocator;
        let mut i: usize = 0;
        while i < 256
            invariant
                i <= 256,
                pt_wf(*mem, root),
                root == self.spec_root_ppn(),
                allocator.wf(),
                allocator.base@ == a0.base@,
                allocator.end == a0.end,
                allocator.current == a0.current,
                tables_live(*mem, root, a0),
                forall|p: u64|
                    #[trigger] allocator.spec_live().contains(p) <==> (a0.spec_live().contains(p)
                        && !freed_outer(*mem, root, i as int).contains(p)),
            decreases 256 - i,
        {
            let e2 = mem.read_pte(root, i);
            if e2.is_valid() && e2.is_leaf() {
                proof {
                    assert(l2_slot(*mem, root, i as int));
                }
                let p1 = e2.to_ppn().0;
                let mut j: usize = 0;
                while j < 512
                    invariant
                        j <= 512,
                        i < 256,
                        pt_wf(*mem, root),
                        root == self.spec_root_ppn(),
                        l2_slot(*mem, root, i as int),
                        p1 == l1_ppn(*mem, root, i as int),
                        mem.contains_ppn(p1),
                        allocator.wf(),
                        allocator.base@ == a0.base@,
                        allocator.end == a0.end,
                        allocator.current == a0.current,
                        tables_live(*mem, root, a0),
                        forall|p: u64|
                            #[trigger] allocator.spec_live().contains(p) <==> (
                            a0.spec_live().contains(p) && !freed_outer(
                                *mem,
                                root,
                                i as int,
                            ).contains(p) && !freed_inner(*mem, root, i as int, j as int).contains(
                                p,
                            )),
                    decreases 512 - j,
                {
                    let e1 = mem.read_pte(p1, j);
                    if e1.is_valid() && e1.is_leaf() {
                        proof {
                            assert(l1_chain(*mem, root, i as int, j as int));
                            let t = l0_ppn(*mem, root, i as int, j as int);
                            assert(is_l0_of(*mem, root, t)) by {
                                assert(l1_chain(*mem, root, i as int, j as int) && l0_ppn(
                                    *mem,
                                    root,
                                    i as int,
                                    j as int,
                                ) == t);
                            }
                            assert(is_table_of(*mem, root, t));
                            assert(a0.spec_live().contains(t));
                            assert(mem.contains_ppn(t));
                            assert(!freed_outer(*mem, root, i as int).contains(t)) by {
                                if freed_outer(*mem, root, i as int).contains(t) {
                                    let a = choose|a: int|
                                        #![auto]
                                        0 <= a < i && l2_slot(*mem, root, a) && (t == l1_ppn(
                                            *mem,
                                            root,
                                            a,
                                        ) || exists|b: int|
                                            #![auto]
                                            l1_chain(*mem, root, a, b) && t == l0_ppn(
                                                *mem,
                                                root,
                                                a,
                                                b,
                                            ));
                                    if t == l1_ppn(*mem, root, a) {
                                        assert(is_l1_of(*mem, root, t)) by {
                                            assert(l2_slot(*mem, root, a) && l1_ppn(*mem, root, a)
                                                == t);
                                        }
                                    } else {
                                        let b = choose|b: int|
                                            #![auto]
                                            l1_chain(*mem, root, a, b) && t == l0_ppn(
                                                *mem,
                                                root,
                                                a,
                                                b,
                                            );
                                        assert(!(a == i as int && b == j as int));
                                    }
                                }
                            }
                            assert(!freed_inner(*mem, root, i as int, j as int).contains(t)) by {
                                if freed_inner(*mem, root, i as int, j as int).contains(t) {
                                    let b = choose|b: int|
                                        #![auto]
                                        0 <= b < j && l1_chain(*mem, root, i as int, b) && t
                                            == l0_ppn(*mem, root, i as int, b);
                                    assert(!(i as int == i as int && b == j as int));
                                }
                            }
                            assert(allocator.spec_live().contains(t));
                        }
                        allocator.dealloc(e1.to_ppn());
                        proof {
                            assert forall|p: u64| #[trigger] allocator.spec_live().contains(p)
                                <==> (a0.spec_live().contains(p) && !freed_outer(
                                *mem,
                                root,
                                i as int,
                            ).contains(p) && !freed_inner(*mem, root, i as int, (j + 1) as int).contains(
                                p,
                            )) by {
                                if freed_inner(*mem, root, i as int, (j + 1) as int).contains(p)
                                    && !freed_inner(*mem, root, i as int, j as int).contains(p) {
                                    let b = choose|b: int|
                                        #![auto]
                                        0 <= b < j + 1 && l1_chain(*mem, root, i as int, b) && p
                                            == l0_ppn(*mem, root, i as int, b);
                                    assert(b == j as int);
                                    assert(p == l0_ppn(*mem, root, i as int, j as int));
                                }
                                if freed_inner(*mem, root, i as int, j as int).contains(p) {
                                    let b = choose|b: int|
                                        #![auto]
                                        0 <= b < j && l1_chain(*mem, root, i as int, b) && p
                                            == l0_ppn(*mem, root, i as int, b);
                                    assert(freed_inner(*mem, root, i as int, (j + 1) as int).contains(
                                        p,
                                    )) by {
                                        assert(0 <= b < j + 1 && l1_chain(*mem, root, i as int, b)
                                            && p == l0_ppn(*mem, root, i as int, b));
                                    }
                                }
                                if p == l0_ppn(*mem, root, i as int, j as int) {
                                    assert(freed_inner(*mem, root, i as int, (j + 1) as int).contains(
                                        p,
                                    )) by {
                                        assert(0 <= (j as int) < j + 1 && l1_chain(
                                            *mem,
                                            root,
                                            i as int,
                                            j as int,
                                        ) && p == l0_ppn(*mem, root, i as int, j as int));
                                    }
                                }
                            }
                        }
                    } else {
                        proof {
                            assert(!l1_chain(*mem, root, i as int, j as int));
                            assert forall|p: u64| freed_inner(
                                *mem,
                                root,
                                i as int,
                                (j + 1) as int,
                            ).contains(p) implies freed_inner(*mem, root, i as int, j as int).contains(
                                p,
                            ) by {
                                let b = choose|b: int|
                                    #![auto]
                                    0 <= b < j + 1 && l1_chain(*mem, root, i as int, b) && p
                                        == l0_ppn(*mem, root, i as int, b);
                                assert(b != j as int);
                                assert(0 <= b < j && l1_chain(*mem, root, i as int, b) && p
                                    == l0_ppn(*mem, root, i as int, b));
                            }
                            assert forall|p: u64| freed_inner(
                                *mem,
                                root,
                                i as int,
                                j as int,
                            ).contains(p) implies freed_inner(
                                *mem,
                                root,
                                i as int,
                                (j + 1) as int,
                            ).contains(p) by {
                                let b = choose|b: int|
                                    #![auto]
                                    0 <= b < j && l1_chain(*mem, root, i as int, b) && p == l0_ppn(
                                        *mem,
                                        root,
                                        i as int,
                                        b,
                                    );
                                assert(0 <= b < j + 1 && l1_chain(*mem, root, i as int, b) && p
                                    == l0_ppn(*mem, root, i as int, b));
                            }
                        }
                    }
                    j = j + 1;
                }
                proof {
                    let t = p1;
                    assert(is_l1_of(*mem, root, t)) by {
                        assert(l2_slot(*mem, root, i as int) && l1_ppn(*mem, root, i as int) == t);
                    }
                    assert(is_table_of(*mem, root, t));
                    assert(a0.spec_live().contains(t));
                    assert(!freed_outer(*mem, root, i as int).contains(t)) by {
                        if freed_outer(*mem, root, i as int).contains(t) {
                            let a = choose|a: int|
                                #![auto]
                                0 <= a < i && l2_slot(*mem, root, a) && (t == l1_ppn(*mem, root, a)
                                    || exists|b: int|
                                    #![auto]
                                    l1_chain(*mem, root, a, b) && t == l0_ppn(*mem, root, a, b));
                            if t == l1_ppn(*mem, root, a) {
                            } else {
                                let b = choose|b: int|
                                    #![auto]
                                    l1_chain(*mem, root, a, b) && t == l0_ppn(*mem, root, a, b);
                                assert(!is_l1_of(*mem, root, l0_ppn(*mem, root, a, b)));
                            }
                        }
                    }
                    assert(!freed_inner(*mem, root, i as int, 512).contains(t)) by {
                        if freed_inner(*mem, root, i as int, 512).contains(t) {
                            let b = choose|b: int|
                                #![auto]
                                0 <= b < 512 && l1_chain(*mem, root, i as int, b) && t == l0_ppn(
                                    *mem,
                                    root,
                                    i as int,
                                    b,
                                );
                            assert(!is_l1_of(*mem, root, l0_ppn(*mem, root, i as int, b)));
                        }
                    }
                    assert(allocator.spec_live().contains(t));
                }
                allocator.dealloc(e2.to_ppn());
                proof {
                    assert forall|p: u64| #[trigger] allocator.spec_live().contains(p) <==> (
                    a0.spec_live().contains(p) && !freed_outer(*mem, root, (i + 1) as int).contains(
                        p,
                    )) by {
                        lemma_freed_outer_step(*mem, root, i as int, p);
                    }
                }
            } else {
                proof {
                    assert(!l2_slot(*mem, root, i as int));
                    assert forall|p: u64| #[trigger] allocator.spec_live().contains(p) <==> (
                    a0.spec_live().contains(p) && !freed_outer(*mem, root, (i + 1) as int).contains(
                        p,
                    )) by {
                        lemma_freed_outer_step(*mem, root, i as int, p);
                    }
                }
            }
            i = i + 1;
        }
        proof {
            assert(is_table_of(*mem, root, root));
            assert(a0.spec_live().contains(root));
            assert(!freed_outer(*mem, root, 256).contains(root)) by {
                if freed_outer(*mem, root, 256).contains(root) {
                    let a = choose|a: int|
                        #![auto]
                        0 <= a < 256 && l2_slot(*mem, root, a) && (root == l1_ppn(*mem, root, a)
                            || exists|b: int|
                            #![auto]
                            l1_chain(*mem, root, a, b) && root == l0_ppn(*mem, root, a, b));
                    if root == l1_ppn(*mem, root, a) {
                    } else {
                        let b = choose|b: int|
                            #![auto]
                            l1_chain(*mem, root, a, b) && root == l0_ppn(*mem, root, a, b);
                    }
                }
            }
            assert(allocator.spec_live().contains(root));
            assert(mem.contains_ppn(root));
        }
        allocator.dealloc(PhysPage(self.0.0 >> 12));
        proof {
            assert forall|p: u64| #[trigger] allocator.spec_live().contains(p) <==> (
            a0.spec_live().contains(p) && !is_table_of(*mem, root, p)) by {
                if is_table_of(*mem, root, p) && p != root {
                    if is_l1_of(*mem, root, p) {
                        let a = choose|a: int|
                            #[trigger] l2_slot(*mem, root, a) && l1_ppn(*mem, root, a) == p;
                        assert(freed_outer(*mem, root, 256).contains(p)) by {
                            assert(0 <= a < 256 && l2_slot(*mem, root, a) && p == l1_ppn(
                                *mem,
                                root,
                                a,
                            ));
                        }
                    } else {
                        let (a, b) = choose|a: int, b: int|
                            #[trigger] l1_chain(*mem, root, a, b) && l0_ppn(*mem, root, a, b) == p;
                        assert(freed_outer(*mem, root, 256).contains(p)) by {
                            assert(0 <= a < 256 && l2_slot(*mem, root, a) && l1_chain(
                                *mem,
                                root,
                                a,
                                b,
                            ) && p == l0_ppn(*mem, root, a, b));
                        }
                    }
                }
                if freed_outer(*mem, root, 256).contains(p) {
                    let a = choose|a: int|
                        #![auto]
                        0 <= a < 256 && l2_slot(*mem, root, a) && (p == l1_ppn(*mem, root, a)
                            || exists|b: int|
                            #![auto]
                            l1_chain(*mem, root, a, b) && p == l0_ppn(*mem, root, a, b));
                    if p == l1_ppn(*mem, root, a) {
                        assert(is_l1_of(*mem, root, p)) by {
                            assert(l2_slot(*mem, root, a) && l1_ppn(*mem, root, a) == p);
                        }
                    } else {
                        let b = choose|b: int|
                            #![auto]
                            l1_chain(*mem, root, a, b) && p == l0_ppn(*mem, root, a, b);
                        assert(is_l0_of(*mem, root, p)) by {
                            assert(l1_chain(*mem, root, a, b) && l0_ppn(*mem, root, a, b) == p);
                        }
                    }
                }
            }
        }
    }
}

/// A write into a frame that is none of the table's frames leaves every
/// user-half walk unchanged: a walk only reads the root, a level-1 frame
/// and a level-0 frame, all of them table frames.
pub(crate) proof fn lemma_fresh_write_preserves_walk(m1: PhysMemory, m2: PhysMemory, root: u64, t: u64)
    requires
        pt_wf(m1, root),
        !is_table_of(m1, root, t),
        m2.base == m1.base,
        m2.frames@.len() == m1.frames@.len(),
        m2.same_except(m1, t),
    ensures
        forall|w: u64|
            w < 0x400_0000 ==> #[trigger] spec_find_pte(m2, root, w) == spec_find_pte(
                m1,
                root,
                w,
            ),
{
    assert forall|w: u64| w < 0x400_0000 implies #[trigger] spec_find_pte(m2, root, w)
        == spec_find_pte(m1, root, w) by {
        lemma_user_vpn_index_bounds(w);
        assert(m2.spec_frame(root) == m1.spec_frame(root));
        let e2 = m1.spec_entry(root, idx2(w) as int);
        assert(m2.spec_entry(root, idx2(w) as int) == e2);
        if e2.spec_is_valid() && m1.contains_ppn(e2.spec_ppn()) {
            let p1 = e2.spec_ppn();
            assert(l2_slot(m1, root, idx2(w) as int));
            assert(is_l1_of(m1, root, p1)) by {
                assert(l2_slot(m1, root, idx2(w) as int) && l1_ppn(m1, root, idx2(w) as int)
                    == p1);
            }
            assert(m2.spec_frame(p1) == m1.spec_frame(p1));
            let e1 = m1.spec_entry(p1, idx1(w) as int);
            assert(m2.spec_entry(p1, idx1(w) as int) == e1);
            if e1.spec_is_valid() && m1.contains_ppn(e1.spec_ppn()) {
                let p0 = e1.spec_ppn();
                assert(l1_chain(m1, root, idx2(w) as int, idx1(w) as int));
                assert(is_l0_of(m1, root, p0)) by {
                    assert(l1_chain(m1, root, idx2(w) as int, idx1(w) as int) && l0_ppn(
                        m1,
                        root,
                        idx2(w) as int,
                        idx1(w) as int,
                    ) == p0);
                }
                assert(m2.spec_frame(p0) == m1.spec_frame(p0));
                assert(m2.spec_entry(p0, idx0(w) as int) == m1.spec_entry(p0, idx0(w) as int));
            }
        }
    }
}

/// Installing a pointer to a zeroed fresh frame into an empty root slot
/// leaves every live user-half translation as it was: walks through other
/// slots are untouched, and walks through this slot miss before as after
/// (the fresh frame is empty).
proof fn lemma_install_l1_preserves_translate(
    m1: PhysMemory,
    m2: PhysMemory,
    root: u64,
    i2v: int,
    pf: u64,
)
    requires
        pt_wf(m1, root),
        0 <= i2v < 256,
        !m1.spec_entry(root, i2v).spec_is_valid(),
        m1.contains_ppn(pf),
        !is_table_of(m1, root, pf),
        forall|j: int| 0 <= j < 512 ==> #[trigger] m1.spec_entry(pf, j) == PTE(0),
        m2.wf(),
        m2.base == m1.base,
        m2.frames@.len() == m1.frames@.len(),
        m1.spec_frame(root).len() == 512,
        m2.spec_frame(root) == m1.spec_frame(root).update(i2v, PTE(spec_pte_word(pf, FLAG_V))),
        m2.same_except(m1, root),
    ensures
        forall|w: u64|
            w < 0x400_0000 ==> #[trigger] spec_translate(m2, root, w) == spec_translate(
                m1,
                root,
                w,
            ),
{
    assert forall|w: u64| w < 0x400_0000 implies #[trigger] spec_translate(m2, root, w)
        == spec_translate(m1, root, w) by {
        lemma_user_vpn_index_bounds(w);
        if idx2(w) == i2v {
            assert(spec_find_pte(m1, root, w) is None);
            let e2 = m2.spec_entry(root, idx2(w) as int);
            assert(e2 == PTE(spec_pte_word(pf, FLAG_V)));
            lemma_interior_entry(pf);
            if 0 < pf {
                assert(m2.spec_frame(pf) == m1.spec_frame(pf));
                assert(m2.spec_entry(pf, idx1(w) as int) == m1.spec_entry(pf, idx1(w) as int));
                assert(m1.spec_entry(pf, idx1(w) as int) == PTE(0));
                assert(spec_find_pte(m2, root, w) is None);
            } else {
                assert(pf == 0 && !m1.contains_ppn(pf) || m1.contains_ppn(pf));
                if pf == 0 {
                    assert(e2.spec_ppn() == 0) by {
                        assert((spec_pte_word(0u64, 0x01u64) >> 10) & 0x0fff_ffff_ffff == 0)
                            by (bit_vector);
                    }
                    assert(!e2.spec_is_valid()) by {
                        assert(spec_pte_word(0u64, 0x01u64) <= 0xff) by (bit_vector);
                    }
                    assert(spec_find_pte(m2, root, w) is None);
                }
            }
        } else {
            assert(m2.spec_entry(root, idx2(w) as int) == m1.spec_entry(root, idx2(w) as int))
                by {
                assert(m2.spec_frame(root)[idx2(w) as int] == m1.spec_frame(root)[idx2(
                    w,
                ) as int]);
            }
            let e2 = m1.spec_entry(root, idx2(w) as int);
            if e2.spec_is_valid() && m1.contains_ppn(e2.spec_ppn()) {
                let p1 = e2.spec_ppn();
                assert(l2_slot(m1, root, idx2(w) as int));
                assert(is_l1_of(m1, root, p1)) by {
                    assert(l2_slot(m1, root, idx2(w) as int) && l1_ppn(m1, root, idx2(w) as int)
                        == p1);
                }
                assert(p1 != root);
                assert(m2.spec_frame(p1) == m1.spec_frame(p1));
                let e1 = m1.spec_entry(p1, idx1(w) as int);
                assert(m2.spec_entry(p1, idx1(w) as int) == e1);
                if e1.spec_is_valid() && m1.contains_ppn(e1.spec_ppn()) {
                    let p0 = e1.spec_ppn();
                    assert(l1_chain(m1, root, idx2(w) as int, idx1(w) as int));
                    assert(is_l0_of(m1, root, p0)) by {
                        assert(l1_chain(m1, root, idx2(w) as int, idx1(w) as int) && l0_ppn(
                            m1,
                            root,
                            idx2(w) as int,
                            idx1(w) as int,
                        ) == p0);
                    }
                    assert(p0 != root);
                    assert(m2.spec_frame(p0) == m1.spec_frame(p0));
                    assert(m2.spec_entry(p0, idx0(w) as int) == m1.spec_entry(
                        p0,
                        idx0(w) as int,
                    ));
                }
            }
        }
    }
}

/// Installing a pointer to a zeroed fresh frame into an empty slot of a
/// level-1 frame leaves every live user-half translation as it was: the
/// only walks that see the write missed before and land on an empty leaf
/// slot after.
proof fn lemma_install_l0_preserves_translate(
    m1: PhysMemory,
    m2: PhysMemory,
    root: u64,
    i2v: int,
    i1v: int,
    pf: u64,
)
    requires
        pt_wf(m1, root),
        l2_slot(m1, root, i2v),
        0 <= i1v < 512,
        !m1.spec_entry(l1_ppn(m1, root, i2v), i1v).spec_is_valid(),
        m1.contains_ppn(pf),
        !is_table_of(m1, root, pf),
        0 < pf < 0x400_0000,
        forall|j: int| 0 <= j < 512 ==> #[trigger] m1.spec_entry(pf, j) == PTE(0),
        m2.wf(),
        m2.base == m1.base,
        m2.frames@.len() == m1.frames@.len(),
        m1.spec_frame(l1_ppn(m1, root, i2v)).len() == 512,
        m2.spec_frame(l1_ppn(m1, root, i2v)) == m1.spec_frame(l1_ppn(m1, root, i2v)).update(
            i1v,
            PTE(spec_pte_word(pf, FLAG_V)),
        ),
        m2.same_except(m1, l1_ppn(m1, root, i2v)),
    ensures
        forall|w: u64|
            w < 0x400_0000 ==> #[trigger] spec_translate(m2, root, w) == spec_translate(
                m1,
                root,
                w,
            ),
{
    let pv = l1_ppn(m1, root, i2v);
    assert(is_l1_of(m1, root, pv)) by {
        assert(l2_slot(m1, root, i2v) && l1_ppn(m1, root, i2v) == pv);
    }
    assert(pv != root);
    lemma_interior_entry(pf);
    assert forall|w: u64| w < 0x400_0000 implies #[trigger] spec_translate(m2, root, w)
        == spec_translate(m1, root, w) by {
        lemma_user_vpn_index_bounds(w);
        assert(m2.spec_frame(root) == m1.spec_frame(root));
        let e2 = m1.spec_entry(root, idx2(w) as int);
        assert(m2.spec_entry(root, idx2(w) as int) == e2);
        if e2.spec_is_valid() && m1.contains_ppn(e2.spec_ppn()) {
            let p1 = e2.spec_ppn();
            assert(l2_slot(m1, root, idx2(w) as int));
            assert(is_l1_of(m1, root, p1)) by {
                assert(l2_slot(m1, root, idx2(w) as int) && l1_ppn(m1, root, idx2(w) as int)
                    == p1);
            }
            if p1 == pv {
                assert(idx2(w) == i2v) by {
                    if idx2(w) != i2v {
                        assert(l1_ppn(m1, root, idx2(w) as int) != l1_ppn(m1, root, i2v));
                    }
                }
                if idx1(w) == i1v {
                    // the walk missed here before; now it reaches an empty leaf
                    assert(spec_find_pte(m1, root, w) is None);
                    assert(m2.spec_entry(pv, i1v) == PTE(spec_pte_word(pf, FLAG_V)));
                    assert(m2.spec_frame(pf) == m1.spec_frame(pf));
                    assert(m2.spec_entry(pf, idx0(w) as int) == m1.spec_entry(
                        pf,
                        idx0(w) as int,
                    ));
                    assert(m1.spec_entry(pf, idx0(w) as int) == PTE(0));
                    assert(spec_find_pte(m2, root, w) == Option::Some(PTE(0)));
                    assert(!PTE(0).spec_is_valid());
                } else {
                    assert(m2.spec_entry(pv, idx1(w) as int) == m1.spec_entry(
                        pv,
                        idx1(w) as int,
                    )) by {
                        assert(m2.spec_frame(pv)[idx1(w) as int] == m1.spec_frame(pv)[idx1(
                            w,
                        ) as int]);
                    }
                    let e1 = m1.spec_entry(pv, idx1(w) as int);
                    if e1.spec_is_valid() && m1.contains_ppn(e1.spec_ppn()) {
                        let p0 = e1.spec_ppn();
                        assert(l1_chain(m1, root, idx2(w) as int, idx1(w) as int));
                        assert(is_l0_of(m1, root, p0)) by {
                            assert(l1_chain(m1, root, idx2(w) as int, idx1(w) as int) && l0_ppn(
                                m1,
                                root,
                                idx2(w) as int,
                                idx1(w) as int,
                            ) == p0);
                        }
                        assert(p0 != pv);
                        assert(m2.spec_frame(p0) == m1.spec_frame(p0));
                        assert(m2.spec_entry(p0, idx0(w) as int) == m1.spec_entry(
                            p0,
                            idx0(w) as int,
                        ));
                    }
                }
            } else {
                assert(m2.spec_frame(p1) == m1.spec_frame(p1));
                let e1 = m1.spec_entry(p1, idx1(w) as int);
                assert(m2.spec_entry(p1, idx1(w) as int) == e1);
                if e1.spec_is_valid() && m1.contains_ppn(e1.spec_ppn()) {
                    let p0 = e1.spec_ppn();
                    assert(l1_chain(m1, root, idx2(w) as int, idx1(w) as int));
                    assert(is_l0_of(m1, root, p0)) by {
                        assert(l1_chain(m1, root, idx2(w) as int, idx1(w) as int) && l0_ppn(
                            m1,
                            root,
                            idx2(w) as int,
                            idx1(w) as int,
                        ) == p0);
                    }
                    assert(p0 != pv);
                    assert(m2.spec_frame(p0) == m1.spec_frame(p0));
                    assert(m2.spec_entry(p0, idx0(w) as int) == m1.spec_entry(
                        p0,
                        idx0(w) as int,
                    ));
                }
            }
        }
    }
}

/// Map/translate law: a leaf entry just installed by `map` for a nonzero
/// page number and a nonempty permission set is live, and translating its
/// page yields an entry holding that page number whose flags contain the
/// requested permissions. (A zero page number encodes to a word at or below
/// `0xff`, which the validity guard rejects, so such a mapping never
/// translates.)
pub proof fn lemma_map_then_translate(mem: PhysMemory, root: u64, vpn: u64, ppn: u64, m: u64)
    requires
        spec_find_pte(mem, root, vpn) == Option::Some(
            PTE(spec_pte_word(ppn, spec_flags_of_mapping(m))),
        ),
        0 < ppn < 0x1000_0000_0000,
        m != 0,
    ensures
        spec_translate(mem, root, vpn) == Option::Some(
            PTE(spec_pte_word(ppn, spec_flags_of_mapping(m))),
        ),
        spec_translate(mem, root, vpn).unwrap().spec_ppn() == ppn,
{
    let fl = spec_flags_of_mapping(m);
    let w = spec_pte_word(ppn, fl);
    assert(m != 0 ==> fl & 0x01 == 0x01 && fl <= 0xff) by (bit_vector)
        requires
            fl == spec_flags_of_mapping(m),
    ;
    assert(0 < ppn < 0x1000_0000_0000 && fl & 0x01 == 0x01 && fl <= 0xff && w == spec_pte_word(
        ppn,
        fl,
    ) ==> (w & 0xff) & 0x01 == 0x01 && w > 0xff && (w >> 10) & 0x0fff_ffff_ffff == ppn)
        by (bit_vector);
}

/// Tearing down one more root slot frees exactly that slot's level-1 frame
/// and its level-0 frames.
proof fn lemma_freed_outer_step(mem: PhysMemory, root: u64, i: int, p: u64)
    requires
        0 <= i < 256,
    ensures
        freed_outer(mem, root, i + 1).contains(p) <==> (freed_outer(mem, root, i).contains(p) || (
        l2_slot(mem, root, i) && (p == l1_ppn(mem, root, i) || freed_inner(
            mem,
            root,
            i,
            512,
        ).contains(p)))),
{
    if freed_outer(mem, root, i + 1).contains(p) {
        let a = choose|a: int|
            #![auto]
            0 <= a < i + 1 && l2_slot(mem, root, a) && (p == l1_ppn(mem, root, a) || exists|b: int|
                #![auto]
                l1_chain(mem, root, a, b) && p == l0_ppn(mem, root, a, b));
        if a < i {
            assert(freed_outer(mem, root, i).contains(p)) by {
                assert(0 <= a < i && l2_slot(mem, root, a) && (p == l1_ppn(mem, root, a) || exists|
                    b: int,
                |
                    #![auto]
                    l1_chain(mem, root, a, b) && p == l0_ppn(mem, root, a, b)));
            }
        } else {
            if p != l1_ppn(mem, root, i) {
                let b = choose|b: int|
                    #![auto]
                    l1_chain(mem, root, i, b) && p == l0_ppn(mem, root, i, b);
                assert(freed_inner(mem, root, i, 512).contains(p)) by {
                    assert(0 <= b < 512 && l1_chain(mem, root, i, b) && p == l0_ppn(
                        mem,
                        root,
                        i,
                        b,
                    ));
                }
            }
        }
    }
    if freed_outer(mem, root, i).contains(p) {
        let a = choose|a: int|
            #![auto]
            0 <= a < i && l2_slot(mem, root, a) && (p == l1_ppn(mem, root, a) || exists|b: int|
                #![auto]
                l1_chain(mem, root, a, b) && p == l0_ppn(mem, root, a, b));
        assert(freed_outer(mem, root, i + 1).contains(p)) by {
            assert(0 <= a < i + 1 && l2_slot(mem, root, a) && (p == l1_ppn(mem, root, a) || exists|
                b: int,
            |
                #![auto]
                l1_chain(mem, root, a, b) && p == l0_ppn(mem, root, a, b)));
        }
    }
    if l2_slot(mem, root, i) {
        if p == l1_ppn(mem, root, i) {
            assert(freed_outer(mem, root, i + 1).contains(p)) by {
                assert(0 <= i < i + 1 && l2_slot(mem, root, i) && p == l1_ppn(mem, root, i));
            }
        }
        if freed_inner(mem, root, i, 512).contains(p) {
            let b = choose|b: int|
                #![auto]
                0 <= b < 512 && l1_chain(mem, root, i, b) && p == l0_ppn(mem, root, i, b);
            assert(freed_outer(mem, root, i + 1).contains(p)) by {
                assert(0 <= i < i + 1 && l2_slot(mem, root, i) && l1_chain(mem, root, i, b) && p
                    == l0_ppn(mem, root, i, b));
            }
        }
    }
}

/// The table frames already returned after the first `i` root slots have
/// been torn down: each earlier slot's level-1 frame and its level-0
/// frames.
spec fn freed_outer(mem: PhysMemory, root: u64, i: int) -> Set<u64> {
    Set::new(
        |p: u64|
            exists|a: int|
                #![auto]
                0 <= a < i && l2_slot(mem, root, a) && (p == l1_ppn(mem, root, a) || exists|b: int|
                    #![auto]
                    l1_chain(mem, root, a, b) && p == l0_ppn(mem, root, a, b)),
    )
}

/// The level-0 frames already returned from the first `j` slots of the
/// level-1 frame at root slot `i`.
spec fn freed_inner(mem: PhysMemory, root: u64, i: int, j: int) -> Set<u64> {
    Set::new(
        |p: u64|
            exists|b: int|
                #![auto]
                0 <= b < j && l1_chain(mem, root, i, b) && p == l0_ppn(mem, root, i, b),
    )
}

/// A write into a frame that is neither the root nor a level-1 frame
/// leaves the table's structure as it was: the same slots, chains and
/// frames, and well-formedness carries over.
pub(crate) proof fn lemma_nontable_write(m1: PhysMemory, m2: PhysMemory, root: u64, t: u64)
    requires
        m1.contains_ppn(root),
        m2.wf(),
        t != root,
        !is_l1_of(m1, root, t),
        m2.base == m1.base,
        m2.frames@.len() == m1.frames@.len(),
        m2.same_except(m1, t),
    ensures
        forall|i: int| #[trigger] l2_slot(m2, root, i) == l2_slot(m1, root, i),
        forall|i: int| #[trigger] l2_slot(m1, root, i) ==> l1_ppn(m2, root, i) == l1_ppn(m1, root, i),
        forall|i: int, j: int| #[trigger] l1_chain(m2, root, i, j) == l1_chain(m1, root, i, j),
        forall|i: int, j: int|
            #[trigger] l1_chain(m1, root, i, j) ==> l0_ppn(m2, root, i, j) == l0_ppn(m1, root, i, j)
                && m2.spec_entry(l1_ppn(m1, root, i), j) == m1.spec_entry(l1_ppn(m1, root, i), j),
        forall|p: u64| #[trigger] is_l1_of(m2, root, p) == is_l1_of(m1, root, p),
        forall|p: u64| #[trigger] is_l0_of(m2, root, p) == is_l0_of(m1, root, p),
        forall|p: u64| #[trigger] is_table_of(m2, root, p) == is_table_of(m1, root, p),
        pt_wf(m1, root) ==> pt_wf(m2, root),
{
    assert(m2.spec_frame(root) == m1.spec_frame(root));
    assert forall|i: int| #[trigger] l2_slot(m2, root, i) == l2_slot(m1, root, i) by {
        assert(m2.spec_entry(root, i) == m1.spec_entry(root, i));
    }
    assert forall|i: int| #[trigger] l2_slot(m1, root, i) implies l1_ppn(m2, root, i) == l1_ppn(
        m1,
        root,
        i,
    ) by {
        assert(m2.spec_entry(root, i) == m1.spec_entry(root, i));
    }
    assert forall|i: int, j: int| true implies #[trigger] l1_chain(m2, root, i, j) == l1_chain(
        m1,
        root,
        i,
        j,
    ) by {
        assert(m2.spec_entry(root, i) == m1.spec_entry(root, i));
        if l2_slot(m1, root, i) && m1.contains_ppn(l1_ppn(m1, root, i)) {
            let p1 = l1_ppn(m1, root, i);
            assert(is_l1_of(m1, root, p1)) by {
                assert(l2_slot(m1, root, i) && l1_ppn(m1, root, i) == p1);
            }
            assert(m2.spec_frame(p1) == m1.spec_frame(p1));
        }
    }
    assert forall|i: int, j: int| #[trigger] l1_chain(m1, root, i, j) implies l0_ppn(m2, root, i, j)
        == l0_ppn(m1, root, i, j) && m2.spec_entry(l1_ppn(m1, root, i), j) == m1.spec_entry(
        l1_ppn(m1, root, i),
        j,
    ) by {
        let p1 = l1_ppn(m1, root, i);
        assert(is_l1_of(m1, root, p1)) by {
            assert(l2_slot(m1, root, i) && l1_ppn(m1, root, i) == p1);
        }
        assert(m2.spec_frame(p1) == m1.spec_frame(p1));
        assert(m2.spec_entry(root, i) == m1.spec_entry(root, i));
    }
    assert forall|p: u64| #[trigger] is_l1_of(m2, root, p) == is_l1_of(m1, root, p) by {
        if is_l1_of(m1, root, p) {
            let i = choose|i: int| #[trigger] l2_slot(m1, root, i) && l1_ppn(m1, root, i) == p;
            assert(l2_slot(m2, root, i) && l1_ppn(m2, root, i) == p);
        }
        if is_l1_of(m2, root, p) {
            let i = choose|i: int| #[trigger] l2_slot(m2, root, i) && l1_ppn(m2, root, i) == p;
            assert(l2_slot(m1, root, i) && l1_ppn(m1, root, i) == p);
        }
    }
    assert forall|p: u64| #[trigger] is_l0_of(m2, root, p) == is_l0_of(m1, root, p) by {
        if is_l0_of(m1, root, p) {
            let (i, j) = choose|i: int, j: int|
                #[trigger] l1_chain(m1, root, i, j) && l0_ppn(m1, root, i, j) == p;
            assert(l1_chain(m2, root, i, j) && l0_ppn(m2, root, i, j) == p);
        }
        if is_l0_of(m2, root, p) {
            let (i, j) = choose|i: int, j: int|
                #[trigger] l1_chain(m2, root, i, j) && l0_ppn(m2, root, i, j) == p;
            assert(l1_chain(m1, root, i, j) && l0_ppn(m1, root, i, j) == p);
        }
    }
    if pt_wf(m1, root) {
        assert forall|i: int|
            0 <= i < 256 && (#[trigger] m2.spec_entry(root, i)).spec_is_valid() implies !m2.spec_entry(
            root,
            i,
        ).spec_is_huge() by {
            assert(m2.spec_entry(root, i) == m1.spec_entry(root, i));
        }
        assert forall|i: int, j: int|
            l2_slot(m2, root, i) && 0 <= j < 512 && (#[trigger] m2.spec_entry(
                l1_ppn(m2, root, i),
                j,
            )).spec_is_valid() implies !m2.spec_entry(l1_ppn(m2, root, i), j).spec_is_huge() by {
            let p1 = l1_ppn(m1, root, i);
            assert(is_l1_of(m1, root, p1)) by {
                assert(l2_slot(m1, root, i) && l1_ppn(m1, root, i) == p1);
            }
            assert(m2.spec_frame(p1) == m1.spec_frame(p1));
            assert(l1_ppn(m2, root, i) == p1);
            assert(m2.spec_entry(p1, j) == m1.spec_entry(p1, j));
        }
        assert(pt_wf(m2, root));
    }
}

/// Installing a pointer to a zeroed fresh frame into an empty root slot
/// keeps the table well formed; the fresh frame becomes its level-1 frame
/// and the only new table frame.
proof fn lemma_install_l1(m1: PhysMemory, m2: PhysMemory, root: u64, i2: int, pf: u64)
    requires
        pt_wf(m1, root),
        0 <= i2 < 256,
        !m1.spec_entry(root, i2).spec_is_valid(),
        m1.contains_ppn(pf),
        !is_table_of(m1, root, pf),
        0 < pf < 0x400_0000,
        forall|j: int| 0 <= j < 512 ==> #[trigger] m1.spec_entry(pf, j) == PTE(0),
        m2.wf(),
        m2.base == m1.base,
        m2.frames@.len() == m1.frames@.len(),
        m1.spec_frame(root).len() == 512,
        m2.spec_frame(root) == m1.spec_frame(root).update(i2, PTE(spec_pte_word(pf, FLAG_V))),
        m2.same_except(m1, root),
    ensures
        pt_wf(m2, root),
        l2_slot(m2, root, i2),
        l1_ppn(m2, root, i2) == pf,
        m2.contains_ppn(pf),
        forall|j: int| 0 <= j < 512 ==> #[trigger] m2.spec_entry(pf, j) == PTE(0),
        forall|p: u64|
            #[trigger] is_table_of(m2, root, p) == (is_table_of(m1, root, p) || p == pf),
{
    lemma_interior_entry(pf);
    assert(m2.spec_frame(pf) == m1.spec_frame(pf));
    assert forall|j: int| 0 <= j < 512 implies #[trigger] m2.spec_entry(pf, j) == PTE(0) by {
        assert(m1.spec_entry(pf, j) == PTE(0));
        assert(m2.spec_entry(pf, j) == m2.spec_frame(pf)[j]);
    }
    assert(m2.spec_entry(root, i2) == PTE(spec_pte_word(pf, FLAG_V)));
    assert(l2_slot(m2, root, i2));
    assert(pf != root);
    assert(m2.spec_frame(pf) == m1.spec_frame(pf));
    assert forall|i: int| 0 <= i < 512 && i != i2 implies #[trigger] m2.spec_entry(root, i)
        == m1.spec_entry(root, i) by {
        assert(m2.spec_frame(root)[i] == m1.spec_frame(root)[i]);
    }
    assert forall|i: int| #[trigger] l2_slot(m1, root, i) implies m2.spec_frame(
        l1_ppn(m1, root, i),
    ) == m1.spec_frame(l1_ppn(m1, root, i)) && l1_ppn(m1, root, i) != pf by {
        assert(is_l1_of(m1, root, l1_ppn(m1, root, i)));
    }
    // old slots carry over, with their chains
    assert forall|i: int| i != i2 implies #[trigger] l2_slot(m2, root, i) == l2_slot(m1, root, i)
        && (l2_slot(m1, root, i) ==> l1_ppn(m2, root, i) == l1_ppn(m1, root, i)) by {
        if 0 <= i < 256 {
            assert(m2.spec_entry(root, i) == m1.spec_entry(root, i));
        }
    }
    assert forall|i: int, j: int| i != i2 implies #[trigger] l1_chain(m2, root, i, j) == l1_chain(
        m1,
        root,
        i,
        j,
    ) && (l1_chain(m1, root, i, j) ==> l0_ppn(m2, root, i, j) == l0_ppn(m1, root, i, j)) by {
        if l2_slot(m1, root, i) {
            assert(m2.spec_frame(l1_ppn(m1, root, i)) == m1.spec_frame(l1_ppn(m1, root, i)));
        }
    }
    // the fresh frame is zeroed, so slot i2 has no chains
    assert forall|j: int| true implies !(#[trigger] l1_chain(m2, root, i2, j)) by {
        if 0 <= j < 512 {
            assert(m1.spec_entry(pf, j) == PTE(0));
            assert(m2.spec_entry(pf, j) == m2.spec_frame(pf)[j]);
            assert(m2.spec_entry(pf, j) == PTE(0));
        }
    }
    // well-formedness clause by clause
    assert forall|i: int|
        0 <= i < 256 && (#[trigger] m2.spec_entry(root, i)).spec_is_valid() implies !m2.spec_entry(
        root,
        i,
    ).spec_is_huge() by {
        if i != i2 {
            assert(m2.spec_entry(root, i) == m1.spec_entry(root, i));
        }
    }
    assert forall|i: int| #[trigger] l2_slot(m2, root, i) implies m2.contains_ppn(
        l1_ppn(m2, root, i),
    ) && l1_ppn(m2, root, i) != root by {
        if i != i2 {
            assert(l2_slot(m1, root, i));
        }
    }
    assert forall|i: int, j: int|
        #[trigger] l2_slot(m2, root, i) && #[trigger] l2_slot(m2, root, j) && i != j implies l1_ppn(
        m2,
        root,
        i,
    ) != l1_ppn(m2, root, j) by {
        if i != i2 && j != i2 {
            assert(l2_slot(m1, root, i) && l2_slot(m1, root, j));
        } else if i == i2 && j != i2 {
            assert(l2_slot(m1, root, j));
            assert(is_l1_of(m1, root, l1_ppn(m1, root, j)));
        } else if i != i2 && j == i2 {
            assert(l2_slot(m1, root, i));
            assert(is_l1_of(m1, root, l1_ppn(m1, root, i)));
        }
    }
    assert forall|i: int, j: int|
        l2_slot(m2, root, i) && 0 <= j < 512 && (#[trigger] m2.spec_entry(
            l1_ppn(m2, root, i),
            j,
        )).spec_is_valid() implies !m2.spec_entry(l1_ppn(m2, root, i), j).spec_is_huge() by {
        if i == i2 {
            assert(m1.spec_entry(pf, j) == PTE(0));
            assert(m2.spec_entry(pf, j) == m2.spec_frame(pf)[j]);
            assert(m2.spec_entry(pf, j) == PTE(0));
        } else {
            assert(l2_slot(m1, root, i));
            assert(m2.spec_frame(l1_ppn(m1, root, i)) == m1.spec_frame(l1_ppn(m1, root, i)));
            assert(m2.spec_entry(l1_ppn(m1, root, i), j) == m1.spec_entry(l1_ppn(m1, root, i), j));
        }
    }
    assert forall|p: u64| #[trigger] is_l1_of(m2, root, p) == (is_l1_of(m1, root, p) || p == pf) by {
        if is_l1_of(m1, root, p) {
            let i = choose|i: int| #[trigger] l2_slot(m1, root, i) && l1_ppn(m1, root, i) == p;
            assert(i != i2);
            assert(l2_slot(m2, root, i) && l1_ppn(m2, root, i) == p);
        }
        if p == pf {
            assert(l2_slot(m2, root, i2) && l1_ppn(m2, root, i2) == p);
        }
        if is_l1_of(m2, root, p) {
            let i = choose|i: int| #[trigger] l2_slot(m2, root, i) && l1_ppn(m2, root, i) == p;
            if i != i2 {
                assert(l2_slot(m1, root, i) && l1_ppn(m1, root, i) == p);
            }
        }
    }
    assert forall|p: u64| #[trigger] is_l0_of(m2, root, p) == is_l0_of(m1, root, p) by {
        if is_l0_of(m1, root, p) {
            let (i, j) = choose|i: int, j: int|
                #[trigger] l1_chain(m1, root, i, j) && l0_ppn(m1, root, i, j) == p;
            assert(i != i2) by {
                if i == i2 {
                    assert(l2_slot(m1, root, i2));
                }
            }
            assert(l1_chain(m2, root, i, j) && l0_ppn(m2, root, i, j) == p);
        }
        if is_l0_of(m2, root, p) {
            let (i, j) = choose|i: int, j: int|
                #[trigger] l1_chain(m2, root, i, j) && l0_ppn(m2, root, i, j) == p;
            assert(i != i2);
            assert(l1_chain(m1, root, i, j) && l0_ppn(m1, root, i, j) == p);
        }
    }
    assert forall|i: int, j: int| #[trigger] l1_chain(m2, root, i, j) implies m2.contains_ppn(
        l0_ppn(m2, root, i, j),
    ) && l0_ppn(m2, root, i, j) != root && !is_l1_of(m2, root, l0_ppn(m2, root, i, j)) by {
        assert(i != i2);
        assert(l1_chain(m1, root, i, j));
        assert(l0_ppn(m2, root, i, j) == l0_ppn(m1, root, i, j));
        assert(l0_ppn(m1, root, i, j) != pf);
        assert(!is_l1_of(m1, root, l0_ppn(m1, root, i, j)));
    }
    assert forall|i: int, j: int, k: int, l: int|
        #[trigger] l1_chain(m2, root, i, j) && #[trigger] l1_chain(m2, root, k, l) && !(i == k && j
            == l) implies l0_ppn(m2, root, i, j) != l0_ppn(m2, root, k, l) by {
        assert(i != i2 && k != i2);
        assert(l1_chain(m1, root, i, j) && l1_chain(m1, root, k, l));
    }
    assert(pt_wf(m2, root));
    assert forall|p: u64| true implies #[trigger] is_table_of(m2, root, p) == (is_table_of(
        m1,
        root,
        p,
    ) || p == pf) by {}
}

/// Installing a pointer to a zeroed fresh frame into an empty slot of a
/// level-1 frame keeps the table well formed; the fresh frame becomes a
/// level-0 frame and the only new table frame.
proof fn lemma_install_l0(m1: PhysMemory, m2: PhysMemory, root: u64, i2: int, i1: int, pf: u64)
    requires
        pt_wf(m1, root),
        l2_slot(m1, root, i2),
        0 <= i1 < 512,
        !m1.spec_entry(l1_ppn(m1, root, i2), i1).spec_is_valid(),
        m1.contains_ppn(pf),
        !is_table_of(m1, root, pf),
        0 < pf < 0x400_0000,
        forall|j: int| 0 <= j < 512 ==> #[trigger] m1.spec_entry(pf, j) == PTE(0),
        m2.wf(),
        m2.base == m1.base,
        m2.frames@.len() == m1.frames@.len(),
        m1.spec_frame(l1_ppn(m1, root, i2)).len() == 512,
        m2.spec_frame(l1_ppn(m1, root, i2)) == m1.spec_frame(l1_ppn(m1, root, i2)).update(
            i1,
            PTE(spec_pte_word(pf, FLAG_V)),
        ),
        m2.same_except(m1, l1_ppn(m1, root, i2)),
    ensures
        pt_wf(m2, root),
        l1_chain(m2, root, i2, i1),
        l0_ppn(m2, root, i2, i1) == pf,
        l2_slot(m2, root, i2),
        l1_ppn(m2, root, i2) == l1_ppn(m1, root, i2),
        forall|j: int| 0 <= j < 512 ==> #[trigger] m2.spec_entry(pf, j) == PTE(0),
        forall|p: u64|
            #[trigger] is_table_of(m2, root, p) == (is_table_of(m1, root, p) || p == pf),
{
    lemma_interior_entry(pf);
    let p1 = l1_ppn(m1, root, i2);
    assert(is_l1_of(m1, root, p1)) by {
        assert(l2_slot(m1, root, i2) && l1_ppn(m1, root, i2) == p1);
    }
    assert(p1 != root);
    assert(pf != p1 && pf != root);
    assert(m2.spec_frame(root) == m1.spec_frame(root));
    assert(m2.spec_frame(pf) == m1.spec_frame(pf));
    assert forall|j: int| 0 <= j < 512 implies #[trigger] m2.spec_entry(pf, j) == PTE(0) by {
        assert(m1.spec_entry(pf, j) == PTE(0));
        assert(m2.spec_entry(pf, j) == m2.spec_frame(pf)[j]);
    }
    // the root frame is untouched, so level-2 structure carries over
    assert forall|i: int| true implies #[trigger] l2_slot(m2, root, i) == l2_slot(m1, root, i)
        && l1_ppn(m2, root, i) == l1_ppn(m1, root, i) by {
        assert(m2.spec_entry(root, i) == m1.spec_entry(root, i));
    }
    assert forall|p: u64| true implies #[trigger] is_l1_of(m2, root, p) == is_l1_of(
        m1,
        root,
        p,
    ) by {
        if is_l1_of(m1, root, p) {
            let i = choose|i: int| #[trigger] l2_slot(m1, root, i) && l1_ppn(m1, root, i) == p;
            assert(l2_slot(m2, root, i) && l1_ppn(m2, root, i) == p);
        }
        if is_l1_of(m2, root, p) {
            let i = choose|i: int| #[trigger] l2_slot(m2, root, i) && l1_ppn(m2, root, i) == p;
            assert(l2_slot(m1, root, i) && l1_ppn(m1, root, i) == p);
        }
    }
    // level-1 frames other than p1 are untouched
    assert forall|i: int| #[trigger] l2_slot(m1, root, i) && l1_ppn(m1, root, i) != p1 implies
        m2.spec_frame(l1_ppn(m1, root, i)) == m1.spec_frame(l1_ppn(m1, root, i)) by {
        assert(is_l1_of(m1, root, l1_ppn(m1, root, i)));
    }
    // only slot i2 names p1
    assert forall|i: int| #[trigger] l2_slot(m1, root, i) && i != i2 implies l1_ppn(m1, root, i)
        != p1 by {}
    // entries of p1 off i1 are unchanged
    assert forall|j: int| 0 <= j < 512 && j != i1 implies #[trigger] m2.spec_entry(p1, j)
        == m1.spec_entry(p1, j) by {
        assert(m2.spec_frame(p1)[j] == m1.spec_frame(p1)[j]);
    }
    assert(m2.spec_entry(p1, i1) == PTE(spec_pte_word(pf, FLAG_V)));
    assert(l1_chain(m2, root, i2, i1));
    assert(l0_ppn(m2, root, i2, i1) == pf);
    // chains elsewhere carry over
    assert forall|i: int, j: int| !(i == i2 && j == i1) implies #[trigger] l1_chain(m2, root, i, j)
        == l1_chain(m1, root, i, j) && (l1_chain(m1, root, i, j) ==> l0_ppn(m2, root, i, j)
        == l0_ppn(m1, root, i, j)) by {
        if l2_slot(m1, root, i) {
            if i == i2 {
                if 0 <= j < 512 {
                    assert(m2.spec_entry(p1, j) == m1.spec_entry(p1, j));
                }
            } else {
                assert(l1_ppn(m1, root, i) != p1);
                assert(m2.spec_frame(l1_ppn(m1, root, i)) == m1.spec_frame(l1_ppn(m1, root, i)));
            }
        }
    }
    // well-formedness clause by clause
    assert forall|i: int|
        0 <= i < 256 && (#[trigger] m2.spec_entry(root, i)).spec_is_valid() implies !m2.spec_entry(
        root,
        i,
    ).spec_is_huge() by {
        assert(m2.spec_entry(root, i) == m1.spec_entry(root, i));
    }
    assert forall|i: int, j: int|
        l2_slot(m2, root, i) && 0 <= j < 512 && (#[trigger] m2.spec_entry(
            l1_ppn(m2, root, i),
            j,
        )).spec_is_valid() implies !m2.spec_entry(l1_ppn(m2, root, i), j).spec_is_huge() by {
        if l1_ppn(m1, root, i) == p1 {
            if j != i1 {
                assert(m2.spec_entry(p1, j) == m1.spec_entry(p1, j));
            }
        } else {
            assert(m2.spec_frame(l1_ppn(m1, root, i)) == m1.spec_frame(l1_ppn(m1, root, i)));
            assert(m2.spec_entry(l1_ppn(m1, root, i), j) == m1.spec_entry(l1_ppn(m1, root, i), j));
        }
    }
    assert forall|p: u64| true implies #[trigger] is_l0_of(m2, root, p) == (is_l0_of(m1, root, p)
        || p == pf) by {
        if is_l0_of(m1, root, p) {
            let (i, j) = choose|i: int, j: int|
                #[trigger] l1_chain(m1, root, i, j) && l0_ppn(m1, root, i, j) == p;
            assert(!(i == i2 && j == i1));
            assert(l1_chain(m2, root, i, j) && l0_ppn(m2, root, i, j) == p);
        }
        if p == pf {
            assert(l1_chain(m2, root, i2, i1) && l0_ppn(m2, root, i2, i1) == p);
        }
        if is_l0_of(m2, root, p) {
            let (i, j) = choose|i: int, j: int|
                #[trigger] l1_chain(m2, root, i, j) && l0_ppn(m2, root, i, j) == p;
            if !(i == i2 && j == i1) {
                assert(l1_chain(m1, root, i, j) && l0_ppn(m1, root, i, j) == p);
            }
        }
    }
    assert forall|i: int, j: int| #[trigger] l1_chain(m2, root, i, j) implies m2.contains_ppn(
        l0_ppn(m2, root, i, j),
    ) && l0_ppn(m2, root, i, j) != root && !is_l1_of(m2, root, l0_ppn(m2, root, i, j)) by {
        if i == i2 && j == i1 {
            assert(l0_ppn(m2, root, i, j) == pf);
        } else {
            assert(l1_chain(m1, root, i, j));
            assert(l0_ppn(m2, root, i, j) == l0_ppn(m1, root, i, j));
        }
    }
    assert forall|i: int, j: int, k: int, l: int|
        #[trigger] l1_chain(m2, root, i, j) && #[trigger] l1_chain(m2, root, k, l) && !(i == k && j
            == l) implies l0_ppn(m2, root, i, j) != l0_ppn(m2, root, k, l) by {
        if i == i2 && j == i1 {
            assert(l1_chain(m1, root, k, l));
            assert(l0_ppn(m2, root, k, l) == l0_ppn(m1, root, k, l));
            assert(is_l0_of(m1, root, l0_ppn(m1, root, k, l))) by {
                assert(l1_chain(m1, root, k, l) && l0_ppn(m1, root, k, l) == l0_ppn(
                    m1,
                    root,
                    k,
                    l,
                ));
            }
        } else if k == i2 && l == i1 {
            assert(l1_chain(m1, root, i, j));
            assert(l0_ppn(m2, root, i, j) == l0_ppn(m1, root, i, j));
            assert(is_l0_of(m1, root, l0_ppn(m1, root, i, j))) by {
                assert(l1_chain(m1, root, i, j) && l0_ppn(m1, root, i, j) == l0_ppn(
                    m1,
                    root,
                    i,
                    j,
                ));
            }
        } else {
            assert(l1_chain(m1, root, i, j) && l1_chain(m1, root, k, l));
            assert(l0_ppn(m2, root, i, j) == l0_ppn(m1, root, i, j));
            assert(l0_ppn(m2, root, k, l) == l0_ppn(m1, root, k, l));
        }
    }
    assert forall|i: int| #[trigger] l2_slot(m2, root, i) implies m2.contains_ppn(
        l1_ppn(m2, root, i),
    ) && l1_ppn(m2, root, i) != root by {
        assert(l2_slot(m1, root, i));
    }
    assert(pt_wf(m2, root));
}

/// Some page is still available when the stack and the bump range together
/// hold at least one.
pub(crate) proof fn lemma_avail_witness(a: StackFrameAllocator)
    requires
        a.wf(),
        a.recycled@.len() + a.end - a.current >= 1,
    ensures
        !a.spec_avail().is_empty(),
{
    if a.recycled@.len() > 0 {
        assert(a.spec_avail().contains(a.recycled@.last()));
    } else {
        assert(a.spec_avail().contains(a.current));
    }
}

/// The three Sv39 indexes of a user-half page number: the root index stays
/// below 0x100 and the rest below 512.
pub(crate) proof fn lemma_user_vpn_index_bounds(v: u64)
    ensures
        v < 0x400_0000 ==> idx2(v) < 0x100,
        idx2(v) < 512,
        idx1(v) < 512,
        idx0(v) < 512,
{
    assert(v < 0x400_0000 ==> (v >> 18) & 0x1ff < 0x100) by (bit_vector);
    assert((v >> 18) & 0x1ff < 512) by (bit_vector);
    assert((v >> 9) & 0x1ff < 512) by (bit_vector);
    assert(v & 0x1ff < 512) by (bit_vector);
}

/// The hardware walker's per-level indexes of a byte address are the
/// Sv39 indexes of its page number.
proof fn lemma_va_indexes_of_page(va: u64, v: u64)
    requires
        va >> 12 == v,
    ensures
        (va >> 30) & 0x1ff == (v >> 18) & 0x1ff,
        (va >> 21) & 0x1ff == (v >> 9) & 0x1ff,
        (va >> 12) & 0x1ff == v & 0x1ff,
{
    assert(va >> 12 == v ==> ((va >> 30) & 0x1ff == (v >> 18) & 0x1ff && (va >> 21) & 0x1ff == (v
        >> 9) & 0x1ff && (va >> 12) & 0x1ff == v & 0x1ff)) by (bit_vector);
}

/// Two user-half page numbers with the same three indexes are the same
/// page number.
proof fn lemma_vpn_tuple_injective(v: u64, w: u64)
    requires
        v < 0x400_0000,
        w < 0x400_0000,
        idx2(v) == idx2(w),
        idx1(v) == idx1(w),
        idx0(v) == idx0(w),
    ensures
        v == w,
{
    assert(v < 0x400_0000 && w < 0x400_0000 && (v >> 18) & 0x1ff == (w >> 18) & 0x1ff && (v >> 9)
        & 0x1ff == (w >> 9) & 0x1ff && v & 0x1ff == w & 0x1ff ==> v == w) by (bit_vector);
}

/// A fresh interior entry: installing `V` alone over a page number under
/// the window gives a valid, non-huge pointer holding that page number.
proof fn lemma_interior_entry(p: u64)
    ensures
        0 < p < 0x400_0000 ==> table_ptr(PTE(spec_pte_word(p, FLAG_V))) && PTE(
            spec_pte_word(p, FLAG_V),
        ).spec_ppn() == p,
{
    let w = spec_pte_word(p, FLAG_V);
    assert(0 < p < 0x400_0000u64 && w == spec_pte_word(p, 0x01u64) ==> (w & 0xff) & 0x01 == 0x01
        && w > 0xff && !((w & 0xff) & 0x02 == 0x02 || (w & 0xff) & 0x04 == 0x04 || (w & 0xff)
        & 0x08 == 0x08) && (w >> 10) & 0x0fff_ffff_ffff == p) by (bit_vector);
}

/// A page number under the direct-map window survives the shift to its
/// frame base address and back.
proof fn lemma_ppn_addr_round_trip(p: u64)
    ensures
        p <= 0x0fff_ffff_ffff ==> ((p << 12) >> 12) == p,
{
    assert(p <= 0x0fff_ffff_ffffu64 ==> ((p << 12) >> 12) == p) by (bit_vector);
}

/// The walker's per-level indexes are below 512.
proof fn lemma_va_index_bounds(va: u64)
    ensures
        (va >> 30) & 0x1ff < 512,
        (va >> 21) & 0x1ff < 512,
        (va >> 12) & 0x1ff < 512,
{
    assert((va >> 30) & 0x1ff < 512) by (bit_vector);
    assert((va >> 21) & 0x1ff < 512) by (bit_vector);
    assert((va >> 12) & 0x1ff < 512) by (bit_vector);
}

/// A byte's page number is its address divided by the page size, and the
/// masked offset is the remainder.
proof fn lemma_page_offset_is_mod(va: u64)
    ensures
        va >> 12 == va / 4096,
        va & 4095 == va % 4096,
{
    assert(va >> 12 == va / 4096) by (bit_vector);
    assert(va & 4095 == va % 4096) by (bit_vector);
}

} // verus!
