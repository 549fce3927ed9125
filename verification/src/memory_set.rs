//! Virtual address spaces: contiguous mapped ranges with uniform
//! permissions, backed by freshly allocated frames, on top of one page
//! table.
//!
//! A `MapArea` is a half-open range of virtual pages with one permission
//! set, owning a tracker for every backing frame. A `MemorySet` holds one
//! page table and the areas mapped into it.

use vstd::prelude::*;

use crate::addr::{SimpleRange, VirtAddr, VirtPage};
use crate::frame_allocator::{FrameTracker, StackFrameAllocator};
use crate::page_table::{
    alloc_disjoint, idx2, is_table_of, pt_wf, spec_find_pte, spec_translate, tables_live,
    PageTable,
};
use crate::phys_mem::PhysMemory;
use crate::pte::{spec_flags_of_mapping, spec_pte_word, MappingFlags, PTE};

verus! {

/// Map every page of `[l, r)` to a freshly allocated, zeroed frame with
/// the given permissions, and hand back one tracker per page, in range
/// order. Every page outside the range keeps its translation.
pub fn map_range(
    pt: &PageTable,
    mem: &mut PhysMemory,
    allocator: &mut StackFrameAllocator,
    l: VirtPage,
    r: VirtPage,
    flags: MappingFlags,
) -> (trackers: Vec<FrameTracker>)
    requires
        l.0 <= r.0,
        r.0 < 0x400_0000,
        flags.0 != 0,
        0 < old(mem).base,
        pt_wf(*old(mem), pt.spec_root_ppn()),
        old(allocator).wf(),
        alloc_disjoint(*old(mem), pt.spec_root_ppn(), *old(allocator)),
        old(allocator).recycled@.len() + old(allocator).end - old(allocator).current >= 3 * (r.0
            - l.0),
    ensures
        pt_wf(*final(mem), pt.spec_root_ppn()),
        final(mem).base == old(mem).base,
        final(mem).frames@.len() == old(mem).frames@.len(),
        final(allocator).wf(),
        final(allocator).base@ == old(allocator).base@,
        final(allocator).end == old(allocator).end,
        alloc_disjoint(*final(mem), pt.spec_root_ppn(), *final(allocator)),
        tables_live(*old(mem), pt.spec_root_ppn(), *old(allocator)) ==> tables_live(
            *final(mem),
            pt.spec_root_ppn(),
            *final(allocator),
        ),
        trackers@.len() == r.0 - l.0,
        forall|k: int|
            0 <= k < trackers@.len() ==> #[trigger] spec_translate(
                *final(mem),
                pt.spec_root_ppn(),
                (l.0 + k) as u64,
            ) == Option::Some(
                PTE(spec_pte_word(trackers@[k].ppn.0, spec_flags_of_mapping(flags.0))),
            ),
        forall|k: int|
            0 <= k < trackers@.len() ==> final(allocator).spec_live().contains(
                (#[trigger] trackers@[k]).ppn.0,
            ),
        forall|k1: int, k2: int|
            0 <= k1 < k2 < trackers@.len() ==> (#[trigger] trackers@[k1]).ppn != (
            #[trigger] trackers@[k2]).ppn,
        forall|k: int|
            0 <= k < trackers@.len() ==> !old(allocator).spec_live().contains(
                (#[trigger] trackers@[k]).ppn.0,
            ),
        forall|k: int|
            0 <= k < trackers@.len() ==> final(mem).contains_ppn(
                (#[trigger] trackers@[k]).ppn.0,
            ) && !is_table_of(*final(mem), pt.spec_root_ppn(), trackers@[k].ppn.0),
        forall|p: u64|
            #[trigger] is_table_of(*final(mem), pt.spec_root_ppn(), p) && !is_table_of(
                *old(mem),
                pt.spec_root_ppn(),
                p,
            ) ==> old(allocator).spec_avail().contains(p),
        forall|p: u64|
            #[trigger] final(allocator).spec_avail().contains(p) ==> old(
                allocator,
            ).spec_avail().contains(p),
        forall|p: u64|
            #[trigger] old(allocator).spec_live().contains(p) ==> final(allocator).spec_live().contains(p),
        forall|w: u64|
            w < 0x400_0000 && !(l.0 <= w < r.0) ==> #[trigger] spec_translate(
                *final(mem),
                pt.spec_root_ppn(),
                w,
            ) == spec_translate(*old(mem), pt.spec_root_ppn(), w),
        forall|i: int|
            256 <= i < 512 ==> #[trigger] final(mem).spec_entry(pt.spec_root_ppn(), i) == old(
                mem,
            ).spec_entry(pt.spec_root_ppn(), i),
    {
    let root = pt.root_ppn();
    let ghost m0 = *mem;
    let ghost a0 = *allocator;
    let mut trackers: Vec<FrameTracker> = Vec::new();
    let mut k: u64 = 0;
    let count = r.0 - l.0;
    while k < count
        invariant
            k <= count,
            count == r.0 - l.0,
            l.0 + count < 0x400_0000,
            flags.0 != 0,
            0 < mem.base,
            root == pt.spec_root_ppn(),
            pt_wf(*mem, root),
            mem.base == m0.base,
            mem.frames@.len() == m0.frames@.len(),
            allocator.wf(),
            allocator.base@ == a0.base@,
            allocator.end == a0.end,
            alloc_disjoint(*mem, root, *allocator),
            allocator.recycled@.len() + allocator.end - allocator.current >= 3 * (count - k),
            tables_live(m0, root, a0) ==> tables_live(*mem, root, *allocator),
            forall|p: u64|
                #[trigger] a0.spec_live().contains(p) ==> allocator.spec_live().contains(p),
            trackers@.len() == k,
            forall|kk: int|
                0 <= kk < k ==> #[trigger] spec_translate(*mem, root, (l.0 + kk) as u64)
                    == Option::Some(
                    PTE(spec_pte_word(trackers@[kk].ppn.0, spec_flags_of_mapping(flags.0))),
                ),
            forall|kk: int|
                0 <= kk < k ==> allocator.spec_live().contains((#[trigger] trackers@[kk]).ppn.0),
            forall|kk: int|
                0 <= kk < k ==> !a0.spec_live().contains((#[trigger] trackers@[kk]).ppn.0),
            forall|kk: int|
                0 <= kk < k ==> mem.contains_ppn((#[trigger] trackers@[kk]).ppn.0)
                    && !is_table_of(*mem, root, trackers@[kk].ppn.0),
            forall|p: u64|
                #[trigger] is_table_of(*mem, root, p) && !is_table_of(m0, root, p)
                    ==> a0.spec_avail().contains(p),
            forall|p: u64|
                #[trigger] allocator.spec_avail().contains(p) ==> a0.spec_avail().contains(p),
            forall|k1: int, k2: int|
                0 <= k1 < k2 < k ==> (#[trigger] trackers@[k1]).ppn != (
                #[trigger] trackers@[k2]).ppn,
            forall|w: u64|
                w < 0x400_0000 && !(l.0 <= w < l.0 + k) ==> #[trigger] spec_translate(
                    *mem,
                    root,
                    w,
                ) == spec_translate(m0, root, w),
            forall|i: int|
                256 <= i < 512 ==> #[trigger] mem.spec_entry(root, i) == m0.spec_entry(root, i),
        decreases count - k,
    {
        let vpn = VirtPage::new(l.0 + k);
        let ghost m_it = *mem;
        let ghost a_it = *allocator;
        proof {
            crate::page_table::lemma_avail_witness(*allocator);
        }
        let data = match allocator.alloc_frame() {
            Some(p) => p,
            None => crate::addr::PhysPage(0),
        };
        proof {
            assert(a_it.spec_avail().contains(data.0));
            assert(mem.contains_ppn(data.0));
            assert(!is_table_of(*mem, root, data.0));
        }
        let tracker = FrameTracker::new(data, mem);
        let ghost m_z = *mem;
        proof {
            crate::page_table::lemma_nontable_write(m_it, *mem, root, data.0);
            crate::page_table::lemma_fresh_write_preserves_walk(m_it, *mem, root, data.0);
            assert(alloc_disjoint(*mem, root, *allocator)) by {
                assert forall|p: u64| #[trigger] allocator.spec_avail().contains(p) implies
                    mem.contains_ppn(p) && !is_table_of(*mem, root, p) by {
                    assert(a_it.spec_avail().contains(p));
                }
            }
        }
        let ghost a_al = *allocator;
        pt.map(mem, allocator, data, vpn, flags, 3);
        proof {
            crate::page_table::lemma_map_then_translate(*mem, root, vpn.0, data.0, flags.0);
            assert forall|w: u64| w < 0x400_0000 && w != vpn.0 implies #[trigger] spec_translate(
                *mem,
                root,
                w,
            ) == spec_translate(m_it, root, w) by {
                assert(spec_translate(m_z, root, w) == spec_translate(m_it, root, w));
            }
            assert forall|p: u64|
                #[trigger] a_it.spec_live().contains(p) implies allocator.spec_live().contains(
                p,
            ) by {
                assert(a_al.spec_live().contains(p));
            }
            assert(idx2(vpn.0) < 256) by {
                crate::page_table::lemma_user_vpn_index_bounds(vpn.0);
            }
            assert forall|i: int| 256 <= i < 512 implies #[trigger] mem.spec_entry(root, i)
                == m0.spec_entry(root, i) by {
                assert(m_z.spec_entry(root, i) == m_it.spec_entry(root, i)) by {
                    assert(m_z.spec_frame(root) == m_it.spec_frame(root));
                }
            }
            assert forall|kk: int|
                0 <= kk < k implies mem.contains_ppn((#[trigger] trackers@[kk]).ppn.0)
                    && !is_table_of(*mem, root, trackers@[kk].ppn.0) by {
                let q = trackers@[kk].ppn.0;
                assert(!is_table_of(m_z, root, q));
                if is_table_of(*mem, root, q) {
                    // a new table frame came out of the available pages,
                    // but this frame was already live before the call
                    assert(a_al.spec_avail().contains(q));
                    assert(a_al.spec_live().contains(q));
                    crate::frame_allocator::lemma_allocator_partition(a_al);
                }
            }
            assert(!is_table_of(*mem, root, data.0)) by {
                if is_table_of(*mem, root, data.0) {
                    assert(a_al.spec_avail().contains(data.0));
                }
            }
            assert forall|p: u64|
                #[trigger] is_table_of(*mem, root, p) && !is_table_of(m0, root, p) implies
                a0.spec_avail().contains(p) by {
                if !is_table_of(m_it, root, p) {
                    assert(a_al.spec_avail().contains(p));
                    assert(a_it.spec_avail().contains(p));
                }
            }
        }
        trackers.push(tracker);
        k = k + 1;
        proof {
            assert forall|kk: int| 0 <= kk < k implies #[trigger] spec_translate(
                *mem,
                root,
                (l.0 + kk) as u64,
            ) == Option::Some(
                PTE(spec_pte_word(trackers@[kk].ppn.0, spec_flags_of_mapping(flags.0))),
            ) by {
                if kk < k - 1 {
                    assert(trackers@[kk] == trackers@.subrange(0, k - 1)[kk]);
                    assert((l.0 + kk) as u64 != vpn.0);
                }
            }
        }
    }
    trackers
}

/// Clear the mapping of every page in `[l, r)`; pages outside the range
/// keep their translations, and the table's frames stay as they are.
pub fn unmap_range(pt: &PageTable, mem: &mut PhysMemory, l: VirtPage, r: VirtPage)
    requires
        l.0 <= r.0,
        r.0 < 0x400_0000,
        pt_wf(*old(mem), pt.spec_root_ppn()),
    ensures
        pt_wf(*final(mem), pt.spec_root_ppn()),
        final(mem).base == old(mem).base,
        final(mem).frames@.len() == old(mem).frames@.len(),
        forall|w: u64|
            l.0 <= w < r.0 ==> #[trigger] spec_translate(
                *final(mem),
                pt.spec_root_ppn(),
                w,
            ) is None,
        forall|w: u64|
            w < 0x400_0000 && !(l.0 <= w < r.0) ==> #[trigger] spec_translate(
                *final(mem),
                pt.spec_root_ppn(),
                w,
            ) == spec_translate(*old(mem), pt.spec_root_ppn(), w),
        forall|p: u64|
            #[trigger] is_table_of(*final(mem), pt.spec_root_ppn(), p) == is_table_of(
                *old(mem),
                pt.spec_root_ppn(),
                p,
            ),
        forall|i: int|
            256 <= i < 512 ==> #[trigger] final(mem).spec_entry(pt.spec_root_ppn(), i) == old(
                mem,
            ).spec_entry(pt.spec_root_ppn(), i),
{
    let root = pt.root_ppn();
    let ghost m0 = *mem;
    let mut k: u64 = 0;
    let count = r.0 - l.0;
    while k < count
        invariant
            k <= count,
            count == r.0 - l.0,
            l.0 + count < 0x400_0000,
            root == pt.spec_root_ppn(),
            pt_wf(*mem, root),
            mem.base == m0.base,
            mem.frames@.len() == m0.frames@.len(),
            forall|w: u64|
                l.0 <= w < l.0 + k ==> #[trigger] spec_translate(*mem, root, w) is None,
            forall|w: u64|
                w < 0x400_0000 && !(l.0 <= w < l.0 + k) ==> #[trigger] spec_translate(
                    *mem,
                    root,
                    w,
                ) == spec_translate(m0, root, w),
            forall|p: u64|
                #[trigger] is_table_of(*mem, root, p) == is_table_of(m0, root, p),
            forall|i: int|
                256 <= i < 512 ==> #[trigger] mem.spec_entry(root, i) == m0.spec_entry(root, i),
        decreases count - k,
    {
        let vpn = VirtPage::new(l.0 + k);
        let ghost m_it = *mem;
        pt.unmap(mem, vpn);
        proof {
            assert forall|w: u64| w < 0x400_0000 && w != vpn.0 implies #[trigger] spec_translate(
                *mem,
                root,
                w,
            ) == spec_translate(m_it, root, w) by {
                assert(spec_find_pte(*mem, root, w) == spec_find_pte(m_it, root, w));
            }
        }
        k = k + 1;
    }
}

/// A contiguous range of virtual pages with one permission set, each page
/// backed by a freshly allocated frame owned by the area.
pub struct MapArea {
    /// The half-open page range of the area.
    pub vpn_range: SimpleRange<VirtPage>,
    /// The permissions every page of the area is mapped with.
    pub flags: MappingFlags,
    /// One tracker per page, in range order.
    pub frames: Vec<FrameTracker>,
}

/// A virtual address space: one page table and the areas mapped into it.
pub struct MemorySet {
    /// The table the areas are mapped into.
    pub page_table: PageTable,
    /// The mapped areas, in insertion order.
    pub areas: Vec<MapArea>,
}

impl MemorySet {
    /// The invariants tying the space to the frame model and the
    /// allocator: the table is well formed, fresh frames never alias it,
    /// its frames are live, and every area's backing frames are live and
    /// pairwise distinct.
    pub open spec fn wf(self, mem: PhysMemory, a: StackFrameAllocator) -> bool {
        &&& pt_wf(mem, self.page_table.spec_root_ppn())
        &&& 0 < mem.base
        &&& a.wf()
        &&& alloc_disjoint(mem, self.page_table.spec_root_ppn(), a)
        &&& tables_live(mem, self.page_table.spec_root_ppn(), a)
        &&& forall|i: int, k: int|
            0 <= i < self.areas@.len() && 0 <= k < self.areas@[i].frames@.len()
                ==> a.spec_live().contains((#[trigger] self.areas@[i].frames@[k]).ppn.0)
        &&& forall|i: int, k: int, j: int, n: int|
            0 <= i < self.areas@.len() && 0 <= k < self.areas@[i].frames@.len() && 0 <= j
                < self.areas@.len() && 0 <= n < self.areas@[j].frames@.len() && !(i == j && k
                == n) ==> (#[trigger] self.areas@[i].frames@[k]).ppn != (
            #[trigger] self.areas@[j].frames@[n]).ppn
        &&& forall|i: int, k: int|
            0 <= i < self.areas@.len() && 0 <= k < self.areas@[i].frames@.len() ==> mem.contains_ppn(
                (#[trigger] self.areas@[i].frames@[k]).ppn.0,
            ) && !is_table_of(
                mem,
                self.page_table.spec_root_ppn(),
                self.areas@[i].frames@[k].ppn.0,
            )
        &&& forall|i: int|
            0 <= i < self.areas@.len() ==> (#[trigger] self.areas@[i]).vpn_range.l.0
                <= self.areas@[i].vpn_range.r.0 < 0x400_0000
        &&& forall|i: int, j: int|
            0 <= i < self.areas@.len() && 0 <= j < self.areas@.len() && i != j ==> ((
            #[trigger] self.areas@[i]).vpn_range.r.0 <= (#[trigger] self.areas@[j]).vpn_range.l.0
                || self.areas@[j].vpn_range.r.0 <= self.areas@[i].vpn_range.l.0)
    }

    /// Build the kernel's address space skeleton: a fresh table whose high
    /// half direct-maps the kernel regions, with no areas yet.
    pub fn new_kernel(mem: &mut PhysMemory, allocator: &mut StackFrameAllocator, trx_addr: u64) -> (
        ms: MemorySet)
        requires
            old(mem).wf(),
            0 < old(mem).base,
            old(allocator).wf(),
            forall|p: u64|
                #[trigger] old(allocator).spec_avail().contains(p) ==> old(mem).contains_ppn(p),
            old(allocator).recycled@.len() + old(allocator).end - old(allocator).current >= 1,
        ensures
            ms.wf(*final(mem), *final(allocator)),
            ms.areas@.len() == 0,
            final(mem).base == old(mem).base,
            final(mem).frames@.len() == old(mem).frames@.len(),
            final(allocator).base@ == old(allocator).base@,
            final(allocator).end == old(allocator).end,
            final(allocator).recycled@.len() + final(allocator).end - final(allocator).current
                == old(allocator).recycled@.len() + old(allocator).end - old(allocator).current
                - 1,
            forall|w: u64|
                w < 0x400_0000 ==> #[trigger] spec_translate(
                    *final(mem),
                    ms.page_table.spec_root_ppn(),
                    w,
                ) is None,
    {
        let pt = PageTable::alloc_table(mem, allocator, trx_addr);
        MemorySet { page_table: pt, areas: Vec::new() }
    }

    /// The SATP token that installs this space.
    pub fn token(&self) -> (r: u64)
        ensures
            r == 0x8000_0000_0000_0000u64 | self.page_table.spec_root_ppn(),
    {
        self.page_table.get_satp()
    }

    /// Map the byte range `[start_va, end_va)` as a new framed area with
    /// the given permissions: every page touching the range gets a fresh
    /// zeroed frame, and the area joins the space. Pages outside the range
    /// keep their translations.
    pub fn insert_framed_area(
        &mut self,
        mem: &mut PhysMemory,
        allocator: &mut StackFrameAllocator,
        start_va: VirtAddr,
        end_va: VirtAddr,
        perms: MappingFlags,
    )
        requires
            old(self).wf(*old(mem), *old(allocator)),
            start_va.0 <= end_va.0,
            crate::addr::spec_page_ceil(end_va.0 as int) < 0x400_0000,
            perms.0 != 0,
            old(allocator).recycled@.len() + old(allocator).end - old(allocator).current >= 3 * (
            crate::addr::spec_page_ceil(end_va.0 as int) - crate::addr::spec_page_floor(
                start_va.0 as int,
            )),
            forall|i: int|
                0 <= i < old(self).areas@.len() ==> (crate::addr::spec_page_ceil(end_va.0 as int)
                    <= (#[trigger] old(self).areas@[i]).vpn_range.l.0 || old(
                    self,
                ).areas@[i].vpn_range.r.0 <= crate::addr::spec_page_floor(start_va.0 as int)),
        ensures
            final(self).wf(*final(mem), *final(allocator)),
            final(self).page_table == old(self).page_table,
            final(self).areas@.len() == old(self).areas@.len() + 1,
            forall|i: int|
                0 <= i < old(self).areas@.len() ==> #[trigger] final(self).areas@[i] == old(
                    self,
                ).areas@[i],
            final(self).areas@.last().vpn_range.l.0 == crate::addr::spec_page_floor(
                start_va.0 as int,
            ),
            final(self).areas@.last().vpn_range.r.0 == crate::addr::spec_page_ceil(
                end_va.0 as int,
            ),
            final(self).areas@.last().flags == perms,
            final(mem).base == old(mem).base,
            final(mem).frames@.len() == old(mem).frames@.len(),
            forall|w: u64|
                crate::addr::spec_page_floor(start_va.0 as int) <= w
                    < crate::addr::spec_page_ceil(end_va.0 as int) ==> #[trigger] spec_translate(
                    *final(mem),
                    old(self).page_table.spec_root_ppn(),
                    w,
                ) == Option::Some(
                    PTE(
                        spec_pte_word(
                            final(self).areas@.last().frames@[w - crate::addr::spec_page_floor(
                                start_va.0 as int,
                            )].ppn.0,
                            spec_flags_of_mapping(perms.0),
                        ),
                    ),
                ),
            forall|w: u64|
                w < 0x400_0000 && !(crate::addr::spec_page_floor(start_va.0 as int) <= w
                    < crate::addr::spec_page_ceil(end_va.0 as int)) ==> #[trigger] spec_translate(
                    *final(mem),
                    old(self).page_table.spec_root_ppn(),
                    w,
                ) == spec_translate(*old(mem), old(self).page_table.spec_root_ppn(), w),
            forall|i: int|
                256 <= i < 512 ==> #[trigger] final(mem).spec_entry(
                    old(self).page_table.spec_root_ppn(),
                    i,
                ) == old(mem).spec_entry(old(self).page_table.spec_root_ppn(), i),
    {
        let l = start_va.floor();
        let r = end_va.ceil();
        proof {
            lemma_floor_le_ceil(start_va.0, end_va.0);
        }
        let ghost a0 = *allocator;
        let trackers = map_range(&self.page_table, mem, allocator, l, r, perms);
        let ghost tr = trackers@;
        let area = MapArea { vpn_range: SimpleRange::new(l, r), flags: perms, frames: trackers };
        self.areas.push(area);
        proof {
            let this = *self;
            let root = this.page_table.spec_root_ppn();
            assert(this.areas@.last().frames@ == tr);
            assert forall|w: u64| l.0 <= w < r.0 implies #[trigger] spec_translate(*mem, root, w)
                == Option::Some(
                PTE(spec_pte_word(tr[w - l.0].ppn.0, spec_flags_of_mapping(perms.0))),
            ) by {
                let kx: int = w - l.0;
                assert((l.0 + kx) as u64 == w);
                assert(spec_translate(*mem, root, (l.0 + kx) as u64) == Option::Some(
                    PTE(spec_pte_word(tr[kx].ppn.0, spec_flags_of_mapping(perms.0))),
                ));
            }
            assert forall|i: int, k: int|
                0 <= i < this.areas@.len() && 0 <= k < this.areas@[i].frames@.len() implies
                allocator.spec_live().contains((#[trigger] this.areas@[i].frames@[k]).ppn.0) by {
                if i < this.areas@.len() - 1 {
                    assert(this.areas@[i] == old(self).areas@[i]);
                    assert(a0.spec_live().contains(this.areas@[i].frames@[k].ppn.0));
                }
            }
            assert forall|i: int, k: int|
                0 <= i < this.areas@.len() && 0 <= k < this.areas@[i].frames@.len() implies
                mem.contains_ppn((#[trigger] this.areas@[i].frames@[k]).ppn.0) && !is_table_of(
                *mem,
                root,
                this.areas@[i].frames@[k].ppn.0,
            ) by {
                if i < this.areas@.len() - 1 {
                    assert(this.areas@[i] == old(self).areas@[i]);
                    let q = this.areas@[i].frames@[k].ppn.0;
                    assert(old(mem).contains_ppn(q) && !is_table_of(*old(mem), root, q));
                    if is_table_of(*mem, root, q) {
                        assert(a0.spec_avail().contains(q));
                        assert(a0.spec_live().contains(q));
                        crate::frame_allocator::lemma_allocator_partition(a0);
                    }
                }
            }
            assert forall|i: int|
                0 <= i < this.areas@.len() implies (#[trigger] this.areas@[i]).vpn_range.l.0
                    <= this.areas@[i].vpn_range.r.0 < 0x400_0000 by {
                if i < this.areas@.len() - 1 {
                    assert(this.areas@[i] == old(self).areas@[i]);
                }
            }
            assert forall|i: int, j: int|
                0 <= i < this.areas@.len() && 0 <= j < this.areas@.len() && i != j implies ((
            #[trigger] this.areas@[i]).vpn_range.r.0 <= (#[trigger] this.areas@[j]).vpn_range.l.0
                || this.areas@[j].vpn_range.r.0 <= this.areas@[i].vpn_range.l.0) by {
                let last = this.areas@.len() - 1;
                if i < last && j < last {
                    assert(this.areas@[i] == old(self).areas@[i]);
                    assert(this.areas@[j] == old(self).areas@[j]);
                } else if i == last {
                    assert(this.areas@[j] == old(self).areas@[j]);
                } else {
                    assert(this.areas@[i] == old(self).areas@[i]);
                }
            }
            assert forall|i: int, k: int, j: int, n: int|
                0 <= i < this.areas@.len() && 0 <= k < this.areas@[i].frames@.len() && 0 <= j
                    < this.areas@.len() && 0 <= n < this.areas@[j].frames@.len() && !(i == j && k
                    == n) implies (#[trigger] this.areas@[i].frames@[k]).ppn != (
                #[trigger] this.areas@[j].frames@[n]).ppn by {
                let last = this.areas@.len() - 1;
                if i < last && j < last {
                    assert(this.areas@[i] == old(self).areas@[i]);
                    assert(this.areas@[j] == old(self).areas@[j]);
                } else if i == last && j < last {
                    assert(this.areas@[j] == old(self).areas@[j]);
                    assert(a0.spec_live().contains(this.areas@[j].frames@[n].ppn.0));
                } else if i < last && j == last {
                    assert(this.areas@[i] == old(self).areas@[i]);
                    assert(a0.spec_live().contains(this.areas@[i].frames@[k].ppn.0));
                }
            }
        }
    }
}

impl MemorySet {
    /// Remove the first area whose range starts at `start_vpn`, if one
    /// exists: unmap its pages and return every backing frame to the
    /// allocator. Pages outside the removed range keep their translations;
    /// with no matching area nothing changes.
    pub fn remove_area_with_start_vpn(
        &mut self,
        mem: &mut PhysMemory,
        allocator: &mut StackFrameAllocator,
        start_vpn: VirtPage,
    ) -> (found: bool)
        requires
            old(self).wf(*old(mem), *old(allocator)),
        ensures
            final(self).wf(*final(mem), *final(allocator)),
            final(self).page_table == old(self).page_table,
            found <==> (exists|i: int|
                0 <= i < old(self).areas@.len() && (#[trigger] old(self).areas@[i]).vpn_range.l
                    == start_vpn),
            !found ==> *final(self) == *old(self) && *final(mem) == *old(mem) && final(allocator).same_state(*old(allocator)),
            found ==> final(self).areas@.len() == old(self).areas@.len() - 1,
            forall|i: int|
                256 <= i < 512 ==> #[trigger] final(mem).spec_entry(
                    old(self).page_table.spec_root_ppn(),
                    i,
                ) == old(mem).spec_entry(old(self).page_table.spec_root_ppn(), i),
            found ==> exists|i: int|
                #![auto]
                0 <= i < old(self).areas@.len() && old(self).areas@[i].vpn_range.l == start_vpn
                    && final(self).areas@ == old(self).areas@.remove(i) && (forall|w: u64|
                    old(self).areas@[i].vpn_range.l.0 <= w < old(self).areas@[i].vpn_range.r.0
                        ==> spec_translate(
                        *final(mem),
                        old(self).page_table.spec_root_ppn(),
                        w,
                    ) is None) && (forall|w: u64|
                    w < 0x400_0000 && !(old(self).areas@[i].vpn_range.l.0 <= w < old(
                        self,
                    ).areas@[i].vpn_range.r.0) ==> spec_translate(
                        *final(mem),
                        old(self).page_table.spec_root_ppn(),
                        w,
                    ) == spec_translate(*old(mem), old(self).page_table.spec_root_ppn(), w)),
    {
        let n = self.areas.len();
        let mut idx: usize = 0;
        while idx < n && self.areas[idx].vpn_range.l.0 != start_vpn.0
            invariant
                idx <= n,
                n == self.areas@.len(),
                forall|j: int| 0 <= j < idx ==> (#[trigger] self.areas@[j]).vpn_range.l
                    != start_vpn,
            decreases n - idx,
        {
            idx = idx + 1;
        }
        if idx == n {
            return false;
        }
        let root = self.page_table.root_ppn();
        let ghost m0 = *mem;
        let ghost a0 = *allocator;
        let ghost sel = *self;
        let rg = self.areas[idx].vpn_range;
        unmap_range(&self.page_table, mem, rg.get_start(), rg.get_end());
        let area = self.areas.remove(idx);
        let mut frames = area.frames;
        let ghost frames0 = frames@;
        proof {
            assert(sel.areas@[idx as int].frames@ == frames0);
            assert forall|k: int| 0 <= k < frames0.len() implies a0.spec_live().contains(
                (#[trigger] frames0[k]).ppn.0,
            ) && m0.contains_ppn(frames0[k].ppn.0) && !is_table_of(m0, root, frames0[k].ppn.0) by {
                assert(sel.areas@[idx as int].frames@[k] == frames0[k]);
            }
            assert forall|k1: int, k2: int| 0 <= k1 < k2 < frames0.len() implies (
            #[trigger] frames0[k1]).ppn != (#[trigger] frames0[k2]).ppn by {
                assert(sel.areas@[idx as int].frames@[k1] == frames0[k1]);
                assert(sel.areas@[idx as int].frames@[k2] == frames0[k2]);
            }
        }
        while frames.len() > 0
            invariant
                frames@ == frames0.subrange(0, frames@.len() as int),
                frames@.len() <= frames0.len(),
                allocator.wf(),
                allocator.base@ == a0.base@,
                allocator.end == a0.end,
                allocator.current == a0.current,
                forall|k: int| 0 <= k < frames0.len() ==> a0.spec_live().contains(
                    (#[trigger] frames0[k]).ppn.0,
                ),
                forall|k1: int, k2: int| 0 <= k1 < k2 < frames0.len() ==> (
                #[trigger] frames0[k1]).ppn != (#[trigger] frames0[k2]).ppn,
                forall|p: u64| #[trigger] allocator.spec_live().contains(p) <==> (
                a0.spec_live().contains(p) && !(exists|k: int|
                    #![auto]
                    frames@.len() <= k < frames0.len() && frames0[k].ppn.0 == p)),
                forall|p: u64| #[trigger] allocator.spec_avail().contains(p) <==> (
                a0.spec_avail().contains(p) || (exists|k: int|
                    #![auto]
                    frames@.len() <= k < frames0.len() && frames0[k].ppn.0 == p)),
            decreases frames@.len(),
        {
            let ghost before = frames@;
            let ghost a_b = *allocator;
            let tk = match frames.pop() {
                Some(t) => t,
                None => {
                    proof {
                        assert(false);
                    }
                    FrameTracker { ppn: crate::addr::PhysPage(0) }
                },
            };
            proof {
                let last = before.len() - 1;
                assert(tk == frames0[last]);
                assert(a_b.spec_live().contains(tk.ppn.0)) by {
                    assert(a0.spec_live().contains(tk.ppn.0));
                    assert forall|k: int|
                        before.len() <= k < frames0.len() implies frames0[k].ppn.0 != tk.ppn.0 by {
                        assert(frames0[last].ppn != frames0[k].ppn);
                    }
                }
                assert(tk.ppn.0 <= crate::PPN_MASK);
            }
            tk.release(allocator);
            proof {
                let last = before.len() - 1;
                assert forall|p: u64| #[trigger] allocator.spec_live().contains(p) <==> (
                a0.spec_live().contains(p) && !(exists|k: int|
                    #![auto]
                    frames@.len() <= k < frames0.len() && frames0[k].ppn.0 == p)) by {
                    if exists|k: int|
                        #![auto]
                        before.len() <= k < frames0.len() && frames0[k].ppn.0 == p {
                        let k = choose|k: int|
                            #![auto]
                            before.len() <= k < frames0.len() && frames0[k].ppn.0 == p;
                        assert(frames@.len() <= k < frames0.len() && frames0[k].ppn.0 == p);
                    }
                    if p == tk.ppn.0 {
                        assert(frames@.len() <= last < frames0.len() && frames0[last].ppn.0 == p);
                    }
                    if (exists|k: int|
                        #![auto]
                        frames@.len() <= k < frames0.len() && frames0[k].ppn.0 == p) && p
                        != tk.ppn.0 {
                        let k = choose|k: int|
                            #![auto]
                            frames@.len() <= k < frames0.len() && frames0[k].ppn.0 == p;
                        assert(k != last);
                        assert(before.len() <= k < frames0.len() && frames0[k].ppn.0 == p);
                    }
                }
                assert forall|p: u64| #[trigger] allocator.spec_avail().contains(p) <==> (
                a0.spec_avail().contains(p) || (exists|k: int|
                    #![auto]
                    frames@.len() <= k < frames0.len() && frames0[k].ppn.0 == p)) by {
                    if exists|k: int|
                        #![auto]
                        before.len() <= k < frames0.len() && frames0[k].ppn.0 == p {
                        let k = choose|k: int|
                            #![auto]
                            before.len() <= k < frames0.len() && frames0[k].ppn.0 == p;
                        assert(frames@.len() <= k < frames0.len() && frames0[k].ppn.0 == p);
                    }
                    if p == tk.ppn.0 {
                        assert(frames@.len() <= last < frames0.len() && frames0[last].ppn.0 == p);
                    }
                    if (exists|k: int|
                        #![auto]
                        frames@.len() <= k < frames0.len() && frames0[k].ppn.0 == p) && p
                        != tk.ppn.0 {
                        let k = choose|k: int|
                            #![auto]
                            frames@.len() <= k < frames0.len() && frames0[k].ppn.0 == p;
                        assert(k != last);
                        assert(before.len() <= k < frames0.len() && frames0[k].ppn.0 == p);
                    }
                }
            }
        }
        proof {
            let this = *self;
            let released = |p: u64|
                exists|k: int| #![auto] 0 <= k < frames0.len() && frames0[k].ppn.0 == p;
            assert(frames@ == frames0.subrange(0, 0));
            // the remaining areas keep the old areas' facts, reindexed
            assert forall|j: int| 0 <= j < this.areas@.len() implies #[trigger] this.areas@[j]
                == (if j < idx {
                sel.areas@[j]
            } else {
                sel.areas@[j + 1]
            }) by {
                assert(this.areas@ == sel.areas@.remove(idx as int));
            }
            assert forall|i: int, k: int|
                0 <= i < this.areas@.len() && 0 <= k < this.areas@[i].frames@.len() implies
                allocator.spec_live().contains((#[trigger] this.areas@[i].frames@[k]).ppn.0)
                    && mem.contains_ppn(this.areas@[i].frames@[k].ppn.0) && !is_table_of(
                *mem,
                root,
                this.areas@[i].frames@[k].ppn.0,
            ) by {
                let io: int = if i < idx {
                    i
                } else {
                    i + 1
                };
                assert(this.areas@[i] == sel.areas@[io]);
                let q = sel.areas@[io].frames@[k].ppn.0;
                assert(a0.spec_live().contains(q));
                assert forall|kk: int| 0 <= kk < frames0.len() implies frames0[kk].ppn.0 != q by {
                    assert(sel.areas@[idx as int].frames@[kk] == frames0[kk]);
                    assert(sel.areas@[idx as int].frames@[kk].ppn
                        != sel.areas@[io].frames@[k].ppn);
                }
                assert(!is_table_of(m0, root, q));
            }
            assert forall|i: int, k: int, j: int, nn: int|
                0 <= i < this.areas@.len() && 0 <= k < this.areas@[i].frames@.len() && 0 <= j
                    < this.areas@.len() && 0 <= nn < this.areas@[j].frames@.len() && !(i == j && k
                    == nn) implies (#[trigger] this.areas@[i].frames@[k]).ppn != (
                #[trigger] this.areas@[j].frames@[nn]).ppn by {
                let io: int = if i < idx {
                    i
                } else {
                    i + 1
                };
                let jo: int = if j < idx {
                    j
                } else {
                    j + 1
                };
                assert(this.areas@[i] == sel.areas@[io]);
                assert(this.areas@[j] == sel.areas@[jo]);
            }
            assert forall|i: int| 0 <= i < this.areas@.len() implies (
            #[trigger] this.areas@[i]).vpn_range.l.0 <= this.areas@[i].vpn_range.r.0
                < 0x400_0000 by {
                let io: int = if i < idx {
                    i
                } else {
                    i + 1
                };
                assert(this.areas@[i] == sel.areas@[io]);
            }
            assert forall|i: int, j: int|
                0 <= i < this.areas@.len() && 0 <= j < this.areas@.len() && i != j implies ((
            #[trigger] this.areas@[i]).vpn_range.r.0 <= (#[trigger] this.areas@[j]).vpn_range.l.0
                || this.areas@[j].vpn_range.r.0 <= this.areas@[i].vpn_range.l.0) by {
                let io: int = if i < idx {
                    i
                } else {
                    i + 1
                };
                let jo: int = if j < idx {
                    j
                } else {
                    j + 1
                };
                assert(this.areas@[i] == sel.areas@[io]);
                assert(this.areas@[j] == sel.areas@[jo]);
            }
            assert(alloc_disjoint(*mem, root, *allocator)) by {
                assert forall|p: u64| #[trigger] allocator.spec_avail().contains(p) implies
                    mem.contains_ppn(p) && !is_table_of(*mem, root, p) by {
                    if !a0.spec_avail().contains(p) {
                        // freshly released: one of the removed area's frames
                        assert(released(p));
                        let k = choose|k: int|
                            #![auto]
                            0 <= k < frames0.len() && frames0[k].ppn.0 == p;
                        assert(m0.contains_ppn(p) && !is_table_of(m0, root, p));
                    }
                }
            }
            assert(tables_live(*mem, root, *allocator)) by {
                assert forall|p: u64| #[trigger] is_table_of(*mem, root, p) implies
                    allocator.spec_live().contains(p) by {
                    assert(is_table_of(m0, root, p));
                    assert(a0.spec_live().contains(p));
                    assert forall|k: int| 0 <= k < frames0.len() implies frames0[k].ppn.0
                        != p by {
                        assert(!is_table_of(m0, root, frames0[k].ppn.0));
                    }
                }
            }
            assert(0 <= idx < sel.areas@.len() && sel.areas@[idx as int].vpn_range.l == start_vpn
                && self.areas@ == sel.areas@.remove(idx as int));
        }
        true
    }
}

/// The first page of a byte range never lies above the page past its last
/// byte.
proof fn lemma_floor_le_ceil(s: u64, e: u64)
    requires
        s <= e,
    ensures
        crate::addr::spec_page_floor(s as int) <= crate::addr::spec_page_ceil(e as int),
        0 <= crate::addr::spec_page_floor(s as int),
{
    vstd::arithmetic::div_mod::lemma_div_is_ordered(s as int, e as int, 4096);
    vstd::arithmetic::div_mod::lemma_div_is_ordered(e as int, e as int + 4095, 4096);
    vstd::arithmetic::div_mod::lemma_div_pos_is_pos(s as int, 4096);
}

} // verus!
