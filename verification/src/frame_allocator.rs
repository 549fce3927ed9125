//! The physical frame allocator: a stack-based bump-and-recycle allocator
//! over a fixed range of page numbers.
//!
//! `current` is the next never-yet-handed-out page number (monotone), `end`
//! the exclusive upper bound, and `recycled` a LIFO stack of freed page
//! numbers. The multiset of live (handed out and not yet freed) pages is
//! exactly the bump range minus the recycled stack, and no page is ever
//! live twice.

use vstd::prelude::*;

use crate::addr::{PhysAddr, PhysPage};
use crate::phys_mem::PhysMemory;
use crate::{PPN_LIMIT, PPN_MASK, VIRT_ADDR_START_MASK};

verus! {

/// The stack-based physical frame allocator.
pub struct StackFrameAllocator {
    /// The next never-yet-handed-out page number.
    pub current: u64,
    /// The exclusive upper page number of the managed range.
    pub end: u64,
    /// Freed page numbers, popped LIFO before the bump range is consulted.
    pub recycled: Vec<u64>,
    /// The lower page number of the managed range, fixed at `init`.
    pub base: Ghost<u64>,
}

impl StackFrameAllocator {
    /// Basic shape: the bump cursor stays inside `[base, end]`, the range
    /// fits under the direct-map window, and every recycled page was handed
    /// out earlier and sits on the stack only once.
    pub open spec fn wf(self) -> bool {
        &&& self.base@ <= self.current <= self.end
        &&& self.end <= PPN_LIMIT
        &&& forall|i: int|
            0 <= i < self.recycled@.len() ==> self.base@ <= #[trigger] self.recycled@[i]
                < self.current
        &&& forall|i: int, j: int|
            0 <= i < j < self.recycled@.len() ==> self.recycled@[i] != self.recycled@[j]
    }

    /// The pages currently handed out and not yet freed: everything below
    /// the bump cursor except the recycled stack.
    pub open spec fn spec_live(self) -> Set<u64> {
        Set::new(
            |p: u64| self.base@ <= p < self.current && !self.recycled@.contains(p),
        )
    }

    /// The pages a future `alloc` may hand out: the recycled stack plus the
    /// untouched bump range.
    pub open spec fn spec_avail(self) -> Set<u64> {
        Set::new(|p: u64| self.current <= p < self.end || self.recycled@.contains(p))
    }

    /// Whether two allocator states hold the same range, cursor and stack.
    pub open spec fn same_state(self, other: StackFrameAllocator) -> bool {
        &&& self.base@ == other.base@
        &&& self.current == other.current
        &&& self.end == other.end
        &&& self.recycled@ == other.recycled@
    }

    /// An allocator managing the empty range.
    pub fn new() -> (r: Self)
        ensures
            r.wf(),
            r.current == 0 && r.end == 0 && r.recycled@.len() == 0,
            r.spec_live() =~= Set::<u64>::empty(),
            r.spec_avail() =~= Set::<u64>::empty(),
    {
        Self { current: 0, end: 0, recycled: Vec::new(), base: Ghost(0) }
    }

    /// Begin managing the page range `[l, r)`. Nothing is live yet and the
    /// whole range is available.
    pub fn init(&mut self, l: PhysPage, r: PhysPage)
        requires
            old(self).recycled@.len() == 0,
            l.0 <= r.0,
            r.0 <= PPN_LIMIT,
        ensures
            final(self).wf(),
            final(self).base@ == l.0 && final(self).current == l.0 && final(self).end == r.0,
            final(self).recycled@.len() == 0,
            final(self).spec_live() =~= Set::<u64>::empty(),
            final(self).spec_avail() =~= Set::new(|p: u64| l.0 <= p < r.0),
    {
        self.current = l.0;
        self.end = r.0;
        proof {
            self.base = Ghost(l.0);
        }
    }

    /// Hand out one page: the most recently freed one if any (LIFO), else
    /// the bump cursor; `None` exactly when nothing is available. The
    /// returned page joins the live set, which it was not in before.
    pub fn alloc_frame(&mut self) -> (r: Option<PhysPage>)
        requires
            old(self).wf(),
        ensures
            final(self).wf(),
            final(self).base@ == old(self).base@ && final(self).end == old(self).end,
            r is None <==> old(self).spec_avail().is_empty(),
            r is None ==> final(self).same_state(*old(self)),
            old(self).recycled@.len() > 0 ==> r == Some(
                PhysPage(old(self).recycled@.last()),
            ) && final(self).recycled@ == old(self).recycled@.drop_last() && final(self).current
                == old(self).current,
            old(self).recycled@.len() == 0 && old(self).current < old(self).end ==> r == Some(
                PhysPage(old(self).current),
            ) && final(self).current == old(self).current + 1 && final(self).recycled@ == old(
                self,
            ).recycled@,
            r is Some ==> {
                let p = r.unwrap().0;
                &&& old(self).spec_avail().contains(p)
                &&& !old(self).spec_live().contains(p)
                &&& final(self).spec_live() =~= old(self).spec_live().insert(p)
                &&& final(self).spec_avail() =~= old(self).spec_avail().remove(p)
            },
    {
        let ghost pre = *self;
        if let Some(ppn) = self.recycled.pop() {
            proof {
                lemma_mask_small(ppn);
                assert(!pre.spec_live().contains(ppn));
                assert(pre.spec_avail().contains(ppn));
                assert forall|q: u64| self.recycled@.contains(q) implies pre.recycled@.contains(
                    q,
                ) by {
                    let i = choose|i: int|
                        0 <= i < self.recycled@.len() && self.recycled@[i] == q;
                    assert(pre.recycled@[i] == q);
                }
                assert forall|q: u64|
                    pre.recycled@.contains(q) && q != ppn implies self.recycled@.contains(q) by {
                    let i = choose|i: int| 0 <= i < pre.recycled@.len() && pre.recycled@[i] == q;
                    assert(i < pre.recycled@.len() - 1);
                    assert(self.recycled@[i] == q);
                }
                assert(self.spec_live() =~= pre.spec_live().insert(ppn));
                assert(self.spec_avail() =~= pre.spec_avail().remove(ppn));
            }
            Some(PhysPage(ppn & PPN_MASK))
        } else if self.current == self.end {
            proof {
                assert(pre.spec_avail() =~= Set::<u64>::empty());
            }
            None
        } else {
            let ppn = self.current;
            self.current = self.current + 1;
            proof {
                lemma_mask_small(ppn);
                assert(!pre.recycled@.contains(ppn));
                assert(self.spec_live() =~= pre.spec_live().insert(ppn));
                assert(self.spec_avail() =~= pre.spec_avail().remove(ppn));
            }
            Some(PhysPage(ppn & PPN_MASK))
        }
    }

    /// Hand out `pages` fresh pages by bumping the cursor, without touching
    /// the recycled stack; fails when the untouched range is not strictly
    /// larger than the request. The pages come back in descending order,
    /// newest first.
    pub fn alloc_more(&mut self, pages: usize) -> (r: Option<Vec<PhysPage>>)
        requires
            old(self).wf(),
        ensures
            final(self).wf(),
            final(self).base@ == old(self).base@ && final(self).end == old(self).end,
            final(self).recycled@ == old(self).recycled@,
            r is None <==> old(self).current + pages >= old(self).end,
            r is None ==> final(self).same_state(*old(self)),
            r is Some ==> {
                let v = r.unwrap();
                &&& final(self).current == old(self).current + pages
                &&& v@.len() == pages
                &&& forall|i: int|
                    0 <= i < pages ==> (#[trigger] v@[i]).0 == final(self).current - 1 - i
                &&& forall|i: int|
                    0 <= i < pages ==> !old(self).spec_live().contains(v@[i].0)
                &&& final(self).spec_live() =~= Set::new(
                    |p: u64|
                        old(self).spec_live().contains(p) || (old(self).current <= p < old(
                            self,
                        ).current + pages),
                )
            },
    {
        let ghost pre = *self;
        if pages as u64 >= self.end - self.current {
            None
        } else {
            self.current = self.current + pages as u64;
            let mut v: Vec<PhysPage> = Vec::new();
            let mut x: usize = 0;
            while x < pages
                invariant
                    x <= pages,
                    v@.len() == x,
                    self.current >= pages,
                    forall|i: int|
                        0 <= i < x ==> (#[trigger] v@[i]).0 == self.current - 1 - i,
                decreases pages - x,
            {
                v.push(PhysPage(self.current - 1 - x as u64));
                x = x + 1;
            }
            proof {
                assert(self.spec_live() =~= Set::new(
                    |p: u64|
                        pre.spec_live().contains(p) || (pre.current <= p < pre.current + pages),
                ));
            }
            Some(v)
        }
    }

    /// Return a live page to the recycled stack. Freeing a page that is not
    /// live is a kernel bug; the precondition rules it out, and
    /// `try_dealloc` offers the run-time check instead.
    pub fn dealloc(&mut self, ppn: PhysPage)
        requires
            old(self).wf(),
            ppn.0 <= PPN_MASK,
            old(self).spec_live().contains(ppn.0),
        ensures
            final(self).wf(),
            final(self).base@ == old(self).base@ && final(self).end == old(self).end,
            final(self).current == old(self).current,
            final(self).recycled@ == old(self).recycled@.push(ppn.0),
            final(self).spec_live() =~= old(self).spec_live().remove(ppn.0),
            final(self).spec_avail() =~= old(self).spec_avail().insert(ppn.0),
    {
        let ghost pre = *self;
        proof {
            lemma_mask_small(ppn.0);
        }
        let p = ppn.0 & PPN_MASK;
        self.recycled.push(p);
        proof {
            assert forall|q: u64| self.recycled@.contains(q) implies pre.recycled@.contains(q)
                || q == ppn.0 by {
                let i = choose|i: int| 0 <= i < self.recycled@.len() && self.recycled@[i] == q;
                if i < pre.recycled@.len() {
                    assert(pre.recycled@[i] == q);
                }
            }
            assert(self.recycled@.contains(ppn.0)) by {
                assert(self.recycled@[pre.recycled@.len() as int] == ppn.0);
            }
            assert forall|q: u64| pre.recycled@.contains(q) implies self.recycled@.contains(
                q,
            ) by {
                let i = choose|i: int| 0 <= i < pre.recycled@.len() && pre.recycled@[i] == q;
                assert(self.recycled@[i] == q);
            }
            assert(self.spec_live() =~= pre.spec_live().remove(ppn.0));
            assert(self.spec_avail() =~= pre.spec_avail().insert(ppn.0));
        }
    }

    /// The run-time checked variant of `dealloc`: refuse, and leave the
    /// allocator unchanged, exactly when the page was never handed out
    /// (at or above the bump cursor) or is already on the recycled stack.
    pub fn try_dealloc(&mut self, ppn: PhysPage) -> (ok: bool)
        requires
            old(self).wf(),
            ppn.0 <= PPN_MASK,
            old(self).base@ <= ppn.0,
        ensures
            final(self).wf(),
            ok <==> old(self).spec_live().contains(ppn.0),
            !ok ==> final(self).same_state(*old(self)),
            ok ==> final(self).base@ == old(self).base@ && final(self).end == old(self).end
                && final(self).current == old(self).current && final(self).recycled@ == old(
                self,
            ).recycled@.push(ppn.0) && final(self).spec_live() =~= old(self).spec_live().remove(
                ppn.0,
            ) && final(self).spec_avail() =~= old(self).spec_avail().insert(ppn.0),
    {
        proof {
            lemma_mask_small(ppn.0);
        }
        let p = ppn.0 & PPN_MASK;
        if p >= self.current || vec_contains(&self.recycled, p) {
            false
        } else {
            self.dealloc(ppn);
            true
        }
    }
}

/// Allocator conservation: in every well-formed state the managed range
/// splits exactly into the live pages (everything handed out and not yet
/// freed) and the available pages (the recycled stack plus the untouched
/// bump range): no page is both, and none is lost. Together with the
/// contracts of `alloc_frame`, `alloc_more` and `dealloc` — which move one
/// page at a time between the two sides and never hand out a live page —
/// this pins the live set after any finite run of calls.
pub proof fn lemma_allocator_partition(a: StackFrameAllocator)
    requires
        a.wf(),
    ensures
        forall|p: u64|
            !(#[trigger] a.spec_live().contains(p) && a.spec_avail().contains(p)),
        forall|p: u64|
            (#[trigger] a.spec_live().contains(p) || a.spec_avail().contains(p)) <==> a.base@ <= p
                < a.end,
{
    assert forall|p: u64|
        ((#[trigger] a.spec_live().contains(p) || a.spec_avail().contains(p)) <==> a.base@ <= p
            < a.end) by {
        if a.recycled@.contains(p) {
            let i = choose|i: int| 0 <= i < a.recycled@.len() && a.recycled@[i] == p;
            assert(a.base@ <= a.recycled@[i] < a.current);
        }
        if a.base@ <= p < a.end && p < a.current && !a.recycled@.contains(p) {
            assert(a.spec_live().contains(p));
        }
    }
    assert forall|p: u64| #[trigger] a.spec_avail().contains(p) implies !a.spec_live().contains(
        p,
    ) by {}
}

/// Whether `v` holds `p`.
fn vec_contains(v: &Vec<u64>, p: u64) -> (r: bool)
    ensures
        r == v@.contains(p),
{
    let mut i: usize = 0;
    while i < v.len()
        invariant
            i <= v@.len(),
            forall|j: int| 0 <= j < i ==> v@[j] != p,
        decreases v@.len() - i,
    {
        if v[i] == p {
            return true;
        }
        i = i + 1;
    }
    false
}

/// Masking with the direct-map page-number mask keeps a page number that is
/// already under the window.
proof fn lemma_mask_small(p: u64)
    ensures
        p <= PPN_MASK ==> p & PPN_MASK == p,
{
    assert(p <= 0x3ff_ffffu64 ==> p & 0x3ff_ffff == p) by (bit_vector);
}

/// A tracked handle for one live physical frame: taking it zeroes the
/// frame's contents, releasing it returns the frame to the allocator.
pub struct FrameTracker {
    /// The page number this handle owns.
    pub ppn: PhysPage,
}

impl FrameTracker {
    /// Take ownership of `ppn`, zeroing the frame's contents.
    pub fn new(ppn: PhysPage, mem: &mut PhysMemory) -> (r: Self)
        requires
            old(mem).wf(),
            old(mem).contains_ppn(ppn.0),
        ensures
            r.ppn == ppn,
            final(mem).wf(),
            final(mem).base == old(mem).base,
            final(mem).frames@.len() == old(mem).frames@.len(),
            forall|i: int|
                0 <= i < crate::PAGE_ITEM_COUNT ==> #[trigger] final(mem).spec_entry(ppn.0, i)
                    == crate::pte::PTE(0),
            final(mem).same_except(*old(mem), ppn.0),
    {
        mem.zero_frame(ppn.0);
        Self { ppn }
    }

    /// Give the frame back to the allocator.
    pub fn release(self, allocator: &mut StackFrameAllocator)
        requires
            old(allocator).wf(),
            self.ppn.0 <= PPN_MASK,
            old(allocator).spec_live().contains(self.ppn.0),
        ensures
            final(allocator).wf(),
            final(allocator).base@ == old(allocator).base@,
            final(allocator).end == old(allocator).end,
            final(allocator).current == old(allocator).current,
            final(allocator).spec_live() =~= old(allocator).spec_live().remove(self.ppn.0),
            final(allocator).spec_avail() =~= old(allocator).spec_avail().insert(self.ppn.0),
    {
        allocator.dealloc(self.ppn);
    }
}

/// Hand out one page from the global allocator state.
pub fn frame_alloc(allocator: &mut StackFrameAllocator) -> (r: Option<PhysPage>)
    requires
        old(allocator).wf(),
    ensures
        final(allocator).wf(),
        r is None <==> old(allocator).spec_avail().is_empty(),
        r is None ==> final(allocator).same_state(*old(allocator)),
        r is Some ==> {
            let p = r.unwrap().0;
            &&& !old(allocator).spec_live().contains(p)
            &&& final(allocator).spec_live() =~= old(allocator).spec_live().insert(p)
        },
{
    allocator.alloc_frame()
}

/// Hand out `num` fresh pages, each wrapped in a tracker that zeroes its
/// frame.
pub fn frame_alloc_more(
    allocator: &mut StackFrameAllocator,
    mem: &mut PhysMemory,
    num: usize,
) -> (r: Option<Vec<FrameTracker>>)
    requires
        old(allocator).wf(),
        old(mem).wf(),
        old(allocator).end <= old(mem).base + old(mem).frames@.len(),
        old(mem).base <= old(allocator).current,
    ensures
        final(allocator).wf(),
        final(mem).wf(),
        final(mem).base == old(mem).base,
        final(mem).frames@.len() == old(mem).frames@.len(),
        r is None <==> old(allocator).current + num >= old(allocator).end,
        r is Some ==> {
            let v = r.unwrap();
            &&& v@.len() == num
            &&& final(allocator).current == old(allocator).current + num
            &&& forall|i: int|
                0 <= i < num ==> (#[trigger] v@[i]).ppn.0 == final(allocator).current - 1 - i
            &&& forall|i: int, j: int|
                0 <= i < num && 0 <= j < crate::PAGE_ITEM_COUNT
                    ==> #[trigger] final(mem).spec_entry(v@[i].ppn.0, j) == crate::pte::PTE(0)
        },
        forall|q: u64|
            old(mem).contains_ppn(q) && !(old(allocator).current <= q < old(allocator).current
                + num) ==> #[trigger] final(mem).spec_frame(q) == old(mem).spec_frame(q),
{
    let trackers = allocator.alloc_more(num);
    match trackers {
        Some(pages) => {
            let ghost cur0 = old(allocator).current;
            let mut v: Vec<FrameTracker> = Vec::new();
            let mut i: usize = 0;
            while i < pages.len()
                invariant
                    i <= pages@.len(),
                    v@.len() == i,
                    mem.wf(),
                    mem.base == old(mem).base,
                    mem.frames@.len() == old(mem).frames@.len(),
                    pages@.len() == num,
                    forall|j: int|
                        0 <= j < pages@.len() ==> (#[trigger] pages@[j]).0 == cur0 + num - 1 - j,
                    forall|j: int|
                        0 <= j < pages@.len() ==> old(mem).base <= (#[trigger] pages@[j]).0 < old(
                            mem,
                        ).base + old(mem).frames@.len(),
                    forall|j: int| 0 <= j < i ==> (#[trigger] v@[j]).ppn == pages@[j],
                    forall|j: int, jj: int|
                        0 <= j < i && 0 <= jj < crate::PAGE_ITEM_COUNT ==> #[trigger] mem.spec_entry(
                            pages@[j].0,
                            jj,
                        ) == crate::pte::PTE(0),
                    forall|q: u64|
                        old(mem).contains_ppn(q) && !(cur0 <= q < cur0 + num)
                            ==> #[trigger] mem.spec_frame(q) == old(mem).spec_frame(q),
                decreases pages@.len() - i,
            {
                let ghost m_it = *mem;
                let t = FrameTracker::new(pages[i], mem);
                proof {
                    assert forall|j: int, jj: int|
                        0 <= j < i + 1 && 0 <= jj < crate::PAGE_ITEM_COUNT implies
                        #[trigger] mem.spec_entry(pages@[j].0, jj) == crate::pte::PTE(0) by {
                        if j < i {
                            assert(pages@[j].0 != pages@[i as int].0);
                            assert(mem.spec_frame(pages@[j].0) == m_it.spec_frame(pages@[j].0));
                            assert(m_it.spec_entry(pages@[j].0, jj) == crate::pte::PTE(0));
                            assert(mem.spec_entry(pages@[j].0, jj) == m_it.spec_entry(
                                pages@[j].0,
                                jj,
                            ));
                        } else {
                            assert(t.ppn == pages@[i as int]);
                            assert(mem.spec_entry(t.ppn.0, jj) == crate::pte::PTE(0));
                        }
                    }
                    assert forall|q: u64|
                        old(mem).contains_ppn(q) && !(cur0 <= q < cur0 + num) implies
                        #[trigger] mem.spec_frame(q) == old(mem).spec_frame(q) by {
                        assert(q != pages@[i as int].0);
                        assert(mem.spec_frame(q) == m_it.spec_frame(q));
                    }
                }
                v.push(t);
                i = i + 1;
            }
            Some(v)
        },
        None => None,
    }
}

/// Return one page to the global allocator state.
pub fn frame_dealloc(allocator: &mut StackFrameAllocator, ppn: PhysPage)
    requires
        old(allocator).wf(),
        ppn.0 <= PPN_MASK,
        old(allocator).spec_live().contains(ppn.0),
    ensures
        final(allocator).wf(),
        final(allocator).spec_live() =~= old(allocator).spec_live().remove(ppn.0),
        final(allocator).spec_avail() =~= old(allocator).spec_avail().insert(ppn.0),
{
    allocator.dealloc(ppn);
}

/// Build the boot-time frame allocator: it manages from the first whole
/// page above the kernel image (its physical address, with the direct-map
/// bits stripped) up to the last whole page under the memory ceiling.
pub fn init_frame_allocator(ekernel: u64, memory_end: u64) -> (r: StackFrameAllocator)
    requires
        crate::addr::spec_page_ceil((ekernel & VIRT_ADDR_START_MASK) as int)
            <= crate::addr::spec_page_floor(memory_end as int),
        memory_end <= PPN_MASK,
    ensures
        r.wf(),
        r.base@ == crate::addr::spec_page_ceil((ekernel & VIRT_ADDR_START_MASK) as int),
        r.current == r.base@,
        r.end == crate::addr::spec_page_floor(memory_end as int),
        r.spec_live() =~= Set::<u64>::empty(),
{
    let mut allocator = StackFrameAllocator::new();
    let l = PhysAddr::new(ekernel & VIRT_ADDR_START_MASK).ceil();
    let r = PhysAddr::new(memory_end).floor();
    proof {
        vstd::arithmetic::div_mod::lemma_div_is_ordered(0, memory_end as int, 4096);
        vstd::arithmetic::div_mod::lemma_div_is_ordered(
            memory_end as int,
            PPN_LIMIT as int * 4096,
            4096,
        );
        vstd::arithmetic::div_mod::lemma_div_multiples_vanish(PPN_LIMIT as int, 4096);
    }
    allocator.init(l, r);
    allocator
}

/// Initialize the memory core: build the boot-time frame allocator over
/// `[ekernel, memory_end)`.
pub fn init(ekernel: u64, memory_end: u64) -> (r: StackFrameAllocator)
    requires
        crate::addr::spec_page_ceil((ekernel & VIRT_ADDR_START_MASK) as int)
            <= crate::addr::spec_page_floor(memory_end as int),
        memory_end <= PPN_MASK,
    ensures
        r.wf(),
        r.base@ == crate::addr::spec_page_ceil((ekernel & VIRT_ADDR_START_MASK) as int),
        r.current == r.base@,
        r.end == crate::addr::spec_page_floor(memory_end as int),
        r.spec_live() =~= Set::<u64>::empty(),
{
    init_frame_allocator(ekernel, memory_end)
}

} // verus!
