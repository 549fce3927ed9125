//! An explicit model of the physical page frames that hold page tables.
//!
//! The machine's raw frames are represented as a contiguous run of page
//! numbers starting at `base`, each frame holding `PAGE_ITEM_COUNT` entry
//! words. Page-table walks and mutations read and write frames through this
//! model, so their effect on memory is stated exactly.

use vstd::prelude::*;

use crate::pte::PTE;
use crate::{PAGE_ITEM_COUNT, PPN_LIMIT};

verus! {

/// The modeled run of physical page frames `[base, base + frames.len())`.
pub struct PhysMemory {
    /// The first modeled physical page number.
    pub base: u64,
    /// One entry table per modeled frame, in page-number order.
    pub frames: Vec<Vec<PTE>>,
}

impl PhysMemory {
    /// Every modeled frame holds exactly `PAGE_ITEM_COUNT` entries, and the
    /// modeled run stays under the direct-map window.
    pub open spec fn wf(self) -> bool {
        &&& self.base + self.frames@.len() <= PPN_LIMIT
        &&& forall|i: int|
            0 <= i < self.frames@.len() ==> (#[trigger] self.frames@[i])@.len()
                == PAGE_ITEM_COUNT
    }

    /// Whether page number `p` lies inside the modeled run.
    pub open spec fn contains_ppn(self, p: u64) -> bool {
        self.base <= p && p < self.base + self.frames@.len()
    }

    /// The entries of the frame with page number `p`.
    pub open spec fn spec_frame(self, p: u64) -> Seq<PTE> {
        self.frames@[p - self.base]@
    }

    /// Entry `i` of the frame with page number `p`.
    pub open spec fn spec_entry(self, p: u64, i: int) -> PTE {
        self.spec_frame(p)[i]
    }

    /// Whether every modeled frame except `p` holds the same entries in
    /// `self` as in `other`.
    pub open spec fn same_except(self, other: PhysMemory, p: u64) -> bool {
        &&& self.base == other.base
        &&& self.frames@.len() == other.frames@.len()
        &&& forall|q: u64|
            other.contains_ppn(q) && q != p ==> #[trigger] self.spec_frame(q)
                == other.spec_frame(q)
    }

    /// Model `count` frames starting at page number `base`, all zeroed.
    pub fn new(base: u64, count: usize) -> (r: Self)
        requires
            base + count <= PPN_LIMIT,
        ensures
            r.wf(),
            r.base == base,
            r.frames@.len() == count,
            forall|p: u64, i: int|
                r.contains_ppn(p) && 0 <= i < PAGE_ITEM_COUNT ==> #[trigger] r.spec_entry(p, i)
                    == PTE(0),
    {
        let mut frames: Vec<Vec<PTE>> = Vec::new();
        let mut k: usize = 0;
        while k < count
            invariant
                k <= count,
                frames@.len() == k,
                forall|i: int|
                    0 <= i < k ==> (#[trigger] frames@[i])@ =~= Seq::new(
                        PAGE_ITEM_COUNT as nat,
                        |j: int| PTE(0),
                    ),
            decreases count - k,
        {
            frames.push(zeroed_frame());
            k = k + 1;
        }
        let r = PhysMemory { base, frames };
        proof {
            assert forall|p: u64, i: int|
                r.contains_ppn(p) && 0 <= i < PAGE_ITEM_COUNT implies #[trigger] r.spec_entry(
                p,
                i,
            ) == PTE(0) by {
                assert(r.spec_frame(p) =~= Seq::new(PAGE_ITEM_COUNT as nat, |j: int| PTE(0)));
            }
        }
        r
    }

    /// Whether page number `p` lies inside the modeled run.
    pub fn check_contains(&self, p: u64) -> (r: bool)
        requires
            self.wf(),
        ensures
            r == self.contains_ppn(p),
    {
        p >= self.base && p - self.base < self.frames.len() as u64
    }

    /// Read entry `idx` of the frame with page number `ppn`.
    pub fn read_pte(&self, ppn: u64, idx: usize) -> (r: PTE)
        requires
            self.wf(),
            self.contains_ppn(ppn),
            idx < PAGE_ITEM_COUNT,
        ensures
            r == self.spec_entry(ppn, idx as int),
    {
        let fi: usize = (ppn - self.base) as usize;
        self.frames[fi][idx]
    }

    /// Overwrite entry `idx` of the frame with page number `ppn`; every
    /// other frame keeps its entries.
    pub fn write_pte(&mut self, ppn: u64, idx: usize, pte: PTE)
        requires
            old(self).wf(),
            old(self).contains_ppn(ppn),
            idx < PAGE_ITEM_COUNT,
        ensures
            final(self).wf(),
            final(self).base == old(self).base,
            final(self).frames@.len() == old(self).frames@.len(),
            final(self).spec_frame(ppn) == old(self).spec_frame(ppn).update(idx as int, pte),
            final(self).same_except(*old(self), ppn),
    {
        let fi: usize = (ppn - self.base) as usize;
        self.frames[fi][idx] = pte;
        proof {
            assert(self.spec_frame(ppn) =~= old(self).spec_frame(ppn).update(idx as int, pte));
        }
    }

    /// Copy the contents of the frame `src` over the frame `dst`; every
    /// other frame keeps its entries.
    pub fn copy_frame(&mut self, dst: u64, src: u64)
        requires
            old(self).wf(),
            old(self).contains_ppn(dst),
            old(self).contains_ppn(src),
            dst != src,
        ensures
            final(self).wf(),
            final(self).base == old(self).base,
            final(self).frames@.len() == old(self).frames@.len(),
            final(self).spec_frame(dst) == old(self).spec_frame(src),
            final(self).same_except(*old(self), dst),
    {
        let mut copied: Vec<PTE> = Vec::new();
        let mut i: usize = 0;
        let si: usize = (src - self.base) as usize;
        while i < PAGE_ITEM_COUNT
            invariant
                i <= PAGE_ITEM_COUNT,
                copied@.len() == i,
                self.wf(),
                self.contains_ppn(src),
                si == src - self.base,
                forall|j: int| 0 <= j < i ==> #[trigger] copied@[j] == self.spec_frame(src)[j],
            decreases PAGE_ITEM_COUNT - i,
        {
            let e = self.frames[si][i];
            copied.push(e);
            i = i + 1;
        }
        let di: usize = (dst - self.base) as usize;
        self.frames[di] = copied;
        proof {
            assert(self.spec_frame(dst) =~= old(self).spec_frame(src));
        }
    }

    /// Zero every entry of the frame with page number `ppn`; every other
    /// frame keeps its entries.
    pub fn zero_frame(&mut self, ppn: u64)
        requires
            old(self).wf(),
            old(self).contains_ppn(ppn),
        ensures
            final(self).wf(),
            final(self).base == old(self).base,
            final(self).frames@.len() == old(self).frames@.len(),
            final(self).spec_frame(ppn) =~= Seq::new(PAGE_ITEM_COUNT as nat, |j: int| PTE(0)),
            forall|i: int|
                0 <= i < PAGE_ITEM_COUNT ==> #[trigger] final(self).spec_entry(ppn, i) == PTE(0),
            final(self).same_except(*old(self), ppn),
    {
        let fi: usize = (ppn - self.base) as usize;
        self.frames[fi] = zeroed_frame();
    }
}

/// A freshly zeroed entry table.
fn zeroed_frame() -> (f: Vec<PTE>)
    ensures
        f@ =~= Seq::new(PAGE_ITEM_COUNT as nat, |j: int| PTE(0)),
{
    let mut f: Vec<PTE> = Vec::new();
    let mut i: usize = 0;
    while i < PAGE_ITEM_COUNT
        invariant
            i <= PAGE_ITEM_COUNT,
            f@.len() == i,
            forall|j: int| 0 <= j < i ==> f@[j] == PTE(0),
        decreases PAGE_ITEM_COUNT - i,
    {
        f.push(PTE::new());
        i = i + 1;
    }
    proof {
        assert(f@ =~= Seq::new(PAGE_ITEM_COUNT as nat, |j: int| PTE(0)));
    }
    f
}

} // verus!
