//! Typed physical and virtual addresses and page numbers.
//!
//! Addresses are byte-granular 64-bit machine words; page numbers are
//! addresses shifted right by 12 (4 KiB pages). `SimpleRange` is a half-open
//! iterable range over any steppable key; `VPNRange` is its instantiation
//! over virtual page numbers.

use vstd::prelude::*;
use vstd::arithmetic::div_mod::lemma_fundamental_div_mod;

use crate::{PAGE_SIZE, VIRT_ADDR_START};

verus! {

/// A byte-granular absolute physical address.
#[derive(Copy, Clone, PartialEq, Eq, Structural, PartialOrd, Ord, Debug)]
pub struct PhysAddr(pub u64);

/// A byte-granular virtual address, kernel or user.
#[derive(Copy, Clone, PartialEq, Eq, Structural, PartialOrd, Ord, Debug)]
pub struct VirtAddr(pub u64);

/// A physical page number: physical address shifted right by 12.
#[derive(Copy, Clone, PartialEq, Eq, Structural, PartialOrd, Ord, Debug)]
pub struct PhysPage(pub u64);

/// A virtual page number: virtual address shifted right by 12.
#[derive(Copy, Clone, PartialEq, Eq, Structural, PartialOrd, Ord, Debug)]
pub struct VirtPage(pub u64);

/// The page containing byte `w`: `w / PAGE_SIZE`.
pub open spec fn spec_page_floor(w: int) -> int {
    w / (PAGE_SIZE as int)
}

/// The smallest page whose base is at or above byte `w`; `ceil(0)` is page 0.
pub open spec fn spec_page_ceil(w: int) -> int {
    if w == 0 {
        0
    } else {
        (w + (PAGE_SIZE - 1)) / (PAGE_SIZE as int)
    }
}

/// The offset of byte `w` within its page: `w % PAGE_SIZE`.
pub open spec fn spec_page_offset(w: int) -> int {
    w % (PAGE_SIZE as int)
}

impl PhysAddr {
    pub fn new(addr: u64) -> (r: Self)
        ensures
            r.0 == addr,
    {
        Self(addr)
    }

    /// The raw address word.
    pub fn addr(&self) -> (r: u64)
        ensures
            r == self.0,
    {
        self.0
    }

    /// The kernel-virtual address at which this physical byte is reachable
    /// through the high-half direct map. The word is returned as a plain
    /// value; turning it into a pointer belongs to the hardware edge.
    pub fn get_ptr(&self) -> (r: u64)
        ensures
            r == self.0 | VIRT_ADDR_START,
    {
        self.0 | VIRT_ADDR_START
    }

    /// The kernel-virtual address of this physical byte, for writing.
    pub fn get_mut_ptr(&self) -> (r: u64)
        ensures
            r == self.0 | VIRT_ADDR_START,
    {
        self.0 | VIRT_ADDR_START
    }

    /// The page containing this byte.
    pub fn floor(&self) -> (r: PhysPage)
        ensures
            r.0 == spec_page_floor(self.0 as int),
    {
        PhysPage(self.0 / PAGE_SIZE)
    }

    /// The smallest page whose base is at or above this byte.
    pub fn ceil(&self) -> (r: PhysPage)
        ensures
            r.0 == spec_page_ceil(self.0 as int),
    {
        if self.0 == 0 {
            PhysPage(0)
        } else {
            proof {
                lemma_ceil_shift(self.0 as int);
            }
            PhysPage((self.0 - 1) / PAGE_SIZE + 1)
        }
    }

    /// The offset of this byte within its page.
    pub fn page_offset(&self) -> (r: u64)
        ensures
            r == spec_page_offset(self.0 as int),
    {
        proof {
            lemma_mask_is_mod(self.0);
        }
        self.0 & (PAGE_SIZE - 1)
    }

    /// Whether this address sits on a page boundary.
    pub fn aligned(&self) -> (r: bool)
        ensures
            r == (spec_page_offset(self.0 as int) == 0),
    {
        self.page_offset() == 0
    }
}

impl VirtAddr {
    pub fn new(addr: u64) -> (r: Self)
        ensures
            r.0 == addr,
    {
        Self(addr)
    }

    /// The raw address word.
    pub fn addr(&self) -> (r: u64)
        ensures
            r == self.0,
    {
        self.0
    }

    /// The address itself: a virtual address is used directly.
    pub fn get_ptr(&self) -> (r: u64)
        ensures
            r == self.0,
    {
        self.0
    }

    /// The address itself, for writing.
    pub fn get_mut_ptr(&self) -> (r: u64)
        ensures
            r == self.0,
    {
        self.0
    }

    /// The page containing this byte.
    pub fn floor(&self) -> (r: VirtPage)
        ensures
            r.0 == spec_page_floor(self.0 as int),
    {
        VirtPage(self.0 / PAGE_SIZE)
    }

    /// The smallest page whose base is at or above this byte.
    pub fn ceil(&self) -> (r: VirtPage)
        ensures
            r.0 == spec_page_ceil(self.0 as int),
    {
        if self.0 == 0 {
            VirtPage(0)
        } else {
            proof {
                lemma_ceil_shift(self.0 as int);
            }
            VirtPage((self.0 - 1) / PAGE_SIZE + 1)
        }
    }

    /// The offset of this byte within its page.
    pub fn page_offset(&self) -> (r: u64)
        ensures
            r == spec_page_offset(self.0 as int),
    {
        proof {
            lemma_mask_is_mod(self.0);
        }
        self.0 & (PAGE_SIZE - 1)
    }

    /// Whether this address sits on a page boundary.
    pub fn aligned(&self) -> (r: bool)
        ensures
            r == (spec_page_offset(self.0 as int) == 0),
    {
        self.page_offset() == 0
    }
}

impl PhysPage {
    pub fn new(ppn: u64) -> (r: Self)
        ensures
            r.0 == ppn,
    {
        Self(ppn)
    }

    /// The page containing byte `addr`.
    pub fn from_addr(addr: u64) -> (r: Self)
        ensures
            r.0 == spec_page_floor(addr as int),
    {
        proof {
            lemma_shr_is_div(addr);
        }
        Self(addr >> 12)
    }

    /// The base address of this page.
    pub fn to_addr(&self) -> (r: u64)
        requires
            self.0 * PAGE_SIZE <= u64::MAX,
        ensures
            r == self.0 * PAGE_SIZE,
    {
        proof {
            lemma_shl_is_mul(self.0);
        }
        self.0 << 12
    }
}

impl VirtPage {
    pub fn new(vpn: u64) -> (r: Self)
        ensures
            r.0 == vpn,
    {
        Self(vpn)
    }

    /// The page containing byte `addr`.
    pub fn from_addr(addr: u64) -> (r: Self)
        ensures
            r.0 == spec_page_floor(addr as int),
    {
        proof {
            lemma_shr_is_div(addr);
        }
        Self(addr >> 12)
    }

    /// The base address of this page.
    pub fn to_addr(&self) -> (r: u64)
        requires
            self.0 * PAGE_SIZE <= u64::MAX,
        ensures
            r == self.0 * PAGE_SIZE,
    {
        proof {
            lemma_shl_is_mul(self.0);
        }
        self.0 << 12
    }

    /// The three Sv39 table indexes `[L2, L1, L0]` of this page number:
    /// `Lk = (vpn >> 9 * (2 - k)) & 0x1ff`, used to walk a three-level table
    /// from the root to the leaf.
    pub fn indexes(&self) -> (r: [usize; 3])
        ensures
            r[0] == (self.0 >> 18) & 0x1ff,
            r[1] == (self.0 >> 9) & 0x1ff,
            r[2] == self.0 & 0x1ff,
            r[0] < 512 && r[1] < 512 && r[2] < 512,
    {
        proof {
            lemma_vpn_index_bounds(self.0);
        }
        [((self.0 >> 18) & 0x1ff) as usize, ((self.0 >> 9) & 0x1ff) as usize, (self.0
            & 0x1ff) as usize]
    }
}

/// `x & 0xfff` equals `x % 4096`.
proof fn lemma_mask_is_mod(x: u64)
    ensures
        x & 4095 == (x as int) % (PAGE_SIZE as int),
{
    assert(x & 4095 == x % 4096) by (bit_vector);
}

/// `x >> 12` equals `x / 4096`.
proof fn lemma_shr_is_div(x: u64)
    ensures
        x >> 12 == (x as int) / (PAGE_SIZE as int),
{
    assert(x >> 12 == x / 4096) by (bit_vector);
}

/// `x << 12` equals `x * 4096` when the product fits in a word.
proof fn lemma_shl_is_mul(x: u64)
    requires
        x * PAGE_SIZE <= u64::MAX,
    ensures
        x << 12 == x * PAGE_SIZE,
{
    assert(x * 4096 <= u64::MAX ==> x << 12 == x * 4096) by (bit_vector);
}

/// Rounding up by adding `PAGE_SIZE - 1` before a floor division is the same
/// as flooring `w - 1` and adding one, for positive `w`.
proof fn lemma_ceil_shift(w: int)
    requires
        w >= 1,
    ensures
        (w - 1) / (PAGE_SIZE as int) + 1 == (w + (PAGE_SIZE - 1)) / (PAGE_SIZE as int),
{
    assert((w - 1) / 4096 + 1 == (w - 1 + 4096) / 4096) by {
        vstd::arithmetic::div_mod::lemma_hoist_over_denominator(w - 1, 1, 4096nat);
    }
}

/// Each Sv39 index is below 512.
proof fn lemma_vpn_index_bounds(vpn: u64)
    ensures
        (vpn >> 18) & 0x1ff < 512,
        (vpn >> 9) & 0x1ff < 512,
        vpn & 0x1ff < 512,
{
    assert((vpn >> 18) & 0x1ff < 512) by (bit_vector);
    assert((vpn >> 9) & 0x1ff < 512) by (bit_vector);
    assert(vpn & 0x1ff < 512) by (bit_vector);
}

/// Address round trip: the base of the page containing byte `w` is at most
/// `w`, and `w` lies strictly below the next page boundary; `w` is aligned
/// exactly when it is a multiple of the page size.
pub proof fn lemma_addr_round_trip(w: u64)
    ensures
        spec_page_floor(w as int) * (PAGE_SIZE as int) <= w as int,
        (w as int) < spec_page_floor(w as int) * (PAGE_SIZE as int) + PAGE_SIZE,
        (spec_page_offset(w as int) == 0) <==> (w as int % (PAGE_SIZE as int) == 0),
{
    lemma_fundamental_div_mod(w as int, PAGE_SIZE as int);
}

/// Ceil law: `ceil(0)` is page 0; for positive `w`, `ceil(w)` is
/// `floor(w + PAGE_SIZE - 1)`; and on an aligned address ceil is exact:
/// its base address is `w` again.
pub proof fn lemma_page_ceil_law(w: u64)
    ensures
        spec_page_ceil(0) == 0,
        w > 0 ==> spec_page_ceil(w as int) == spec_page_floor(w as int + (PAGE_SIZE - 1)),
        spec_page_offset(w as int) == 0 ==> spec_page_ceil(w as int) * (PAGE_SIZE as int)
            == w as int,
{
    lemma_fundamental_div_mod(w as int, PAGE_SIZE as int);
    if spec_page_offset(w as int) == 0 && w > 0 {
        assert((w + 4095) / 4096 == w / 4096) by {
            lemma_fundamental_div_mod(w as int + 4095, 4096);
            vstd::arithmetic::div_mod::lemma_fundamental_div_mod_converse(
                w as int + 4095,
                4096,
                w as int / 4096,
                4095,
            );
        }
    }
}

/// Reassembling the three Sv39 indexes of a page number yields the page
/// number again, for any `vpn` inside the 27-bit Sv39 virtual page space.
pub proof fn lemma_vpn_indexes_round_trip(vpn: u64)
    requires
        vpn < 0x800_0000,
    ensures
        ((((vpn >> 18) & 0x1ff) << 9 | ((vpn >> 9) & 0x1ff)) << 9) | (vpn & 0x1ff) == vpn,
{
    assert(vpn < 0x800_0000 ==> (((((vpn >> 18) & 0x1ff) << 9) | ((vpn >> 9) & 0x1ff)) << 9) | (
    vpn & 0x1ff) == vpn) by (bit_vector);
}

/// A key over which a half-open range can step forward one unit at a time.
pub trait StepByOne: Sized + Copy {
    /// The mathematical value of the key.
    spec fn sval(self) -> int;

    /// Whether one more step stays inside the key's machine representation.
    spec fn can_step(self) -> bool;

    /// A key strictly below another key can always step.
    proof fn lemma_step_below(self, other: Self)
        requires
            self.sval() < other.sval(),
        ensures
            self.can_step(),
    ;

    /// Advance the key by one unit.
    fn step(&mut self)
        requires
            old(self).can_step(),
        ensures
            final(self).sval() == old(self).sval() + 1,
    ;

    /// Whether two keys hold the same value.
    fn key_eq(&self, other: &Self) -> (r: bool)
        ensures
            r == (self.sval() == other.sval()),
    ;

    /// Whether this key is at or below another key.
    fn key_le(&self, other: &Self) -> (r: bool)
        ensures
            r == (self.sval() <= other.sval()),
    ;
}

impl StepByOne for VirtPage {
    open spec fn sval(self) -> int {
        self.0 as int
    }

    open spec fn can_step(self) -> bool {
        self.0 < u64::MAX
    }

    proof fn lemma_step_below(self, other: Self) {
    }

    fn step(&mut self) {
        self.0 = self.0 + 1;
    }

    fn key_eq(&self, other: &Self) -> (r: bool) {
        self.0 == other.0
    }

    fn key_le(&self, other: &Self) -> (r: bool) {
        self.0 <= other.0
    }
}

impl StepByOne for PhysPage {
    open spec fn sval(self) -> int {
        self.0 as int
    }

    open spec fn can_step(self) -> bool {
        self.0 < u64::MAX
    }

    proof fn lemma_step_below(self, other: Self) {
    }

    fn step(&mut self) {
        self.0 = self.0 + 1;
    }

    fn key_eq(&self, other: &Self) -> (r: bool) {
        self.0 == other.0
    }

    fn key_le(&self, other: &Self) -> (r: bool) {
        self.0 <= other.0
    }
}

/// A half-open range `[l, r)` over a steppable key. Invariant: `l <= r`.
#[derive(Copy, Clone)]
pub struct SimpleRange<T: StepByOne> {
    pub l: T,
    pub r: T,
}

impl<T: StepByOne> SimpleRange<T> {
    /// Build the range `[start, end)`; an inverted pair is rejected.
    pub fn new(start: T, end: T) -> (rng: Self)
        requires
            start.sval() <= end.sval(),
        ensures
            rng.l == start,
            rng.r == end,
    {
        Self { l: start, r: end }
    }

    pub fn get_start(&self) -> (r: T)
        ensures
            r == self.l,
    {
        self.l
    }

    pub fn get_end(&self) -> (r: T)
        ensures
            r == self.r,
    {
        self.r
    }

    /// The keys of the range in ascending order: exactly `r - l` items,
    /// each one step above its predecessor.
    pub fn to_vec(self) -> (out: Vec<T>)
        requires
            self.l.sval() <= self.r.sval(),
        ensures
            out@.len() == self.r.sval() - self.l.sval(),
            forall|i: int| 0 <= i < out@.len() ==> #[trigger] out@[i].sval() == self.l.sval() + i,
    {
        let mut out: Vec<T> = Vec::new();
        let mut it = SimpleRangeIterator::new(self.l, self.r);
        loop
            invariant
                it.end == self.r,
                self.l.sval() <= it.current.sval() <= self.r.sval(),
                out@.len() == it.current.sval() - self.l.sval(),
                forall|i: int| 0 <= i < out@.len() ==> #[trigger] out@[i].sval() == self.l.sval()
                    + i,
            ensures
                it.current.sval() == self.r.sval(),
                out@.len() == self.r.sval() - self.l.sval(),
                forall|i: int| 0 <= i < out@.len() ==> #[trigger] out@[i].sval() == self.l.sval()
                    + i,
            decreases self.r.sval() - it.current.sval(),
        {
            match it.next() {
                Some(v) => {
                    out.push(v);
                },
                None => {
                    break ;
                },
            }
        }
        out
    }
}

/// Iterator state for a `SimpleRange`: yields `current` and steps it until
/// it reaches `end`.
pub struct SimpleRangeIterator<T: StepByOne> {
    pub current: T,
    pub end: T,
}

impl<T: StepByOne> SimpleRangeIterator<T> {
    pub fn new(l: T, r: T) -> (it: Self)
        ensures
            it.current == l,
            it.end == r,
    {
        Self { current: l, end: r }
    }

    /// The next key of the range, or `None` once `current` has reached `end`.
    pub fn next(&mut self) -> (r: Option<T>)
        requires
            old(self).current.sval() <= old(self).end.sval(),
        ensures
            final(self).end == old(self).end,
            old(self).current.sval() == old(self).end.sval() ==> r is None && final(self).current
                == old(self).current,
            old(self).current.sval() < old(self).end.sval() ==> r == Some(old(self).current)
                && final(self).current.sval() == old(self).current.sval() + 1,
    {
        if self.current.key_eq(&self.end) {
            None
        } else {
            let t = self.current;
            proof {
                self.current.lemma_step_below(self.end);
            }
            self.current.step();
            Some(t)
        }
    }
}

/// A half-open range of virtual page numbers.
pub type VPNRange = SimpleRange<VirtPage>;

} // verus!
